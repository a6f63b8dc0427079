//! The set of regions to display or use on a given tick.
//!
//! The projection is re-derived from the frame store every time it is asked
//! for — regions are never cached on an entity — so an author's edits are
//! visible on the very next tick.  A frame index beyond the sheet's current
//! frame count yields an empty region set, never an error.

use vstd::prelude::*;

use crate::geometry::HitBox;
use crate::geometry::HurtBox;
use crate::geometry::Vec2i;
use crate::geometry::vec2_in_range;
use crate::geometry::vec2_scaled;
use crate::mode::CoreGuiState;
use crate::selection::SelectedFrame;
use crate::sheets::FrameView;
use crate::sheets::SpriteSheetsData;
use crate::sheets::lemma_find_index;
use crate::sheets::spec_find_index;
use crate::sheets::wf_catalog;

verus! {

/// The regions one tick displays, already scaled into the entity's render
/// scale.
pub struct ProjectedRegions {
    pub hits: Vec<HitBox>,
    pub hurts: Vec<HurtBox>,
}

/// A frame with no regions at all.
pub open spec fn empty_frame() -> FrameView {
    FrameView { hit_boxes: Seq::empty(), hurt_boxes: Seq::empty() }
}

/// The frame the projection reads: the named sheet's frame at `index`, or an
/// empty frame when the sheet is absent or the index is out of range.
pub open spec fn spec_frame_at(
    cat: Seq<crate::sheets::SheetView>,
    id: Option<Seq<u8>>,
    index: Option<int>,
) -> FrameView {
    if id is Some && index is Some && spec_find_index(cat, id->Some_0) >= 0 && 0 <= index->Some_0
        < cat[spec_find_index(cat, id->Some_0)].frames.len() {
        cat[spec_find_index(cat, id->Some_0)].frames[index->Some_0]
    } else {
        empty_frame()
    }
}

/// Every hit region of `s`, scaled component-wise by `factor`.
pub open spec fn spec_scaled_hits(s: Seq<HitBox>, factor: Vec2i) -> Seq<HitBox> {
    s.map_values(
        |b: HitBox| HitBox { size: vec2_scaled(b.size, factor), offset: vec2_scaled(b.offset, factor) },
    )
}

/// Every hurt region of `s`, scaled component-wise by `factor`.
pub open spec fn spec_scaled_hurts(s: Seq<HurtBox>, factor: Vec2i) -> Seq<HurtBox> {
    s.map_values(
        |b: HurtBox| HurtBox { size: vec2_scaled(b.size, factor), offset: vec2_scaled(b.offset, factor) },
    )
}

/// What one `Game`-mode tick displays for the animated entity: the regions of
/// the sheet's frame at the entity's current tile index, looked up fresh from
/// the catalog, scaled into the entity's render scale, and filtered by the
/// two overlay toggles.  An absent sheet or an out-of-range tile index yields
/// empty region sets, not an error.
pub fn project_game_regions(
    catalog: &SpriteSheetsData,
    sheet_id: &Option<Vec<u8>>,
    atlas_index: usize,
    scale: Vec2i,
    gui_state: &CoreGuiState,
) -> (r: ProjectedRegions)
    requires
        wf_catalog(catalog@),
        vec2_in_range(scale),
    ensures
        ({
            let id = match *sheet_id {
                Some(ref v) => Some(v@),
                None => None,
            };
            let frame = spec_frame_at(catalog@, id, Some(atlas_index as int));
            &&& r.hits@ == if gui_state.show_hit_boxes {
                spec_scaled_hits(frame.hit_boxes, scale)
            } else {
                Seq::<HitBox>::empty()
            }
            &&& r.hurts@ == if gui_state.show_hurt_boxes {
                spec_scaled_hurts(frame.hurt_boxes, scale)
            } else {
                Seq::<HurtBox>::empty()
            }
        }),
{
    project_regions(
        catalog,
        sheet_id,
        Some(atlas_index),
        scale,
        gui_state.show_hit_boxes,
        gui_state.show_hurt_boxes,
    )
}

/// What one `Editor`-mode tick displays: the regions of the *selected* frame,
/// recomputed from the current selection and catalog, scaled into the display
/// entity's render scale.  Both region kinds are always drawn in this mode.
pub fn project_editor_regions(catalog: &SpriteSheetsData, selection: &SelectedFrame, scale: Vec2i) -> (r:
    ProjectedRegions)
    requires
        wf_catalog(catalog@),
        vec2_in_range(scale),
    ensures
        ({
            let index = match selection@.frame_index {
                Some(i) => Some(i as int),
                None => None,
            };
            let frame = spec_frame_at(catalog@, selection@.sprite_sheet_id, index);
            &&& r.hits@ == spec_scaled_hits(frame.hit_boxes, scale)
            &&& r.hurts@ == spec_scaled_hurts(frame.hurt_boxes, scale)
        }),
{
    let frame_index = match selection.frame_index {
        Some(i) => Some(i),
        None => None,
    };
    project_regions(catalog, &selection.sprite_sheet_id, frame_index, scale, true, true)
}

/// The shared projection: looks the frame up fresh, scales its regions, and
/// applies the two toggles.
fn project_regions(
    catalog: &SpriteSheetsData,
    sheet_id: &Option<Vec<u8>>,
    frame_index: Option<usize>,
    scale: Vec2i,
    show_hits: bool,
    show_hurts: bool,
) -> (r: ProjectedRegions)
    requires
        wf_catalog(catalog@),
        vec2_in_range(scale),
    ensures
        ({
            let id = match *sheet_id {
                Some(ref v) => Some(v@),
                None => None,
            };
            let index = match frame_index {
                Some(i) => Some(i as int),
                None => None,
            };
            let frame = spec_frame_at(catalog@, id, index);
            &&& r.hits@ == if show_hits {
                spec_scaled_hits(frame.hit_boxes, scale)
            } else {
                Seq::<HitBox>::empty()
            }
            &&& r.hurts@ == if show_hurts {
                spec_scaled_hurts(frame.hurt_boxes, scale)
            } else {
                Seq::<HurtBox>::empty()
            }
        }),
{
    let mut r = ProjectedRegions { hits: Vec::new(), hurts: Vec::new() };
    let ghost id_view: Option<Seq<u8>> = match *sheet_id {
        Some(ref v) => Some(v@),
        None => None,
    };
    let ghost index_view: Option<int> = match frame_index {
        Some(i) => Some(i as int),
        None => None,
    };
    let ghost frame = spec_frame_at(catalog@, id_view, index_view);
    let found = match *sheet_id {
        Some(ref id) => catalog.get(id),
        None => None,
    };
    match (found, frame_index) {
        (Some(sheet), Some(index)) => {
            proof {
                lemma_find_index(catalog@, id_view->Some_0);
            }
            if index < sheet.frames.len() {
                proof {
                    assert(sheet@.frames[index as int] == frame);
                    assert(wf_catalog(catalog@));
                    assert(catalog@[spec_find_index(catalog@, id_view->Some_0)] == sheet@);
                    assert(crate::sheets::wf_sheet(sheet@));
                    assert(crate::sheets::wf_frame(frame));
                }
                let frame_data = &sheet.frames[index];
                proof {
                    assert(r.hits@ =~= spec_scaled_hits(frame.hit_boxes, scale).take(0));
                    assert(r.hurts@ =~= spec_scaled_hurts(frame.hurt_boxes, scale).take(0));
                }
                if show_hits {
                    let mut i: usize = 0;
                    while i < frame_data.hit_boxes.len()
                        invariant
                            0 <= i <= frame_data.hit_boxes.len(),
                            frame_data@ == frame,
                            crate::sheets::wf_frame(frame),
                            vec2_in_range(scale),
                            r.hits@ == spec_scaled_hits(frame.hit_boxes, scale).take(i as int),
                            r.hurts@.len() == 0,
                        decreases frame_data.hit_boxes.len() - i,
                    {
                        let b = frame_data.hit_boxes[i];
                        r.hits.push(b.scaled(scale));
                        proof {
                            assert(r.hits@ =~= spec_scaled_hits(frame.hit_boxes, scale).take(
                                i + 1,
                            ));
                        }
                        i = i + 1;
                    }
                }
                proof {
                    if show_hits {
                        assert(r.hits@ =~= spec_scaled_hits(frame.hit_boxes, scale));
                    }
                }
                let ghost hits_done = r.hits@;
                if show_hurts {
                    let mut i: usize = 0;
                    while i < frame_data.hurt_boxes.len()
                        invariant
                            0 <= i <= frame_data.hurt_boxes.len(),
                            frame_data@ == frame,
                            crate::sheets::wf_frame(frame),
                            vec2_in_range(scale),
                            r.hurts@ == spec_scaled_hurts(frame.hurt_boxes, scale).take(i as int),
                            r.hits@ == hits_done,
                        decreases frame_data.hurt_boxes.len() - i,
                    {
                        let b = frame_data.hurt_boxes[i];
                        r.hurts.push(b.scaled(scale));
                        proof {
                            assert(r.hurts@ =~= spec_scaled_hurts(frame.hurt_boxes, scale).take(
                                i + 1,
                            ));
                        }
                        i = i + 1;
                    }
                }
            } else {
                proof {
                    assert(frame == empty_frame());
                }
            }
        },
        _ => {
            proof {
                assert(frame == empty_frame());
            }
        },
    }
    proof {
        let sh = spec_scaled_hits(frame.hit_boxes, scale);
        let su = spec_scaled_hurts(frame.hurt_boxes, scale);
        if show_hits {
            assert(r.hits@ =~= sh);
        } else {
            assert(r.hits@ =~= Seq::<HitBox>::empty());
        }
        if show_hurts {
            assert(r.hurts@ =~= su);
        } else {
            assert(r.hurts@ =~= Seq::<HurtBox>::empty());
        }
    }
    r
}

} // verus!
