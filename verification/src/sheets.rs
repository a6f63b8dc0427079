//! Frames, sheet metadata, and the catalog that owns every sheet.
//!
//! A frame is identified by its position within a sheet's frame list and
//! carries its own hit and hurt regions.  A sheet pairs an image reference and
//! tile-grid geometry with its frame list.  The catalog maps sheet identifiers
//! to sheets and is the sole authoritative in-memory copy: every edit lands
//! here, so a snapshot taken for persistence can never lose a prior write.
//!
//! Sheet identifiers and image paths are kept as byte strings, which is what
//! the persisted encoding stores.

use vstd::prelude::*;

use crate::geometry::HitBox;
use crate::geometry::HurtBox;
use crate::geometry::rect_in_range;

verus! {

/// One addressable tile of a sheet: its hit and hurt regions, in authoring
/// order.
pub struct FrameData {
    pub hit_boxes: Vec<HitBox>,
    pub hurt_boxes: Vec<HurtBox>,
}

/// The mathematical value of a [`FrameData`].
#[verifier::ext_equal]
pub ghost struct FrameView {
    pub hit_boxes: Seq<HitBox>,
    pub hurt_boxes: Seq<HurtBox>,
}

impl View for FrameData {
    type V = FrameView;

    open spec fn view(&self) -> FrameView {
        FrameView { hit_boxes: self.hit_boxes@, hurt_boxes: self.hurt_boxes@ }
    }
}

/// One sprite sheet: a unique identifier, the image it tiles, the tile-grid
/// geometry, and one [`FrameData`] per declared frame.
pub struct SpriteSheetInfo {
    pub id: Vec<u8>,
    pub image_path: Vec<u8>,
    pub sprite_sheet_width: u64,
    pub sprite_sheet_height: u64,
    pub tile_width: u64,
    pub tile_height: u64,
    pub columns: u64,
    pub rows: u64,
    pub frames: Vec<FrameData>,
}

/// The mathematical value of a [`SpriteSheetInfo`].
#[verifier::ext_equal]
pub ghost struct SheetView {
    pub id: Seq<u8>,
    pub image_path: Seq<u8>,
    pub sprite_sheet_width: u64,
    pub sprite_sheet_height: u64,
    pub tile_width: u64,
    pub tile_height: u64,
    pub columns: u64,
    pub rows: u64,
    pub frames: Seq<FrameView>,
}

/// The views of a list of frames, in order.
pub open spec fn frame_views(s: Seq<FrameData>) -> Seq<FrameView> {
    s.map_values(|f: FrameData| f@)
}

/// The views of a list of sheets, in order.
pub open spec fn sheet_views(s: Seq<SpriteSheetInfo>) -> Seq<SheetView> {
    s.map_values(|s: SpriteSheetInfo| s@)
}

impl View for SpriteSheetInfo {
    type V = SheetView;

    open spec fn view(&self) -> SheetView {
        SheetView {
            id: self.id@,
            image_path: self.image_path@,
            sprite_sheet_width: self.sprite_sheet_width,
            sprite_sheet_height: self.sprite_sheet_height,
            tile_width: self.tile_width,
            tile_height: self.tile_height,
            columns: self.columns,
            rows: self.rows,
            frames: frame_views(self.frames@),
        }
    }
}

/// The catalog of all loaded sheets, keyed by sheet identifier.
///
/// The sheet list is a map in disguise: no two entries share an identifier
/// (see [`ids_unique`]), and every operation that answers by identifier
/// answers for the first — hence only — entry carrying it.
pub struct SpriteSheetsData {
    pub sheets: Vec<SpriteSheetInfo>,
}

impl View for SpriteSheetsData {
    type V = Seq<SheetView>;

    open spec fn view(&self) -> Seq<SheetView> {
        sheet_views(self.sheets@)
    }
}

/// An operation referenced a sheet or frame that the catalog does not hold.
/// Always recoverable: the operation has made no change.
#[derive(Clone, Copy, Debug, PartialEq, Eq, Structural)]
pub enum CatalogError {
    NotFound,
}

/// Whether every region of the frame has its extent and offset within
/// [`crate::geometry::COORD_LIMIT`].
pub open spec fn wf_frame(f: FrameView) -> bool {
    &&& forall|i: int|
        0 <= i < f.hit_boxes.len() ==> rect_in_range(
            (#[trigger] f.hit_boxes[i]).size,
            f.hit_boxes[i].offset,
        )
    &&& forall|i: int|
        0 <= i < f.hurt_boxes.len() ==> rect_in_range(
            (#[trigger] f.hurt_boxes[i]).size,
            f.hurt_boxes[i].offset,
        )
}

/// Whether every frame of the sheet is well-formed.
pub open spec fn wf_sheet(s: SheetView) -> bool {
    forall|i: int| 0 <= i < s.frames.len() ==> wf_frame(#[trigger] s.frames[i])
}

/// Whether every sheet of the catalog is well-formed.
pub open spec fn wf_catalog(c: Seq<SheetView>) -> bool {
    forall|i: int| 0 <= i < c.len() ==> wf_sheet(#[trigger] c[i])
}

/// Whether no two sheets of the catalog share an identifier.
pub open spec fn ids_unique(c: Seq<SheetView>) -> bool {
    forall|i: int, j: int| 0 <= i < j < c.len() ==> (#[trigger] c[i]).id != (#[trigger] c[j]).id
}

/// The position of the first sheet with identifier `id`, or `-1` if none
/// holds it.
pub open spec fn spec_find_index(c: Seq<SheetView>, id: Seq<u8>) -> int
    decreases c.len(),
{
    if c.len() == 0 {
        -1
    } else if c[0].id == id {
        0
    } else {
        let r = spec_find_index(c.skip(1), id);
        if r < 0 {
            -1
        } else {
            1 + r
        }
    }
}

/// Whether some sheet of the catalog carries identifier `id`.
pub open spec fn has_id(c: Seq<SheetView>, id: Seq<u8>) -> bool {
    spec_find_index(c, id) >= 0
}

/// What `spec_find_index` answers is the first matching position.
pub proof fn lemma_find_index(c: Seq<SheetView>, id: Seq<u8>)
    ensures
        spec_find_index(c, id) < 0 ==> forall|k: int| 0 <= k < c.len() ==> (#[trigger] c[k]).id != id,
        spec_find_index(c, id) >= 0 ==> {
            let r = spec_find_index(c, id);
            &&& r < c.len()
            &&& c[r].id == id
            &&& forall|k: int| 0 <= k < r ==> (#[trigger] c[k]).id != id
        },
    decreases c.len(),
{
    if c.len() != 0 && c[0].id != id {
        lemma_find_index(c.skip(1), id);
        let r = spec_find_index(c, id);
        let rs = spec_find_index(c.skip(1), id);
        if rs < 0 {
            assert forall|k: int| 0 <= k < c.len() implies (#[trigger] c[k]).id != id by {
                if k > 0 {
                    assert(c.skip(1)[k - 1] == c[k]);
                }
            }
        } else {
            assert(c.skip(1)[rs] == c[rs + 1]);
            assert forall|k: int| 0 <= k < r implies (#[trigger] c[k]).id != id by {
                if k > 0 {
                    assert(c.skip(1)[k - 1] == c[k]);
                }
            }
        }
    }
}

/// The first matching position only depends on which entries match.
pub proof fn lemma_find_index_first(c: Seq<SheetView>, id: Seq<u8>, i: int)
    requires
        0 <= i < c.len(),
        c[i].id == id,
        forall|k: int| 0 <= k < i ==> (#[trigger] c[k]).id != id,
    ensures
        spec_find_index(c, id) == i,
    decreases c.len(),
{
    if i > 0 {
        lemma_find_index_first(c.skip(1), id, i - 1);
        assert(c.skip(1)[i - 1] == c[i]);
        assert(forall|k: int| 0 <= k < i - 1 ==> c.skip(1)[k] == c[k + 1]);
    }
}

/// Compares two byte strings by content.
pub fn bytes_eq(a: &Vec<u8>, b: &Vec<u8>) -> (r: bool)
    ensures
        r == (a@ == b@),
{
    if a.len() != b.len() {
        return false;
    }
    let mut i: usize = 0;
    while i < a.len()
        invariant
            0 <= i <= a.len(),
            a.len() == b.len(),
            forall|k: int| 0 <= k < i ==> a@[k] == b@[k],
        decreases a.len() - i,
    {
        if a[i] != b[i] {
            return false;
        }
        i = i + 1;
    }
    proof {
        assert(a@ =~= b@);
    }
    true
}

/// Copies a byte string.
pub fn clone_bytes(a: &Vec<u8>) -> (r: Vec<u8>)
    ensures
        r@ == a@,
{
    let mut r: Vec<u8> = Vec::new();
    let mut i: usize = 0;
    while i < a.len()
        invariant
            0 <= i <= a.len(),
            r@ == a@.take(i as int),
        decreases a.len() - i,
    {
        r.push(a[i]);
        proof {
            assert(r@ =~= a@.take(i + 1));
        }
        i = i + 1;
    }
    proof {
        assert(a@.take(a@.len() as int) =~= a@);
    }
    r
}

impl FrameData {
    /// An exact copy of the frame's region lists.
    pub fn deep_clone(&self) -> (r: FrameData)
        ensures
            r@ == self@,
    {
        let mut hit_boxes: Vec<HitBox> = Vec::new();
        let mut i: usize = 0;
        while i < self.hit_boxes.len()
            invariant
                0 <= i <= self.hit_boxes.len(),
                hit_boxes@ == self.hit_boxes@.take(i as int),
            decreases self.hit_boxes.len() - i,
        {
            hit_boxes.push(self.hit_boxes[i]);
            proof {
                assert(hit_boxes@ =~= self.hit_boxes@.take(i + 1));
            }
            i = i + 1;
        }
        let mut hurt_boxes: Vec<HurtBox> = Vec::new();
        let mut j: usize = 0;
        while j < self.hurt_boxes.len()
            invariant
                0 <= j <= self.hurt_boxes.len(),
                hurt_boxes@ == self.hurt_boxes@.take(j as int),
            decreases self.hurt_boxes.len() - j,
        {
            hurt_boxes.push(self.hurt_boxes[j]);
            proof {
                assert(hurt_boxes@ =~= self.hurt_boxes@.take(j + 1));
            }
            j = j + 1;
        }
        proof {
            assert(self.hit_boxes@.take(self.hit_boxes@.len() as int) =~= self.hit_boxes@);
            assert(self.hurt_boxes@.take(self.hurt_boxes@.len() as int) =~= self.hurt_boxes@);
        }
        FrameData { hit_boxes, hurt_boxes }
    }
}

impl SpriteSheetInfo {
    /// An exact copy of the sheet, frames included.
    pub fn deep_clone(&self) -> (r: SpriteSheetInfo)
        ensures
            r@ == self@,
    {
        let mut frames: Vec<FrameData> = Vec::new();
        let mut i: usize = 0;
        while i < self.frames.len()
            invariant
                0 <= i <= self.frames.len(),
                frames@.len() == i,
                frame_views(frames@) == frame_views(self.frames@).take(i as int),
            decreases self.frames.len() - i,
        {
            let ghost pre = frames@;
            frames.push(self.frames[i].deep_clone());
            proof {
                assert forall|k: int| 0 <= k < frames@.len() implies frame_views(frames@)[k]
                    == frame_views(self.frames@).take(i + 1)[k] by {
                    assert(frame_views(frames@)[k] == frames@[k]@);
                    assert(frame_views(self.frames@)[k] == self.frames@[k]@);
                    if k < i {
                        assert(frame_views(pre)[k] == pre[k]@);
                    }
                }
                assert(frame_views(frames@) =~= frame_views(self.frames@).take(i + 1));
            }
            i = i + 1;
        }
        let r = SpriteSheetInfo {
            id: clone_bytes(&self.id),
            image_path: clone_bytes(&self.image_path),
            sprite_sheet_width: self.sprite_sheet_width,
            sprite_sheet_height: self.sprite_sheet_height,
            tile_width: self.tile_width,
            tile_height: self.tile_height,
            columns: self.columns,
            rows: self.rows,
            frames,
        };
        proof {
            let m = frame_views(self.frames@);
            assert(m.take(m.len() as int) =~= m);
            assert(r@ =~= self@);
        }
        r
    }
}

impl SpriteSheetsData {
    /// An empty catalog.
    pub fn new() -> (r: SpriteSheetsData)
        ensures
            r@ == Seq::<SheetView>::empty(),
            ids_unique(r@),
    {
        let r = SpriteSheetsData { sheets: Vec::new() };
        proof {
            assert(r@ =~= Seq::<SheetView>::empty());
        }
        r
    }

    /// The position of the first sheet carrying `id`, if any.
    pub fn find_index(&self, id: &Vec<u8>) -> (r: Option<usize>)
        ensures
            match r {
                Some(i) => i < self.sheets@.len() && spec_find_index(self@, id@) == i,
                None => spec_find_index(self@, id@) < 0,
            },
    {
        let mut i: usize = 0;
        while i < self.sheets.len()
            invariant
                0 <= i <= self.sheets.len(),
                forall|k: int| 0 <= k < i ==> (#[trigger] self@[k]).id != id@,
                self@.len() == self.sheets@.len(),
            decreases self.sheets.len() - i,
        {
            if bytes_eq(&self.sheets[i].id, id) {
                proof {
                    assert(self@[i as int].id == id@);
                    lemma_find_index_first(self@, id@, i as int);
                }
                return Some(i);
            }
            i = i + 1;
        }
        proof {
            lemma_find_index(self@, id@);
        }
        None
    }

    /// Looks a sheet up by identifier.  Absence is not an error: it only
    /// signals that the sheet is not loaded.
    pub fn get(&self, id: &Vec<u8>) -> (r: Option<&SpriteSheetInfo>)
        ensures
            match r {
                Some(s) => has_id(self@, id@) && s@ == self@[spec_find_index(self@, id@)],
                None => !has_id(self@, id@),
            },
    {
        match self.find_index(id) {
            Some(i) => Some(&self.sheets[i]),
            None => None,
        }
    }

    /// Inserts the sheet, or fully replaces the sheet already carrying the
    /// same identifier.  Uniqueness of identifiers is preserved.
    pub fn upsert(&mut self, info: SpriteSheetInfo)
        ensures
            has_id(old(self)@, info@.id) ==> final(self)@ == old(self)@.update(
                spec_find_index(old(self)@, info@.id),
                info@,
            ),
            !has_id(old(self)@, info@.id) ==> final(self)@ == old(self)@.push(info@),
            ids_unique(old(self)@) ==> ids_unique(final(self)@),
            wf_catalog(old(self)@) && wf_sheet(info@) ==> wf_catalog(final(self)@),
    {
        proof {
            lemma_find_index(self@, info@.id);
        }
        let ghost pre = self@;
        match self.find_index(&info.id) {
            Some(i) => {
                self.sheets[i] = info;
                proof {
                    assert(self@ =~= pre.update(i as int, info@));
                    if ids_unique(pre) {
                        assert forall|x: int, y: int| 0 <= x < y < self@.len() implies (
                        #[trigger] self@[x]).id != (#[trigger] self@[y]).id by {
                            lemma_find_index(pre, info@.id);
                            assert(pre[i as int].id == info@.id);
                        }
                    }
                }
            },
            None => {
                self.sheets.push(info);
                proof {
                    assert(self@ =~= pre.push(info@));
                    lemma_find_index(pre, info@.id);
                    if ids_unique(pre) {
                        assert forall|x: int, y: int| 0 <= x < y < self@.len() implies (
                        #[trigger] self@[x]).id != (#[trigger] self@[y]).id by {
                            if y == pre.len() {
                                assert(self@[y] == info@);
                                assert(pre[x].id != info@.id);
                            }
                        }
                    }
                }
            },
        }
    }

    /// Replaces one frame's region lists in place.  Fails with `NotFound`,
    /// changing nothing, if the identifier is absent or the frame index is out
    /// of bounds.
    pub fn mutate_frame(&mut self, id: &Vec<u8>, frame_index: usize, frame: FrameData) -> (r: Result<
        (),
        CatalogError,
    >)
        ensures
            match r {
                Ok(()) => {
                    let i = spec_find_index(old(self)@, id@);
                    &&& has_id(old(self)@, id@)
                    &&& frame_index < old(self)@[i].frames.len()
                    &&& final(self)@ == old(self)@.update(
                        i,
                        SheetView { frames: old(self)@[i].frames.update(frame_index as int, frame@), ..old(self)@[i] },
                    )
                },
                Err(CatalogError::NotFound) => {
                    &&& final(self)@ == old(self)@
                    &&& (!has_id(old(self)@, id@) || frame_index >= old(self)@[spec_find_index(
                        old(self)@,
                        id@,
                    )].frames.len())
                },
            },
            ids_unique(old(self)@) ==> ids_unique(final(self)@),
            wf_catalog(old(self)@) && wf_frame(frame@) ==> wf_catalog(final(self)@),
    {
        let ghost pre = self@;
        match self.find_index(id) {
            Some(i) => {
                if frame_index >= self.sheets[i].frames.len() {
                    return Err(CatalogError::NotFound);
                }
                self.sheets[i].frames[frame_index] = frame;
                proof {
                    let target = SheetView {
                        frames: pre[i as int].frames.update(frame_index as int, frame@),
                        ..pre[i as int]
                    };
                    assert(self.sheets@[i as int]@.frames =~= target.frames);
                    assert(self.sheets@[i as int]@ =~= target);
                    assert(self@ =~= pre.update(i as int, target));
                    if ids_unique(pre) {
                        assert forall|x: int, y: int| 0 <= x < y < self@.len() implies (
                        #[trigger] self@[x]).id != (#[trigger] self@[y]).id by {}
                    }
                }
                Ok(())
            },
            None => Err(CatalogError::NotFound),
        }
    }

    /// A deep copy of every sheet, in catalog order, for the persistence
    /// layer.  It reflects every prior `upsert` and frame edit, because the
    /// catalog itself is the only mutable copy of the data.
    pub fn snapshot(&self) -> (r: Vec<SpriteSheetInfo>)
        ensures
            r@.map_values(|s: SpriteSheetInfo| s@) == self@,
    {
        let mut r: Vec<SpriteSheetInfo> = Vec::new();
        let mut i: usize = 0;
        while i < self.sheets.len()
            invariant
                0 <= i <= self.sheets.len(),
                r@.len() == i,
                sheet_views(r@) == self@.take(i as int),
                self@.len() == self.sheets@.len(),
            decreases self.sheets.len() - i,
        {
            let ghost pre = r@;
            r.push(self.sheets[i].deep_clone());
            proof {
                assert forall|k: int| 0 <= k < r@.len() implies sheet_views(r@)[k] == self@.take(
                    i + 1,
                )[k] by {
                    assert(sheet_views(r@)[k] == r@[k]@);
                    assert(self@[k] == self.sheets@[k]@);
                    if k < i {
                        assert(sheet_views(pre)[k] == pre[k]@);
                    }
                }
                assert(sheet_views(r@) =~= self@.take(i + 1));
            }
            i = i + 1;
        }
        proof {
            assert(self@.take(self@.len() as int) =~= self@);
        }
        r
    }

    /// Whether every region of every frame stays within the coordinate
    /// bound, decided executably.
    pub fn geometry_in_range(&self) -> (r: bool)
        ensures
            r == wf_catalog(self@),
    {
        let mut i: usize = 0;
        while i < self.sheets.len()
            invariant
                0 <= i <= self.sheets.len(),
                self@.len() == self.sheets@.len(),
                forall|x: int| 0 <= x < i ==> wf_sheet(#[trigger] self@[x]),
            decreases self.sheets.len() - i,
        {
            let sheet = &self.sheets[i];
            let mut j: usize = 0;
            while j < sheet.frames.len()
                invariant
                    0 <= j <= sheet.frames.len(),
                    sheet@ == self@[i as int],
                    0 <= i < self@.len(),
                    forall|y: int| 0 <= y < j ==> wf_frame(#[trigger] sheet@.frames[y]),
                decreases sheet.frames.len() - j,
            {
                let frame = &sheet.frames[j];
                let mut a: usize = 0;
                while a < frame.hit_boxes.len()
                    invariant
                        0 <= a <= frame.hit_boxes.len(),
                        frame@ == sheet@.frames[j as int],
                        0 <= j < sheet@.frames.len(),
                        sheet@ == self@[i as int],
                        0 <= i < self@.len(),
                        forall|z: int|
                            0 <= z < a ==> rect_in_range(
                                (#[trigger] frame@.hit_boxes[z]).size,
                                frame@.hit_boxes[z].offset,
                            ),
                    decreases frame.hit_boxes.len() - a,
                {
                    let b = frame.hit_boxes[a];
                    if !(-crate::geometry::COORD_LIMIT <= b.size.x && b.size.x
                        <= crate::geometry::COORD_LIMIT && -crate::geometry::COORD_LIMIT <= b.size.y
                        && b.size.y <= crate::geometry::COORD_LIMIT
                        && -crate::geometry::COORD_LIMIT <= b.offset.x && b.offset.x
                        <= crate::geometry::COORD_LIMIT && -crate::geometry::COORD_LIMIT
                        <= b.offset.y && b.offset.y <= crate::geometry::COORD_LIMIT) {
                        proof {
                            assert(frame@.hit_boxes[a as int] == b);
                            assert(!rect_in_range(b.size, b.offset));
                            assert(!wf_frame(self@[i as int].frames[j as int]));
                            assert(!wf_sheet(self@[i as int]));
                        }
                        return false;
                    }
                    a = a + 1;
                }
                let mut c: usize = 0;
                while c < frame.hurt_boxes.len()
                    invariant
                        0 <= c <= frame.hurt_boxes.len(),
                        frame@ == sheet@.frames[j as int],
                        0 <= j < sheet@.frames.len(),
                        sheet@ == self@[i as int],
                        0 <= i < self@.len(),
                        forall|z: int|
                            0 <= z < c ==> rect_in_range(
                                (#[trigger] frame@.hurt_boxes[z]).size,
                                frame@.hurt_boxes[z].offset,
                            ),
                    decreases frame.hurt_boxes.len() - c,
                {
                    let b = frame.hurt_boxes[c];
                    if !(-crate::geometry::COORD_LIMIT <= b.size.x && b.size.x
                        <= crate::geometry::COORD_LIMIT && -crate::geometry::COORD_LIMIT <= b.size.y
                        && b.size.y <= crate::geometry::COORD_LIMIT
                        && -crate::geometry::COORD_LIMIT <= b.offset.x && b.offset.x
                        <= crate::geometry::COORD_LIMIT && -crate::geometry::COORD_LIMIT
                        <= b.offset.y && b.offset.y <= crate::geometry::COORD_LIMIT) {
                        proof {
                            assert(frame@.hurt_boxes[c as int] == b);
                            assert(!rect_in_range(b.size, b.offset));
                            assert(!wf_frame(self@[i as int].frames[j as int]));
                            assert(!wf_sheet(self@[i as int]));
                        }
                        return false;
                    }
                    c = c + 1;
                }
                j = j + 1;
            }
            i = i + 1;
        }
        true
    }

    /// Whether no two sheets share an identifier, decided executably.
    pub fn check_ids_unique(&self) -> (r: bool)
        ensures
            r == ids_unique(self@),
    {
        let mut i: usize = 0;
        while i < self.sheets.len()
            invariant
                0 <= i <= self.sheets.len(),
                self@.len() == self.sheets@.len(),
                forall|x: int, y: int| 0 <= x < y < i ==> (#[trigger] self@[x]).id != (#[trigger] self@[y]).id,
            decreases self.sheets.len() - i,
        {
            let mut j: usize = 0;
            while j < i
                invariant
                    0 <= j <= i < self.sheets.len(),
                    self@.len() == self.sheets@.len(),
                    forall|x: int| 0 <= x < j ==> (#[trigger] self@[x]).id != self@[i as int].id,
                decreases i - j,
            {
                if bytes_eq(&self.sheets[j].id, &self.sheets[i].id) {
                    proof {
                        assert(self@[j as int].id == self@[i as int].id);
                        assert(0 <= j < i < self@.len());
                    }
                    return false;
                }
                j = j + 1;
            }
            i = i + 1;
        }
        true
    }
}

} // verus!
