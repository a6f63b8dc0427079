//! The selection state binding the editing surface to one sheet and frame.
//!
//! A selection never outlives its referent: whenever the catalog is reloaded
//! or a sheet removed, [`SelectedFrame::invalidate_if_missing`] clears a
//! selection whose sheet no longer exists, so the projection layer can never
//! dereference a stale identifier.

use vstd::prelude::*;

use crate::sheets::SpriteSheetsData;
use crate::sheets::clone_bytes;
use crate::sheets::has_id;

verus! {

/// The sheet and frame currently targeted by the author.
///
/// `frame_index` is only meaningful while `sprite_sheet_id` is set; the
/// catalog stays the single source of truth for the frame data itself.
pub struct SelectedFrame {
    pub sprite_sheet_id: Option<Vec<u8>>,
    pub frame_index: Option<usize>,
}

/// The mathematical value of a [`SelectedFrame`].
#[verifier::ext_equal]
pub ghost struct SelectionView {
    pub sprite_sheet_id: Option<Seq<u8>>,
    pub frame_index: Option<usize>,
}

impl View for SelectedFrame {
    type V = SelectionView;

    open spec fn view(&self) -> SelectionView {
        SelectionView {
            sprite_sheet_id: match self.sprite_sheet_id {
                Some(ref id) => Some(id@),
                None => None,
            },
            frame_index: self.frame_index,
        }
    }
}

impl Default for SelectedFrame {
    /// At startup nothing is selected.
    fn default() -> (r: Self)
        ensures
            r@.sprite_sheet_id is None,
            r@.frame_index is None,
    {
        SelectedFrame { sprite_sheet_id: None, frame_index: None }
    }
}

impl SelectedFrame {
    /// Selects a sheet and resets the frame choice to the first frame.
    pub fn select_sheet(&mut self, id: Vec<u8>)
        ensures
            final(self)@.sprite_sheet_id == Some(id@),
            final(self)@.frame_index == Some(0usize),
    {
        self.sprite_sheet_id = Some(id);
        self.frame_index = Some(0);
    }

    /// Selects a frame tile of the already selected sheet.  With no sheet
    /// selected this is a no-op: a frame index alone points at nothing.
    pub fn select_frame(&mut self, frame_index: usize)
        ensures
            old(self)@.sprite_sheet_id is Some ==> final(self)@ == (SelectionView {
                frame_index: Some(frame_index),
                ..old(self)@
            }),
            old(self)@.sprite_sheet_id is None ==> final(self)@ == old(self)@,
    {
        if self.sprite_sheet_id.is_some() {
            self.frame_index = Some(frame_index);
        }
    }

    /// Clears the selection if the sheet it points at is no longer in the
    /// catalog.  Called whenever the catalog is reloaded or a sheet removed.
    pub fn invalidate_if_missing(&mut self, catalog: &SpriteSheetsData)
        ensures
            match old(self)@.sprite_sheet_id {
                Some(id) => {
                    if has_id(catalog@, id) {
                        final(self)@ == old(self)@
                    } else {
                        final(self)@.sprite_sheet_id is None && final(self)@.frame_index is None
                    }
                },
                None => final(self)@ == old(self)@,
            },
    {
        let clear = match self.sprite_sheet_id {
            Some(ref id) => catalog.get(id).is_none(),
            None => false,
        };
        if clear {
            self.sprite_sheet_id = None;
            self.frame_index = None;
        }
    }

    /// Whether the selection points exactly at the given sheet and frame,
    /// as the frame list in the inspector highlights it.
    pub fn is_selected(&self, id: &Vec<u8>, frame_index: usize) -> (r: bool)
        ensures
            r == (self@.sprite_sheet_id == Some(id@) && self@.frame_index == Some(frame_index)),
    {
        match self.sprite_sheet_id {
            Some(ref sel) => crate::sheets::bytes_eq(sel, id) && match self.frame_index {
                Some(f) => f == frame_index,
                None => false,
            },
            None => false,
        }
    }
}

/// The sheet and frame that `Game` mode plays back.  At startup no sheet is
/// chosen and the frame index rests at the neutral first tile.
pub struct GameSelectedSpriteSheet {
    pub id: Option<Vec<u8>>,
    pub frame_index: Option<usize>,
}

impl Default for GameSelectedSpriteSheet {
    fn default() -> (r: Self)
        ensures
            r.id is None,
            r.frame_index == Some(0usize),
    {
        GameSelectedSpriteSheet { id: None, frame_index: Some(0) }
    }
}

impl GameSelectedSpriteSheet {
    /// Adopts the author's selection for playback.
    pub fn from_selection(selection: &SelectedFrame) -> (r: GameSelectedSpriteSheet)
        ensures
            match selection@.sprite_sheet_id {
                Some(id) => r.id matches Some(v) && v@ == id,
                None => r.id is None,
            },
            r.frame_index == selection@.frame_index,
    {
        GameSelectedSpriteSheet {
            id: match selection.sprite_sheet_id {
                Some(ref id) => Some(clone_bytes(id)),
                None => None,
            },
            frame_index: selection.frame_index,
        }
    }
}

} // verus!
