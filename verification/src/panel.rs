//! Which panels the window shows.

use vstd::prelude::*;

verus! {

/// What a panel of the window can show.
#[derive(Clone, Copy, Debug, PartialEq, Eq, Structural)]
pub enum PanelState {
    Reader,
    Config,
    Shelf,
    Info,
    Notes,
}

/// The state of the window as a whole.
#[derive(Clone, Copy, Debug)]
pub struct UIState {
    pub left_panel_state: PanelState,
    pub right_panel_state: PanelState,
    pub reader_focus_mode: bool,
    pub display_ofl_popup: bool,
    pub display_raw_text: bool,
}

impl PanelState {
    /// Whether the left panel can show this: it shows everything but the
    /// reader.
    pub fn fits_left(&self) -> (r: bool)
        ensures
            r == (*self != PanelState::Reader),
    {
        match self {
            PanelState::Reader => false,
            _ => true,
        }
    }
}

impl UIState {
    /// The window as it opens: shelves on the left, the reader on the right,
    /// nothing else shown.
    pub fn new() -> (state: Self)
        ensures
            state.left_panel_state == PanelState::Shelf,
            state.right_panel_state == PanelState::Reader,
            !state.reader_focus_mode,
            !state.display_ofl_popup,
            !state.display_raw_text,
    {
        UIState {
            left_panel_state: PanelState::Shelf,
            right_panel_state: PanelState::Reader,
            reader_focus_mode: false,
            display_ofl_popup: false,
            display_raw_text: false,
        }
    }

    /// Whether the left panel is shown: always, but in focus mode while a
    /// book is open.
    pub fn shows_left_panel(&self, book_open: bool) -> (r: bool)
        ensures
            r == (!self.reader_focus_mode || !book_open),
    {
        !self.reader_focus_mode || !book_open
    }

    /// A note was added from the reader: the left panel turns to the notes.
    pub fn show_notes(&mut self)
        ensures
            *final(self) == (UIState { left_panel_state: PanelState::Notes, ..*old(self) }),
    {
        self.left_panel_state = PanelState::Notes;
    }
}

} // verus!
