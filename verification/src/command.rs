//! Editor commands and the editor mode state machine.

use vstd::prelude::*;

verus! {

/// Commands sent from the view to the editor core.
#[derive(Clone, Copy, PartialEq, Eq, Structural, Debug)]
pub enum CoreCommand {
    Click,
    Exit,
}

/// The editor's input mode.
#[derive(Clone, Copy, PartialEq, Eq, Structural, Debug)]
pub enum ModeType {
    Normal,
    Insert,
    Command,
}

/// The current mode, carried as a component of the editor state.
#[derive(Clone, Copy, PartialEq, Eq, Structural, Debug)]
pub struct Mode(pub ModeType);

impl Default for Mode {
    /// The editor starts in normal mode.
    fn default() -> (m: Mode)
        ensures
            m == Mode(ModeType::Normal),
    {
        Mode(ModeType::Normal)
    }
}

/// Commands sent from the editor core to the view.
#[derive(Clone, Copy, PartialEq, Eq, Structural, Debug)]
pub enum UICommand {
    Mode(Mode),
}

/// A key action that can change the mode.
#[derive(Clone, Copy, PartialEq, Eq, Structural, Debug)]
pub enum ModeAction {
    InsertMode,
    NormalMode,
}

/// The mode after one key action: entering insert mode from normal
/// mode, leaving it back to normal mode, and otherwise staying put.
pub open spec fn spec_next_mode(mode: Mode, action: ModeAction) -> Mode {
    match (mode.0, action) {
        (ModeType::Normal, ModeAction::InsertMode) => Mode(ModeType::Insert),
        (ModeType::Insert, ModeAction::NormalMode) => Mode(ModeType::Normal),
        _ => mode,
    }
}

/// Applies one key action to the mode.
pub fn next_mode(mode: Mode, action: ModeAction) -> (m: Mode)
    ensures
        m == spec_next_mode(mode, action),
{
    match (mode.0, action) {
        (ModeType::Normal, ModeAction::InsertMode) => Mode(ModeType::Insert),
        (ModeType::Insert, ModeAction::NormalMode) => Mode(ModeType::Normal),
        _ => mode,
    }
}

} // verus!
