//! The editor shell: the Normal/Insert mode state machine.
//!
//! Key events arrive decoded from the input source. Per event the editor
//! decides whether to move the cursor, hand a character to the buffer as
//! an edit, toggle the mode, or quit; performing the action is the
//! surroundings' task.

use crate::buffer::Motions;
use vstd::prelude::*;

verus! {

/// The two editing modes.
#[derive(Clone, Copy, PartialEq, Eq, Debug)]
pub enum EditorModes {
    Normal,
    Insert,
}

/// A decoded key event, as the input source hands it over.
#[derive(Clone, Copy, PartialEq, Eq, Debug)]
pub enum KeyEvent {
    Up,
    Down,
    Left,
    Right,
    Escape,
    CtrlQuit,
    Char(char),
}

/// What the shell asks its surroundings to do for one key event.
#[derive(Clone, Copy, PartialEq, Eq, Debug)]
pub enum EditorAction {
    /// Stop the editor.
    Quit,
    /// Move the cursor.
    Move(Motions),
    /// Hand the character to the buffer as an edit.
    Edit(char),
    /// Insert mode was entered: show the insert-mode cursor.
    SetInsert,
    /// Normal mode was entered: show the normal-mode cursor.
    SetNormal,
    /// Nothing to do.
    Idle,
}

/// The action one key event yields in the given mode: arrows always move;
/// in Normal mode `i` enters Insert and `h j k l` move; in Insert mode a
/// character is an edit; Escape returns to Normal.
pub open spec fn key_action(mode: EditorModes, key: KeyEvent) -> EditorAction {
    match key {
        KeyEvent::CtrlQuit => EditorAction::Quit,
        KeyEvent::Up => EditorAction::Move(Motions::Up),
        KeyEvent::Down => EditorAction::Move(Motions::Down),
        KeyEvent::Left => EditorAction::Move(Motions::Left),
        KeyEvent::Right => EditorAction::Move(Motions::Right),
        KeyEvent::Escape => EditorAction::SetNormal,
        KeyEvent::Char(c) => match mode {
            EditorModes::Insert => EditorAction::Edit(c),
            EditorModes::Normal => if c == 'i' {
                EditorAction::SetInsert
            } else if c == 'h' {
                EditorAction::Move(Motions::Left)
            } else if c == 'l' {
                EditorAction::Move(Motions::Right)
            } else if c == 'k' {
                EditorAction::Move(Motions::Up)
            } else if c == 'j' {
                EditorAction::Move(Motions::Down)
            } else {
                EditorAction::Idle
            },
        },
    }
}

/// The mode after one key event: Escape leaves Insert, `i` in Normal
/// enters it, nothing else changes it.
pub open spec fn next_mode(mode: EditorModes, key: KeyEvent) -> EditorModes {
    match key {
        KeyEvent::Escape => EditorModes::Normal,
        KeyEvent::Char(c) => if mode is Normal && c == 'i' {
            EditorModes::Insert
        } else {
            mode
        },
        _ => mode,
    }
}

pub struct Editor {
    pub mode: EditorModes,
}

impl Editor {
    /// An editor starting in Normal mode.
    pub fn new() -> (r: Editor)
        ensures
            r.mode is Normal,
    {
        Editor { mode: EditorModes::Normal }
    }

    /// Process one key event: apply the mode transition and return the
    /// action the surroundings must perform.
    pub fn handle_key(&mut self, key: KeyEvent) -> (r: EditorAction)
        ensures
            final(self).mode == next_mode(old(self).mode, key),
            r == key_action(old(self).mode, key),
    {
        match key {
            KeyEvent::CtrlQuit => EditorAction::Quit,
            KeyEvent::Up => EditorAction::Move(Motions::Up),
            KeyEvent::Down => EditorAction::Move(Motions::Down),
            KeyEvent::Left => EditorAction::Move(Motions::Left),
            KeyEvent::Right => EditorAction::Move(Motions::Right),
            KeyEvent::Escape => {
                self.mode = EditorModes::Normal;
                EditorAction::SetNormal
            },
            KeyEvent::Char(c) => {
                match self.mode {
                    EditorModes::Insert => EditorAction::Edit(c),
                    EditorModes::Normal => {
                        if c == 'i' {
                            self.mode = EditorModes::Insert;
                            EditorAction::SetInsert
                        } else if c == 'h' {
                            EditorAction::Move(Motions::Left)
                        } else if c == 'l' {
                            EditorAction::Move(Motions::Right)
                        } else if c == 'k' {
                            EditorAction::Move(Motions::Up)
                        } else if c == 'j' {
                            EditorAction::Move(Motions::Down)
                        } else {
                            EditorAction::Idle
                        }
                    },
                }
            },
        }
    }
}

} // verus!
