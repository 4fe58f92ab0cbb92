//! The key-driven state machine of a session: each key press moves the
//! cursor, flips an entry, or ends the session with or without a save.
use vstd::prelude::*;

use crate::catalog::{Catalog, CatalogView, Target};

verus! {

/// A key, as far as the session tells keys apart.
#[derive(Clone, Copy, Debug, PartialEq, Eq, Structural)]
pub enum Key {
    Up,
    Down,
    Enter,
    Char(char),
    Other,
}

/// One key event.
#[derive(Clone, Copy, Debug, PartialEq, Eq, Structural)]
pub struct KeyInput {
    pub key: Key,
    /// The control key, and no other modifier, was held.
    pub control_only: bool,
    /// The event is a press, not a release or a repeat.
    pub press: bool,
}

/// What the caller does after a key event.
#[derive(Clone, Copy, Debug, PartialEq, Eq, Structural)]
pub enum Action {
    /// Draw the catalog again.
    Redraw,
    /// Nothing changed: nothing to draw.
    Ignore,
    /// Write the selection record, then end the session.
    Save,
    /// End the session without writing.
    Cancel,
    /// The session was interrupted: end it without writing.
    Quit,
}

/// Space and Enter act on what the cursor stands on.
pub open spec fn activates(k: Key) -> bool {
    k == Key::Enter || k == Key::Char(' ')
}

/// The catalog and the action that follow a key event.
pub open spec fn step(c: CatalogView, input: KeyInput) -> (CatalogView, Action) {
    if !input.press {
        (c, Action::Ignore)
    } else if input.key == Key::Up {
        (c.moved_up(), Action::Redraw)
    } else if input.key == Key::Down {
        (c.moved_down(), Action::Redraw)
    } else if activates(input.key) {
        match c.target() {
            Target::Entry(i) => (c.toggled(i as int), Action::Redraw),
            Target::Save => (c, Action::Save),
            Target::Cancel => (c, Action::Cancel),
        }
    } else if input.key == Key::Char('c') && input.control_only {
        (c, Action::Quit)
    } else {
        (c, Action::Ignore)
    }
}

impl Catalog {
    /// Applies one key event and says what to do next. Only presses count;
    /// a save or a cancel leaves the catalog as it was.
    pub fn handle_key(&mut self, input: KeyInput) -> (r: Action)
        requires
            old(self)@.wf(),
        ensures
            (final(self)@, r) == step(old(self)@, input),
            final(self)@.wf(),
    {
        if !input.press {
            Action::Ignore
        } else if input.key == Key::Up {
            self.move_up();
            Action::Redraw
        } else if input.key == Key::Down {
            self.move_down();
            Action::Redraw
        } else if input.key == Key::Enter || input.key == Key::Char(' ') {
            match self.target() {
                Target::Entry(i) => {
                    self.toggle(i);
                    Action::Redraw
                },
                Target::Save => Action::Save,
                Target::Cancel => Action::Cancel,
            }
        } else if input.key == Key::Char('c') && input.control_only {
            Action::Quit
        } else {
            Action::Ignore
        }
    }
}

/// A session that is cancelled or interrupted, wherever its cursor stands,
/// asks for no write and leaves the selection as it was.
pub proof fn lemma_cancel_writes_nothing(c: CatalogView, input: KeyInput)
    requires
        c.wf(),
        step(c, input).1 == Action::Cancel || step(c, input).1 == Action::Quit,
    ensures
        step(c, input).0 == c,
{
}

} // verus!
