//! Navigation intents and how a session applies them to a tree.
use vstd::prelude::*;
use crate::flat_tree::{clamped_move, key_at, selected_index, Tree};

verus! {

/// What the user asked for.
#[derive(Debug, Clone, PartialEq, Eq)]
pub enum Action {
    /// Move the selection by this many lines.
    MoveSelection(i32),
    /// Jump to the line with this key.
    Select(String),
    /// End the session.
    Quit,
    /// Nothing to do yet.
    Unparsed,
}

/// A keypress, as far as navigation cares.
#[derive(Debug, Clone, Copy, PartialEq, Eq)]
pub enum Keypress {
    Char(char),
    Up,
    Down,
    Backspace,
    Escape,
    Other,
}

/// The typed input so far and the intent it stands for.
#[derive(Debug, Clone)]
pub struct Command {
    pub raw: String,
    pub action: Action,
}

/// Relies on `String::push`: appends the char to the end of the string.
#[verifier::external_body]
fn push_char(s: &mut String, c: char)
    ensures
        final(s)@ == old(s)@.push(c),
{
    s.push(c)
}

/// The input after typing `c` over `raw`: a char typed after a move starts a
/// new key, since `raw` then holds the key that the move reached.
pub open spec fn typed(raw: Seq<char>, action: Action, c: char) -> Seq<char> {
    if action is MoveSelection {
        seq![c]
    } else {
        raw.push(c)
    }
}

/// The input after a backspace over `raw`.
pub open spec fn erased(raw: Seq<char>) -> Seq<char> {
    if raw.len() == 0 {
        raw
    } else {
        raw.drop_last()
    }
}

impl Command {
    pub fn new() -> (c: Command)
        ensures
            c.raw@ == Seq::<char>::empty(),
            c.action == Action::Unparsed,
    {
        Command { raw: String::new(), action: Action::Unparsed }
    }

    /// Updates the input and the intent for one keypress: a char extends the
    /// key to select, backspace shortens it, up and down move by one line,
    /// escape quits, and any other key changes nothing.
    pub fn add_key(&mut self, key: Keypress)
        ensures
            match key {
                Keypress::Char(c) => {
                    &&& final(self).raw@ == typed(old(self).raw@, old(self).action, c)
                    &&& final(self).action is Select
                    &&& final(self).action->Select_0@ == final(self).raw@
                },
                Keypress::Backspace => {
                    &&& final(self).raw@ == erased(old(self).raw@)
                    &&& if final(self).raw@.len() == 0 {
                        final(self).action == Action::Unparsed
                    } else {
                        &&& final(self).action is Select
                        &&& final(self).action->Select_0@ == final(self).raw@
                    }
                },
                Keypress::Up => final(self).raw@ == old(self).raw@ && final(self).action
                    == Action::MoveSelection(-1i32),
                Keypress::Down => final(self).raw@ == old(self).raw@ && final(self).action
                    == Action::MoveSelection(1i32),
                Keypress::Escape => final(self).raw@ == old(self).raw@ && final(self).action
                    == Action::Quit,
                Keypress::Other => final(self).raw@ == old(self).raw@ && final(self).action
                    == old(self).action,
            },
    {
        match key {
            Keypress::Char(c) => {
                if let Action::MoveSelection(_) = self.action {
                    self.raw = String::new();
                }
                push_char(&mut self.raw, c);
                self.action = Action::Select(self.raw.clone());
            },
            Keypress::Backspace => {
                let n = self.raw.as_str().unicode_len();
                if n > 0 {
                    let kept = self.raw.as_str().substring_char(0, n - 1).to_owned();
                    assert(kept@ =~= erased(self.raw@));
                    self.raw = kept;
                }
                if self.raw.as_str().unicode_len() == 0 {
                    self.action = Action::Unparsed;
                } else {
                    self.action = Action::Select(self.raw.clone());
                }
            },
            Keypress::Up => {
                self.action = Action::MoveSelection(-1);
            },
            Keypress::Down => {
                self.action = Action::MoveSelection(1);
            },
            Keypress::Escape => {
                self.action = Action::Quit;
            },
            Keypress::Other => {},
        }
    }
}

/// Applies the command's intent to the tree and returns whether the session
/// goes on. A move also writes the key it reached into the command's input; a
/// lookup of an unknown key leaves the first line selected.
pub fn apply(cmd: &mut Command, tree: &mut Tree) -> (go_on: bool)
    requires
        old(tree).wf(),
    ensures
        final(tree).wf(),
        final(tree).lines@ == old(tree).lines@,
        final(cmd).action == old(cmd).action,
        go_on == !(old(cmd).action is Quit),
        match old(cmd).action {
            Action::MoveSelection(dy) => {
                &&& final(tree).selection as int == clamped_move(
                    old(tree).selection as int,
                    dy as int,
                    old(tree).lines.len() as int,
                )
                &&& final(cmd).raw@ == key_at(final(tree).lines@, final(tree).selection as int)
            },
            Action::Select(k) => {
                &&& final(tree).selection as int == selected_index(old(tree).lines@, k@)
                &&& final(cmd).raw@ == old(cmd).raw@
            },
            _ => final(tree).selection == old(tree).selection && final(cmd).raw@ == old(cmd).raw@,
        },
{
    match &cmd.action {
        Action::MoveSelection(dy) => {
            tree.move_selection(*dy);
            cmd.raw = tree.key();
        },
        Action::Select(key) => {
            tree.try_select(key.as_str());
        },
        Action::Quit => {
            return false;
        },
        Action::Unparsed => {},
    }
    true
}

} // verus!
