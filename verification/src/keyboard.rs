//! Keyboard shortcuts.

use crate::message::{Message, Nav};
use crate::text::str_eq;
use vstd::prelude::*;

verus! {

/// The modifier keys that matter; `command` is Ctrl.
#[derive(Debug, Clone, Copy, PartialEq, Eq, Structural)]
pub struct Modifiers {
    pub shift: bool,
    pub command: bool,
}

impl Default for Modifiers {
    fn default() -> (r: Modifiers)
        ensures
            r == (Modifiers { shift: false, command: false }),
    {
        Modifiers { shift: false, command: false }
    }
}

/// The named keys that matter.
#[derive(Debug, Clone, Copy, PartialEq, Eq, Structural)]
pub enum Named {
    ArrowUp,
    ArrowDown,
    Home,
    End,
    PageUp,
    PageDown,
    Enter,
    Backspace,
    Delete,
    F2,
    F5,
    Escape,
    Tab,
    Other,
}

/// A key.
#[derive(Debug)]
pub enum Key {
    Character(String),
    Named(Named),
}

/// What a letter does with Ctrl held.
pub open spec fn letter_command(s: Seq<char>) -> Option<Message> {
    if s == "c"@ || s == "C"@ {
        Some(Message::Copy)
    } else if s == "x"@ || s == "X"@ {
        Some(Message::Cut)
    } else if s == "v"@ || s == "V"@ {
        Some(Message::Paste)
    } else if s == "a"@ || s == "A"@ {
        Some(Message::SelectAll)
    } else if s == "t"@ || s == "T"@ {
        Some(Message::NewTab)
    } else if s == "w"@ || s == "W"@ {
        Some(Message::CloseActiveTab)
    } else {
        None
    }
}

/// What a named key does. Ctrl and Tab cycle through the tabs; Shift extends a selection,
/// Ctrl moves only the focus.
pub open spec fn named_command(n: Named, m: Modifiers) -> Option<Message> {
    match n {
        Named::ArrowUp => Some(Message::MoveSelection(Nav::Up, m.shift, m.command)),
        Named::ArrowDown => Some(Message::MoveSelection(Nav::Down, m.shift, m.command)),
        Named::Home => Some(Message::MoveSelection(Nav::Home, m.shift, m.command)),
        Named::End => Some(Message::MoveSelection(Nav::End, m.shift, m.command)),
        Named::PageUp => Some(Message::MoveSelection(Nav::PageUp, m.shift, m.command)),
        Named::PageDown => Some(Message::MoveSelection(Nav::PageDown, m.shift, m.command)),
        Named::Enter => Some(Message::Activate),
        Named::Backspace => Some(Message::GoUp),
        Named::Delete => Some(Message::DeleteSelected),
        Named::F2 => Some(Message::RenameStart),
        Named::F5 => Some(Message::Refresh),
        Named::Escape => Some(Message::CloseMenu),
        Named::Tab => if m.command && m.shift {
            Some(Message::PrevTab)
        } else if m.command {
            Some(Message::NextTab)
        } else {
            None
        },
        Named::Other => None,
    }
}

/// What a key does.
pub open spec fn shortcut(key: Key, m: Modifiers) -> Option<Message> {
    match key {
        Key::Character(s) => if m.command {
            letter_command(s@)
        } else {
            None
        },
        Key::Named(n) => named_command(n, m),
    }
}

fn letter_message(s: &str) -> (r: Option<Message>)
    ensures
        r == letter_command(s@),
{
    if str_eq(s, "c") || str_eq(s, "C") {
        Some(Message::Copy)
    } else if str_eq(s, "x") || str_eq(s, "X") {
        Some(Message::Cut)
    } else if str_eq(s, "v") || str_eq(s, "V") {
        Some(Message::Paste)
    } else if str_eq(s, "a") || str_eq(s, "A") {
        Some(Message::SelectAll)
    } else if str_eq(s, "t") || str_eq(s, "T") {
        Some(Message::NewTab)
    } else if str_eq(s, "w") || str_eq(s, "W") {
        Some(Message::CloseActiveTab)
    } else {
        None
    }
}

/// The command that a key press stands for, if it stands for one.
pub fn key_to_message(key: &Key, modifiers: Modifiers) -> (r: Option<Message>)
    ensures
        r == shortcut(*key, modifiers),
{
    let ctrl = modifiers.command;
    let shift = modifiers.shift;
    match key {
        Key::Character(s) => {
            if ctrl {
                letter_message(s)
            } else {
                None
            }
        },
        Key::Named(n) => match *n {
            Named::ArrowUp => Some(Message::MoveSelection(Nav::Up, shift, ctrl)),
            Named::ArrowDown => Some(Message::MoveSelection(Nav::Down, shift, ctrl)),
            Named::Home => Some(Message::MoveSelection(Nav::Home, shift, ctrl)),
            Named::End => Some(Message::MoveSelection(Nav::End, shift, ctrl)),
            Named::PageUp => Some(Message::MoveSelection(Nav::PageUp, shift, ctrl)),
            Named::PageDown => Some(Message::MoveSelection(Nav::PageDown, shift, ctrl)),
            Named::Enter => Some(Message::Activate),
            Named::Backspace => Some(Message::GoUp),
            Named::Delete => Some(Message::DeleteSelected),
            Named::F2 => Some(Message::RenameStart),
            Named::F5 => Some(Message::Refresh),
            Named::Escape => Some(Message::CloseMenu),
            Named::Tab => {
                if ctrl && shift {
                    Some(Message::PrevTab)
                } else if ctrl {
                    Some(Message::NextTab)
                } else {
                    None
                }
            },
            Named::Other => None,
        },
    }
}

/// Whether a message is a keyboard command.
pub open spec fn commands(message: Message) -> bool {
    ||| message is Copy
    ||| message is Cut
    ||| message is Paste
    ||| message is SelectAll
    ||| message is MoveSelection
    ||| message is Activate
    ||| message is GoUp
    ||| message is DeleteSelected
    ||| message is RenameStart
    ||| message is Refresh
    ||| message is CloseMenu
    ||| message is NewTab
    ||| message is CloseActiveTab
    ||| message is NextTab
    ||| message is PrevTab
}

/// Whether a message edits a text field.
pub open spec fn edits(message: Message) -> bool {
    ||| message is AddressChanged
    ||| message is AddressSubmit
    ||| message is RenameChanged
    ||| message is RenameCommit
    ||| message is SearchChanged
    ||| message is SearchSubmit
    ||| message is SearchModeChanged
    ||| message is SearchClear
}

/// Whether a message is a keyboard command: exactly what [`key_to_message`] produces.
pub fn is_input_shortcut(message: &Message) -> (r: bool)
    ensures
        r == commands(*message),
{
    matches!(
        message,
        Message::Copy
            | Message::Cut
            | Message::Paste
            | Message::SelectAll
            | Message::MoveSelection(..)
            | Message::Activate
            | Message::GoUp
            | Message::DeleteSelected
            | Message::RenameStart
            | Message::Refresh
            | Message::CloseMenu
            | Message::NewTab
            | Message::CloseActiveTab
            | Message::NextTab
            | Message::PrevTab
    )
}

/// Whether a message edits a text field: the address, the inline rename or the search.
pub fn is_text_edit(message: &Message) -> (r: bool)
    ensures
        r == edits(*message),
{
    matches!(
        message,
        Message::AddressChanged(_)
            | Message::AddressSubmit
            | Message::RenameChanged(_)
            | Message::RenameCommit
            | Message::SearchChanged(_)
            | Message::SearchSubmit
            | Message::SearchModeChanged(_)
            | Message::SearchClear
    )
}

/// Whatever a key press stands for is a keyboard command.
pub proof fn law_every_shortcut_is_a_command(key: Key, m: Modifiers)
    ensures
        shortcut(key, m) matches Some(message) ==> commands(message),
{
}

/// Every keyboard command has a key that stands for it, given a way to spell its letter.
pub proof fn law_every_command_has_a_key(message: Message, spell: spec_fn(char) -> String)
    requires
        commands(message),
        forall|c: char| (#[trigger] spell(c))@ == seq![c],
    ensures
        exists|key: Key, m: Modifiers| #[trigger] shortcut(key, m) == Some(message),
{
    reveal_strlit("c");
    reveal_strlit("C");
    reveal_strlit("x");
    reveal_strlit("X");
    reveal_strlit("v");
    reveal_strlit("V");
    reveal_strlit("a");
    reveal_strlit("A");
    reveal_strlit("t");
    reveal_strlit("T");
    reveal_strlit("w");
    reveal_strlit("W");
    let ctrl = Modifiers { shift: false, command: true };
    let none = Modifiers { shift: false, command: false };
    let (key, m) = match message {
        Message::Copy => (Key::Character(spell('c')), ctrl),
        Message::Cut => (Key::Character(spell('x')), ctrl),
        Message::Paste => (Key::Character(spell('v')), ctrl),
        Message::SelectAll => (Key::Character(spell('a')), ctrl),
        Message::NewTab => (Key::Character(spell('t')), ctrl),
        Message::CloseActiveTab => (Key::Character(spell('w')), ctrl),
        Message::MoveSelection(nav, shift, command) => (
            Key::Named(
                match nav {
                    Nav::Up => Named::ArrowUp,
                    Nav::Down => Named::ArrowDown,
                    Nav::Home => Named::Home,
                    Nav::End => Named::End,
                    Nav::PageUp => Named::PageUp,
                    Nav::PageDown => Named::PageDown,
                },
            ),
            Modifiers { shift, command },
        ),
        Message::Activate => (Key::Named(Named::Enter), none),
        Message::GoUp => (Key::Named(Named::Backspace), none),
        Message::DeleteSelected => (Key::Named(Named::Delete), none),
        Message::RenameStart => (Key::Named(Named::F2), none),
        Message::Refresh => (Key::Named(Named::F5), none),
        Message::CloseMenu => (Key::Named(Named::Escape), none),
        Message::NextTab => (Key::Named(Named::Tab), ctrl),
        _ => (Key::Named(Named::Tab), Modifiers { shift: true, command: true }),
    };
    assert("c"@ =~= seq!['c'] && "C"@ =~= seq!['C']);
    assert("x"@ =~= seq!['x'] && "X"@ =~= seq!['X']);
    assert("v"@ =~= seq!['v'] && "V"@ =~= seq!['V']);
    assert("a"@ =~= seq!['a'] && "A"@ =~= seq!['A']);
    assert("t"@ =~= seq!['t'] && "T"@ =~= seq!['T']);
    assert("w"@ =~= seq!['w'] && "W"@ =~= seq!['W']);
    assert(seq!['c'][0] == 'c' && seq!['x'][0] == 'x' && seq!['v'][0] == 'v');
    assert(seq!['a'][0] == 'a' && seq!['t'][0] == 't' && seq!['w'][0] == 'w');
    assert(seq!['C'][0] == 'C' && seq!['X'][0] == 'X' && seq!['V'][0] == 'V');
    assert(seq!['A'][0] == 'A' && seq!['T'][0] == 'T' && seq!['W'][0] == 'W');
    assert(shortcut(key, m) == Some(message));
}

/// A letter does what it does in either case, and only with Ctrl held.
pub proof fn law_letters_need_ctrl(small: Key, capital: Key, m: Modifiers)
    requires
        small matches Key::Character(s) && capital matches Key::Character(t)
            && crate::text::same_ignoring_case(s@, t@) && s@.len() == 1 && t@.len() == 1,
    ensures
        !m.command ==> shortcut(small, m) is None,
        shortcut(small, m) == shortcut(capital, m),
{
    reveal_strlit("c");
    reveal_strlit("C");
    reveal_strlit("x");
    reveal_strlit("X");
    reveal_strlit("v");
    reveal_strlit("V");
    reveal_strlit("a");
    reveal_strlit("A");
    reveal_strlit("t");
    reveal_strlit("T");
    reveal_strlit("w");
    reveal_strlit("W");
    let s = small->Character_0@;
    let t = capital->Character_0@;
    assert(crate::text::ascii_lower_all(s)[0] == crate::text::ascii_lower(s[0]));
    assert(crate::text::ascii_lower_all(t)[0] == crate::text::ascii_lower(t[0]));
    assert(crate::text::ascii_lower(s[0]) == crate::text::ascii_lower(t[0]));
    lemma_one_letter(s);
    lemma_one_letter(t);
}

/// What a single letter does with Ctrl held goes by its lowercase form.
proof fn lemma_one_letter(s: Seq<char>)
    requires
        s.len() == 1,
    ensures
        letter_command(s) == ({
            let c = crate::text::ascii_lower(s[0]);
            if c == 'c' {
                Some(Message::Copy)
            } else if c == 'x' {
                Some(Message::Cut)
            } else if c == 'v' {
                Some(Message::Paste)
            } else if c == 'a' {
                Some(Message::SelectAll)
            } else if c == 't' {
                Some(Message::NewTab)
            } else if c == 'w' {
                Some(Message::CloseActiveTab)
            } else {
                None
            }
        }),
{
    reveal_strlit("c");
    reveal_strlit("C");
    reveal_strlit("x");
    reveal_strlit("X");
    reveal_strlit("v");
    reveal_strlit("V");
    reveal_strlit("a");
    reveal_strlit("A");
    reveal_strlit("t");
    reveal_strlit("T");
    reveal_strlit("w");
    reveal_strlit("W");
    assert(s =~= seq![s[0]]);
    assert("c"@ =~= seq!['c'] && "C"@ =~= seq!['C']);
    assert("x"@ =~= seq!['x'] && "X"@ =~= seq!['X']);
    assert("v"@ =~= seq!['v'] && "V"@ =~= seq!['V']);
    assert("a"@ =~= seq!['a'] && "A"@ =~= seq!['A']);
    assert("t"@ =~= seq!['t'] && "T"@ =~= seq!['T']);
    assert("w"@ =~= seq!['w'] && "W"@ =~= seq!['W']);
    let c = s[0];
    assert(s == seq!['c'] <==> c == 'c') by {
        assert(seq!['c'][0] == 'c');
    }
    assert(s == seq!['C'] <==> c == 'C') by {
        assert(seq!['C'][0] == 'C');
    }
    assert(s == seq!['x'] <==> c == 'x') by {
        assert(seq!['x'][0] == 'x');
    }
    assert(s == seq!['X'] <==> c == 'X') by {
        assert(seq!['X'][0] == 'X');
    }
    assert(s == seq!['v'] <==> c == 'v') by {
        assert(seq!['v'][0] == 'v');
    }
    assert(s == seq!['V'] <==> c == 'V') by {
        assert(seq!['V'][0] == 'V');
    }
    assert(s == seq!['a'] <==> c == 'a') by {
        assert(seq!['a'][0] == 'a');
    }
    assert(s == seq!['A'] <==> c == 'A') by {
        assert(seq!['A'][0] == 'A');
    }
    assert(s == seq!['t'] <==> c == 't') by {
        assert(seq!['t'][0] == 't');
    }
    assert(s == seq!['T'] <==> c == 'T') by {
        assert(seq!['T'][0] == 'T');
    }
    assert(s == seq!['w'] <==> c == 'w') by {
        assert(seq!['w'][0] == 'w');
    }
    assert(s == seq!['W'] <==> c == 'W') by {
        assert(seq!['W'][0] == 'W');
    }
}

} // verus!
