//! The input/output and status area: its states and how it reacts to
//! key presses and requests to change what it shows.
//!
//! The area does not perform any outside work itself. Its functions
//! decide, and report what is to be done: which widget to focus and which
//! event to send where, and whether the area needs to be redrawn.

use vstd::prelude::*;

use crate::text::byte_len;
use crate::text::char_pos;
use crate::text::is_boundary;
use crate::text::lemma_boundary_le;

verus! {

/// What the input/output area shows.
#[derive(Debug)]
pub enum InOut {
    Saved,
    Search(String),
    Error(String),
    /// Text being entered, with the byte index of the cursor.
    Input(String, usize),
    Clear,
}

/// Whether two states of the area show the same.
pub open spec fn same_in_out(a: InOut, b: InOut) -> bool {
    match (a, b) {
        (InOut::Saved, InOut::Saved) => true,
        (InOut::Search(x), InOut::Search(y)) => x@ == y@,
        (InOut::Error(x), InOut::Error(y)) => x@ == y@,
        (InOut::Input(x, i), InOut::Input(y, j)) => x@ == y@ && i == j,
        (InOut::Clear, InOut::Clear) => true,
        _ => false,
    }
}

impl Clone for InOut {
    fn clone(&self) -> (res: InOut)
        ensures
            same_in_out(res, *self),
    {
        match self {
            InOut::Saved => InOut::Saved,
            InOut::Search(s) => InOut::Search(s.clone()),
            InOut::Error(s) => InOut::Error(s.clone()),
            InOut::Input(s, i) => InOut::Input(s.clone(), *i),
            InOut::Clear => InOut::Clear,
        }
    }
}

impl PartialEq for InOut {
    fn eq(&self, other: &InOut) -> (res: bool) {
        match (self, other) {
            (InOut::Saved, InOut::Saved) => true,
            (InOut::Search(x), InOut::Search(y)) => *x == *y,
            (InOut::Error(x), InOut::Error(y)) => *x == *y,
            (InOut::Input(x, i), InOut::Input(y, j)) => *x == *y && *i == *j,
            (InOut::Clear, InOut::Clear) => true,
            _ => false,
        }
    }
}

impl vstd::std_specs::cmp::PartialEqSpecImpl for InOut {
    open spec fn obeys_eq_spec() -> bool {
        true
    }

    open spec fn eq_spec(&self, other: &InOut) -> bool {
        same_in_out(*self, *other)
    }
}

impl Eq for InOut {
}

/// The state of the area together with a generation number, which is
/// incremented on every change.
#[derive(Debug)]
pub struct InOutState {
    in_out: InOut,
    gen: usize,
}

impl Default for InOutState {
    fn default() -> (res: InOutState)
        ensures
            res.in_out() is Clear,
            res.generation() == 0,
    {
        InOutState { in_out: InOut::Clear, gen: 0 }
    }
}

impl InOutState {
    /// What the area shows.
    pub closed spec fn in_out(&self) -> InOut {
        self.in_out
    }

    /// The generation number.
    pub closed spec fn generation(&self) -> nat {
        self.gen as nat
    }

    /// Retrieve what the area shows.
    pub fn get(&self) -> (res: &InOut)
        ensures
            *res == self.in_out(),
    {
        &self.in_out
    }

    /// Retrieve the generation number.
    pub fn gen(&self) -> (res: usize)
        ensures
            res == self.generation(),
    {
        self.gen
    }

    /// Change what the area shows.
    pub fn set(&mut self, in_out: InOut)
        requires
            old(self).generation() < usize::MAX,
        ensures
            final(self).in_out() == in_out,
            final(self).generation() == old(self).generation() + 1,
    {
        self.in_out = in_out;
        self.bump()
    }

    /// Bump the generation number.
    pub fn bump(&mut self)
        requires
            old(self).generation() < usize::MAX,
        ensures
            final(self).in_out() == old(self).in_out(),
            final(self).generation() == old(self).generation() + 1,
    {
        self.gen = self.gen + 1;
    }
}

/// A key of the keyboard, as far as the area tells keys apart.
#[derive(Clone, Copy, Debug, PartialEq, Eq, Structural)]
pub enum Key {
    Esc,
    Return,
    Char(char),
    Backspace,
    Delete,
    Left,
    Right,
    Home,
    End,
    /// Any other key.
    Other,
}

/// An event the area sends once input ended.
#[derive(Debug)]
pub enum InputEvent {
    /// The text that was entered.
    EnteredText(String),
    /// Input was canceled.
    InputCanceled,
}

/// What the area asks for after handling an event: an event to send
/// to a widget, which is also to be focused, and whether the area needs
/// to be redrawn.
#[derive(Debug)]
pub struct Outcome {
    pub directed: Option<(u64, InputEvent)>,
    pub updated: bool,
}

/// The text and cursor that editing `s` with the cursor at byte index
/// `idx` by `key` gives, if the key edits or moves the cursor at all.
pub open spec fn edit_result(s: Seq<char>, idx: int, key: Key) -> Option<(Seq<char>, int)> {
    match key {
        Key::Char(c) => Some((s.insert(char_pos(s, idx), c), idx + 1)),
        Key::Backspace => if idx > 0 {
            Some((s.remove(char_pos(s, idx - 1)), idx - 1))
        } else {
            Some((s, idx))
        },
        Key::Delete => if idx < byte_len(s) {
            let t = s.remove(char_pos(s, idx));
            Some((t, if idx > byte_len(t) { idx - 1 } else { idx }))
        } else {
            Some((s, idx))
        },
        Key::Left => if idx > 0 {
            Some((s, idx - 1))
        } else {
            None
        },
        Key::Right => if idx < byte_len(s) {
            Some((s, idx + 1))
        } else {
            None
        },
        Key::Home => if idx != 0 {
            Some((s, 0))
        } else {
            None
        },
        Key::End => if idx != byte_len(s) {
            Some((s, byte_len(s) as int))
        } else {
            None
        },
        _ => None,
    }
}

/// Whether editing `s` with the cursor at byte index `idx` by `key`
/// only touches character boundaries and keeps the text within the
/// limits of a string.
pub open spec fn edit_ok(s: Seq<char>, idx: int, key: Key) -> bool {
    &&& byte_len(s) + 4 <= isize::MAX
    &&& match key {
        Key::Char(_) => is_boundary(s, idx),
        Key::Backspace => idx > 0 ==> is_boundary(s, idx - 1) && idx - 1 < byte_len(s),
        Key::Delete => idx < byte_len(s) ==> is_boundary(s, idx),
        _ => true,
    }
}

/// Whether `event` hands over the text `s`.
pub open spec fn entered(event: InputEvent, s: Seq<char>) -> bool {
    match event {
        InputEvent::EnteredText(t) => t@ == s,
        InputEvent::InputCanceled => false,
    }
}

/// Whether `x` shows the input `t` with the cursor at byte index `j`.
pub open spec fn shows_input(x: InOut, t: Seq<char>, j: int) -> bool {
    match x {
        InOut::Input(u, k) => u@ == t && k == j,
        _ => false,
    }
}

/// The input/output area.
#[derive(Debug)]
pub struct InOutArea {
    id: u64,
    prev_focused: Option<u64>,
    in_out: InOutState,
}

impl InOutArea {
    /// The identifier of the area.
    pub closed spec fn id(&self) -> u64 {
        self.id
    }

    /// The widget focused before input started, if any.
    pub closed spec fn prev_focused(&self) -> Option<u64> {
        self.prev_focused
    }

    /// The state of the area.
    pub closed spec fn state_of(&self) -> InOutState {
        self.in_out
    }

    /// Create an input/output area with the identifier `id`.
    pub fn new(id: u64) -> (res: InOutArea)
        ensures
            res.id() == id,
            res.prev_focused() is None,
            res.state_of().in_out() is Clear,
            res.state_of().generation() == 0,
    {
        InOutArea { id, prev_focused: None, in_out: InOutState::default() }
    }

    /// Retrieve what the area shows.
    pub fn state(&self) -> (res: &InOut)
        ensures
            *res == self.state_of().in_out(),
    {
        self.in_out.get()
    }

    /// Change what the area shows, unless it shows that already. The
    /// generation number is bumped in any case. Returns whether the area
    /// changed.
    fn change_state(&mut self, in_out: InOut) -> (res: bool)
        requires
            old(self).state_of().generation() + 2 <= usize::MAX,
        ensures
            final(self).id() == old(self).id(),
            final(self).prev_focused() == old(self).prev_focused(),
            res == !same_in_out(in_out, old(self).state_of().in_out()),
            res ==> final(self).state_of().in_out() == in_out && final(self).state_of().generation()
                == old(self).state_of().generation() + 2,
            !res ==> final(self).state_of().in_out() == old(self).state_of().in_out()
                && final(self).state_of().generation() == old(self).state_of().generation() + 1,
    {
        self.in_out.bump();
        if in_out != *self.in_out.get() {
            self.in_out.set(in_out);
            true
        } else {
            false
        }
    }

    /// Retrieve the widget that was focused before input was asked for.
    pub fn focused_before(&self) -> (res: Option<u64>)
        ensures
            res == self.prev_focused(),
    {
        self.prev_focused
    }

    /// Retrieve the generation of the area's state.
    pub fn generation(&self) -> (res: usize)
        ensures
            res == self.state_of().generation(),
    {
        self.in_out.gen()
    }

    /// The event to send to the area itself when a key is pressed: a
    /// request to clear it, unless it changed in the meantime.
    pub fn hooked_event(&self) -> (res: (u64, usize))
        ensures
            res == (self.id(), self.state_of().generation() as usize),
    {
        (self.id, self.in_out.gen())
    }

    /// Handle a request to show `in_out`. For input, the widget focused
    /// so far, `focused`, is remembered and the area is to be focused.
    /// Returns whether the area changed.
    pub fn handle_set_in_out(&mut self, in_out: InOut, focused: Option<u64>) -> (res: bool)
        requires
            old(self).state_of().generation() + 2 <= usize::MAX,
        ensures
            final(self).id() == old(self).id(),
            final(self).prev_focused() == if in_out is Input {
                focused
            } else {
                old(self).prev_focused()
            },
            res == !same_in_out(in_out, old(self).state_of().in_out()),
            res ==> final(self).state_of().in_out() == in_out,
            !res ==> final(self).state_of().in_out() == old(self).state_of().in_out(),
            final(self).state_of().generation() == old(self).state_of().generation() + if res {
                2int
            } else {
                1int
            },
    {
        if let InOut::Input(_, _) = in_out {
            self.prev_focused = focused;
        }
        self.change_state(in_out)
    }

    /// Handle a request to clear the area sent at generation `gen`: the
    /// area is cleared if it did not change since and shows a status.
    /// Returns whether the area changed.
    pub fn handle_clear(&mut self, gen: usize) -> (res: bool)
        requires
            old(self).state_of().generation() + 2 <= usize::MAX,
        ensures
            final(self).id() == old(self).id(),
            final(self).prev_focused() == old(self).prev_focused(),
            res == (old(self).state_of().generation() == gen && (old(self).state_of().in_out() is Saved
                || old(self).state_of().in_out() is Search || old(self).state_of().in_out() is Error)),
            res ==> final(self).state_of().in_out() is Clear && final(self).state_of().generation()
                == old(self).state_of().generation() + 2,
            !res ==> final(self).state_of().in_out() == old(self).state_of().in_out() && (
            final(self).state_of().generation() == old(self).state_of().generation()),
    {
        if self.in_out.gen() == gen {
            match self.in_out.get() {
                InOut::Saved | InOut::Search(_) | InOut::Error(_) => self.change_state(InOut::Clear),
                InOut::Input(..) | InOut::Clear => false,
            }
        } else {
            false
        }
    }

    /// Handle a key press while text is entered: `s` is the text and
    /// `idx` the byte index of the cursor. Return and escape end input:
    /// the area is cleared and the entered text, or the cancellation, is
    /// sent to the widget focused before, which is to be focused again.
    /// Other keys edit the text or move the cursor.
    pub fn handle_key(&mut self, s: String, idx: usize, key: Key) -> (res: Outcome)
        requires
            old(self).state_of().generation() + 2 <= usize::MAX,
            edit_ok(s@, idx as int, key),
            key is Esc || key is Return ==> old(self).prev_focused() is Some,
        ensures
            final(self).id() == old(self).id(),
            final(self).prev_focused() == old(self).prev_focused(),
            key is Esc || key is Return ==> {
                &&& res.directed matches Some((to, event))
                &&& to == old(self).prev_focused()->0
                &&& (key is Return ==> entered(event, s@))
                &&& (key is Esc ==> event is InputCanceled)
                &&& res.updated == !(old(self).state_of().in_out() is Clear)
                &&& final(self).state_of().in_out() is Clear
            },
            !(key is Esc || key is Return) ==> res.directed is None && match edit_result(s@, idx as int, key) {
                Some((t, j)) => res.updated == !shows_input(old(self).state_of().in_out(), t, j) && (res.updated
                    ==> shows_input(final(self).state_of().in_out(), t, j)) && (!res.updated
                    ==> final(self).state_of().in_out() == old(self).state_of().in_out()),
                None => !res.updated && final(self).state_of() == old(self).state_of(),
            },
            final(self).state_of().generation() == old(self).state_of().generation() + if res.updated {
                2int
            } else if key is Esc || key is Return || edit_result(s@, idx as int, key) is Some {
                1int
            } else {
                0int
            },
    {
        let mut s = s;
        let mut idx = idx;
        match key {
            Key::Esc | Key::Return => {
                let update = self.change_state(InOut::Clear);
                let widget = self.restore_focus();
                let event = if key == Key::Return {
                    InputEvent::EnteredText(s)
                } else {
                    InputEvent::InputCanceled
                };
                Outcome { directed: Some((widget, event)), updated: update }
            },
            Key::Char(c) => {
                proof {
                    lemma_boundary_le(s@, idx as int);
                }
                crate::text::string_insert(&mut s, idx, c);
                let updated = self.change_state(InOut::Input(s, idx + 1));
                Outcome { directed: None, updated }
            },
            Key::Backspace => {
                if idx > 0 {
                    let _removed = crate::text::string_remove(&mut s, idx - 1);
                    idx -= 1;
                }
                let updated = self.change_state(InOut::Input(s, idx));
                Outcome { directed: None, updated }
            },
            Key::Delete => {
                let len = crate::text::str_len(s.as_str());
                if idx < len {
                    let _removed = crate::text::string_remove(&mut s, idx);
                    let len = crate::text::str_len(s.as_str());
                    if idx > len {
                        idx -= 1;
                    }
                }
                let updated = self.change_state(InOut::Input(s, idx));
                Outcome { directed: None, updated }
            },
            Key::Left => {
                if idx > 0 {
                    let updated = self.change_state(InOut::Input(s, idx - 1));
                    Outcome { directed: None, updated }
                } else {
                    Outcome { directed: None, updated: false }
                }
            },
            Key::Right => {
                let len = crate::text::str_len(s.as_str());
                if idx < len {
                    let updated = self.change_state(InOut::Input(s, idx + 1));
                    Outcome { directed: None, updated }
                } else {
                    Outcome { directed: None, updated: false }
                }
            },
            Key::Home => {
                if idx != 0 {
                    let updated = self.change_state(InOut::Input(s, 0));
                    Outcome { directed: None, updated }
                } else {
                    Outcome { directed: None, updated: false }
                }
            },
            Key::End => {
                let length = crate::text::str_len(s.as_str());
                if idx != length {
                    let updated = self.change_state(InOut::Input(s, length));
                    Outcome { directed: None, updated }
                } else {
                    Outcome { directed: None, updated: false }
                }
            },
            Key::Other => Outcome { directed: None, updated: false },
        }
    }

    /// The widget to focus again once input ended.
    fn restore_focus(&self) -> (res: u64)
        requires
            self.prev_focused() is Some,
        ensures
            res == self.prev_focused()->0,
    {
        match self.prev_focused {
            Some(to_focus) => to_focus,
            None => 0,
        }
    }
}

} // verus!
