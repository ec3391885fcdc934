//! A line of text with a selected character.
//!
//! As in [`crate::text`], a character is what a user would intuitively
//! describe as one: a grapheme cluster.

use vstd::prelude::*;

use crate::text::byte_len;
use crate::text::byte_range;
use crate::text::char_byte_index_of;
use crate::text::char_count_of;
use crate::text::char_index_of;
use crate::text::char_start;
use crate::text::concat;
use crate::text::get_or_empty;
use crate::text::graphemes;
use crate::text::lemma_cluster_boundary;
use crate::text::lemma_clusters_within_bound;
use crate::text::lemma_upto_step;

verus! {

/// Find the byte index at which the character at `position` starts, or
/// the length of `string` in bytes.
pub fn byte_index(string: &str, position: usize) -> (res: usize)
    ensures
        res == char_byte_index_of(string@, position as nat),
        res <= byte_len(string@),
        concat(graphemes(string@)) == string@,
        forall|i: int| 0 <= i < graphemes(string@).len() ==> #[trigger] graphemes(string@)[i].len() > 0,
{
    crate::text::char_byte_index(string, position)
}

/// Find the number of characters that end at or before the byte index
/// `byte_position`.
pub fn char_index(string: &str, byte_position: usize) -> (res: usize)
    ensures
        res == char_index_of(string@, byte_position as nat),
{
    crate::text::char_index(string, byte_position)
}

/// A line of text with an associated selection.
#[derive(Debug)]
pub struct Line {
    /// The string representing the line.
    line: String,
    /// The "character" index of the selection.
    selection: usize,
}

impl View for Line {
    type V = Seq<char>;

    closed spec fn view(&self) -> Seq<char> {
        self.line@
    }
}

impl Clone for Line {
    fn clone(&self) -> (res: Line)
        ensures
            res@ == self@,
            res.sel() == self.sel(),
    {
        Line { line: self.line.clone(), selection: self.selection }
    }
}

impl Default for Line {
    fn default() -> (res: Line)
        ensures
            res@ == Seq::<char>::empty(),
            res.sel() == 0,
            res.wf(),
    {
        Line { line: String::new(), selection: 0 }
    }
}

impl Line {
    /// The character index of the selection.
    pub closed spec fn sel(&self) -> nat {
        self.selection as nat
    }

    /// Whether the selection lies within the line or right behind it.
    pub closed spec fn wf(&self) -> bool {
        self.selection <= char_count_of(self.line@)
    }

    /// The selection of a consistent line lies at or before the end of
    /// its characters.
    pub proof fn lemma_selection_bound(&self)
        requires
            self.wf(),
        ensures
            self.sel() <= char_count_of(self@),
    {
    }

    /// Create a `Line` from the given string, selecting the very first
    /// character.
    pub fn from_string(line: &str) -> (res: Line)
        ensures
            res@ == line@,
            res.sel() == 0,
            res.wf(),
    {
        Line { line: crate::text::owned(line), selection: 0 }
    }

    /// Select the first character.
    pub fn select_start(self) -> (res: Line)
        ensures
            res@ == self@,
            res.sel() == 0,
            res.wf(),
    {
        let mut slf = self;
        slf.selection = 0;
        slf
    }

    /// Move the selection past the last character.
    pub fn select_end(self) -> (res: Line)
        ensures
            res@ == self@,
            res.sel() == char_count_of(self@),
            res.wf(),
    {
        let mut slf = self;
        slf.selection = slf.len();
        slf
    }

    /// Select the next character, if any.
    pub fn select_next(self) -> (res: Line)
        requires
            self.wf(),
        ensures
            res@ == self@,
            res.sel() == if self.sel() < char_count_of(self@) {
                self.sel() + 1
            } else {
                char_count_of(self@)
            },
            res.wf(),
    {
        let mut slf = self;
        let len = slf.len();
        slf.selection = if slf.selection < len {
            slf.selection + 1
        } else {
            len
        };
        slf
    }

    /// Select the previous character, if any.
    pub fn select_prev(self) -> (res: Line)
        requires
            self.wf(),
        ensures
            res@ == self@,
            res.sel() == if self.sel() > 0 {
                self.sel() - 1
            } else {
                0
            },
            res.wf(),
    {
        let mut slf = self;
        let len = slf.len();
        let prev = slf.selection.saturating_sub(1);
        slf.selection = if prev < len {
            prev
        } else {
            len
        };
        slf
    }

    /// Select the character at or before the given byte index.
    pub fn select_byte_index(self, byte_index: usize) -> (res: Line)
        ensures
            res@ == self@,
            res.sel() == char_index_of(self@, byte_index as nat),
            res.wf(),
    {
        let mut slf = self;
        slf.selection = char_index(slf.line.as_str(), byte_index);
        proof {
            lemma_clusters_within_bound(graphemes(slf.line@), byte_index as nat, 0);
        }
        slf
    }

    /// Insert a character into the line at the selection and select the
    /// character after it.
    pub fn insert_char(&mut self, c: char)
        requires
            old(self).wf(),
            byte_len(old(self)@) + 4 <= isize::MAX,
        ensures
            final(self)@ == old(self)@.insert(char_start(old(self)@, old(self).sel()), c),
            final(self).sel() == if old(self).sel() < char_count_of(final(self)@) {
                old(self).sel() + 1
            } else {
                char_count_of(final(self)@)
            },
            final(self).wf(),
    {
        let ghost s = self.line@;
        let byte_index = byte_index(self.line.as_str(), self.selection);
        proof {
            let g = graphemes(s);
            let k = if self.selection < g.len() { self.selection as int } else { g.len() as int };
            lemma_cluster_boundary(s, g, k);
            assert(g.take(g.len() as int) =~= g);
        }
        crate::text::string_insert(&mut self.line, byte_index, c);
        let len = self.len();
        self.selection = if self.selection < len {
            self.selection + 1
        } else {
            len
        };
    }

    /// Remove the selected character.
    pub fn remove_char(&mut self)
        requires
            old(self).wf(),
        ensures
            old(self).sel() >= char_count_of(old(self)@) ==> *final(self) == *old(self),
            old(self).sel() < char_count_of(old(self)@) ==> final(self)@ == old(self)@.subrange(
                0,
                char_start(old(self)@, old(self).sel()),
            ) + old(self)@.subrange(
                char_start(old(self)@, old(self).sel() + 1),
                old(self)@.len() as int,
            ) && final(self).sel() == if old(self).sel() < char_count_of(final(self)@) {
                old(self).sel()
            } else {
                char_count_of(final(self)@)
            },
            final(self).wf(),
    {
        if self.selection >= self.len() {
            return;
        }
        let ghost s = self.line@;
        let start = crate::text::char_byte_index(self.line.as_str(), self.selection);
        let end = crate::text::char_byte_index(self.line.as_str(), self.selection + 1);
        proof {
            let g = graphemes(s);
            let k = self.selection as int;
            lemma_cluster_boundary(s, g, k);
            lemma_cluster_boundary(s, g, k + 1);
            lemma_cluster_boundary(s, g, g.len() as int);
            assert(g.take(g.len() as int) =~= g);
            lemma_upto_step(g, k);
            reveal_strlit("");
        }
        crate::text::string_replace_range(&mut self.line, start, end, "");
        proof {
            reveal_strlit("");
            assert(self.line@ =~= s.subrange(0, char_start(s, old(self).sel())) + s.subrange(
                char_start(s, old(self).sel() + 1),
                s.len() as int,
            ));
        }
        let len = self.len();
        self.selection = if self.selection < len {
            self.selection
        } else {
            len
        };
    }

    /// Retrieve the line from the character at `start` on.
    pub fn substr(&self, start: usize) -> (res: &str)
        ensures
            res@ == get_or_empty(self@, char_byte_index_of(self@, start as nat) as int, byte_len(self@) as int),
    {
        let line = self.line.as_str();
        let start = byte_index(line, start);
        let len = crate::text::str_len(line);
        crate::text::get(line, start, len)
    }

    /// Retrieve the number of characters in the line.
    pub fn len(&self) -> (res: usize)
        ensures
            res == char_count_of(self@),
    {
        crate::text::count_chars(self.line.as_str())
    }

    /// Retrieve the line's underlying `str`.
    pub fn as_str(&self) -> (res: &str)
        ensures
            res@ == self@,
    {
        self.line.as_str()
    }

    /// Retrieve the selection's character index.
    pub fn selection(&self) -> (res: usize)
        ensures
            res == self.sel(),
    {
        self.selection
    }

    /// Retrieve the selection expressed as a byte index.
    pub fn selection_byte_index(&self) -> (res: usize)
        ensures
            res == char_byte_index_of(self@, self.sel()),
    {
        byte_index(self.line.as_str(), self.selection)
    }

    /// Convert the object into a `String`, discarding the selection.
    pub fn into_string(self) -> (res: String)
        ensures
            res@ == self@,
    {
        self.line
    }
}

} // verus!
