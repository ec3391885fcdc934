//! Layout computations of the terminal renderer: scrolling offsets,
//! centered titles and clipping to a bounding box.

use vstd::prelude::*;

use crate::chars::chars_of;
use crate::chars::string_from_chars;
use crate::text::byte_len;
use crate::text::byte_range;
use crate::text::char_pos;
use crate::text::get_or_empty;
use crate::text::is_boundary;

verus! {

/// The offset of the first visible item among `limit` visible ones such
/// that `selection` is visible, moving the window as little as possible.
pub open spec fn offset_for(offset: int, selection: int, limit: int) -> int {
    if selection <= offset {
        selection
    } else if selection > offset + (limit - 1) {
        selection - (limit - 1)
    } else {
        offset
    }
}

/// Sanitize an offset so that `selection` is visible among `limit`
/// items shown from the offset on.
pub fn sanitize_offset(offset: usize, selection: usize, limit: usize) -> (res: usize)
    requires
        selection > offset ==> limit >= 1 && offset + (limit - 1) <= usize::MAX,
    ensures
        res == offset_for(offset as int, selection as int, limit as int),
{
    if selection <= offset {
        selection
    } else if selection > offset + (limit - 1) {
        selection - (limit - 1)
    } else {
        offset
    }
}

/// A string of `n` spaces.
pub open spec fn spaces(n: nat) -> Seq<char> {
    Seq::new(n, |i: int| ' ')
}

/// A string centered in `width` columns, counting bytes, or cut off with
/// an ellipsis if it is longer.
pub open spec fn centered(s: Seq<char>, width: int) -> Seq<char> {
    let length = byte_len(s) as int;
    if length > width {
        s.take(char_pos(s, width - 3)) + seq!['.', '.', '.']
    } else if length < width {
        let pad_right = (width - length) / 2;
        let pad_left = width - length - pad_right;
        spaces(pad_right as nat) + s + spaces(pad_left as nat)
    } else {
        s
    }
}

/// Append `n` spaces.
fn push_spaces(out: &mut Vec<char>, n: usize)
    ensures
        final(out)@ == old(out)@ + spaces(n as nat),
{
    let mut i: usize = 0;
    while i < n
        invariant
            i <= n,
            out@ == old(out)@ + spaces(i as nat),
        decreases n - i,
    {
        out.push(' ');
        i += 1;
        assert(out@ =~= old(out)@ + spaces(i as nat));
    }
}

/// Center a string in `width` columns, or cut it off with an ellipsis if
/// it is longer. Widths are counted in bytes.
pub fn align_center(string: &str, width: usize) -> (res: String)
    requires
        byte_len(string@) > width ==> width >= 3 && is_boundary(string@, width - 3),
    ensures
        res@ == centered(string@, width as int),
{
    let length = crate::text::str_len(string);
    let chars = chars_of(string);
    if length > width {
        let mut out: Vec<char> = Vec::new();
        let keep = char_index_of_boundary(string, width - 3);
        let mut i: usize = 0;
        while i < keep
            invariant
                keep <= chars@.len(),
                chars@ == string@,
                i <= keep,
                out@ == chars@.take(i as int),
            decreases keep - i,
        {
            out.push(chars[i]);
            i += 1;
            assert(out@ =~= chars@.take(i as int));
        }
        out.push('.');
        out.push('.');
        out.push('.');
        assert(out@ =~= string@.take(keep as int) + seq!['.', '.', '.']);
        string_from_chars(&out)
    } else if length < width {
        let pad_right = (width - length) / 2;
        let pad_left = width - length - pad_right;
        let mut out: Vec<char> = Vec::new();
        push_spaces(&mut out, pad_right);
        let mut i: usize = 0;
        while i < chars.len()
            invariant
                chars@ == string@,
                i <= chars@.len(),
                out@ == spaces(pad_right as nat) + chars@.take(i as int),
            decreases chars@.len() - i,
        {
            out.push(chars[i]);
            i += 1;
            assert(out@ =~= spaces(pad_right as nat) + chars@.take(i as int));
        }
        assert(chars@.take(i as int) =~= chars@);
        push_spaces(&mut out, pad_left);
        string_from_chars(&out)
    } else {
        crate::text::owned(string)
    }
}

/// The character position of the byte boundary `x` of `s`.
fn char_index_of_boundary(s: &str, x: usize) -> (res: usize)
    requires
        is_boundary(s@, x as int),
    ensures
        res == char_pos(s@, x as int),
        res <= s@.len(),
{
    let ghost p = char_pos(s@, x as int);
    let _len = crate::text::str_len(s);
    let chars = chars_of(s);
    let mut bytes: usize = 0;
    let mut i: usize = 0;
    proof {
        crate::text::lemma_boundary_le(s@, x as int);
        assert(s@.take(0) =~= Seq::<char>::empty());
    }
    while i < chars.len() && bytes < x
        invariant
            chars@ == s@,
            0 <= p <= s@.len(),
            byte_len(s@.take(p)) == x,
            i <= p,
            bytes == byte_len(s@.take(i as int)),
            x <= isize::MAX,
            x == byte_len(s@.take(p)),
        decreases s@.len() - i,
    {
        proof {
            assert(s@.take(i + 1).drop_last() =~= s@.take(i as int));
            if i == p {
                assert(false);
            }
            if i + 1 < p {
                crate::text::lemma_byte_len_take_mono(s@, i + 1, p);
            }
        }
        bytes = bytes + utf8_len_of(chars[i]);
        i += 1;
    }
    proof {
        if i < p {
            crate::text::lemma_byte_len_take_mono(s@, i as int, p);
        }
    }
    i
}

/// The number of bytes of the UTF-8 encoding of a character
/// (`char::len_utf8`).
fn utf8_len_of(c: char) -> (res: usize)
    ensures
        res == crate::text::utf8_len(c),
{
    let u = c as u32;
    if u < 0x80 {
        1
    } else if u < 0x800 {
        2
    } else if u < 0x10000 {
        3
    } else {
        4
    }
}

/// A rectangle on the terminal.
#[derive(Clone, Copy, Debug, PartialEq, Eq, Structural)]
pub struct BBox {
    pub x: u16,
    pub y: u16,
    pub w: u16,
    pub h: u16,
}

/// What of a string written at `(x, y)` fits into the bounding box:
/// nothing below it, the bytes up to its right edge, or everything.
pub open spec fn clipped(x: int, y: int, s: Seq<char>, bbox: BBox) -> Seq<char> {
    if y < bbox.h {
        if x + (byte_len(s) % 0x10000) >= bbox.w {
            get_or_empty(s, 0, bbox.w - x)
        } else {
            s
        }
    } else {
        Seq::empty()
    }
}

/// Clip a string written at `(x, y)` to the bounding box. Lengths are
/// counted in bytes, truncated to 16 bits.
pub fn clip(x: u16, y: u16, string: &str, bbox: BBox) -> (res: &str)
    requires
        y < bbox.h ==> x + (byte_len(string@) % 0x10000) <= u16::MAX,
        y < bbox.h && x + (byte_len(string@) % 0x10000) >= bbox.w ==> x <= bbox.w && is_boundary(
            string@,
            bbox.w - x,
        ),
    ensures
        res@ == clipped(x as int, y as int, string@, bbox),
{
    let w = bbox.w;
    let h = bbox.h;
    if y < h {
        let len = crate::text::str_len(string);
        let short = len as u16;
        assert(short == len % 0x10000) by (bit_vector)
            requires
                short == len as u16,
        ;
        if x + short >= w {
            proof {
                crate::text::lemma_boundary_le(string@, (w - x) as int);
            }
            crate::text::get(string, 0, (w - x) as usize)
        } else {
            string
        }
    } else {
        proof {
            reveal_strlit("");
        }
        ""
    }
}


/// The left margin of the list of tasks.
pub const MAIN_MARGIN_X: u16 = 3;
/// The top margin of the list of tasks.
pub const MAIN_MARGIN_Y: u16 = 2;
/// The lines each task takes.
pub const TASK_SPACE: u16 = 2;
/// The width of the title of a tab.
pub const TAB_TITLE_WIDTH: u16 = 30;

/// The number of tasks that fit into the bounding box.
pub fn displayable_tasks(bbox: BBox) -> (res: usize)
    requires
        bbox.h >= MAIN_MARGIN_Y,
    ensures
        res == ((bbox.h - MAIN_MARGIN_Y) as int) / (TASK_SPACE as int),
{
    ((bbox.h - MAIN_MARGIN_Y) / TASK_SPACE) as usize
}

/// The number of tab titles that fit into the bounding box.
pub fn displayable_tabs(bbox: BBox) -> (res: usize)
    ensures
        res == (bbox.w as int) / (TAB_TITLE_WIDTH as int),
{
    (bbox.w / TAB_TITLE_WIDTH) as usize
}

/// A task to draw: its index, where its state and its summary go, and
/// whether it is complete and selected.
#[derive(Clone, Copy, Debug, PartialEq, Eq, Structural)]
pub struct TaskLine {
    pub index: usize,
    pub x: u16,
    pub y: u16,
    pub summary_x: u16,
    pub complete: bool,
    pub selected: bool,
}

/// The number of tasks drawn from `offset` on, at most `limit` of `n`.
pub open spec fn drawn_count(n: int, offset: int, limit: int) -> int {
    if offset >= n {
        0
    } else if n - offset < limit {
        n - offset
    } else {
        limit
    }
}

/// Lay out the tasks of a list: the offset is adjusted so that the
/// selected task is visible, the visible tasks are drawn one below the
/// other, and the cursor goes to the start of the selected task's
/// summary.
pub fn task_list_layout(complete: &[bool], selection: usize, offset: usize, limit: usize) -> (res: (
    Vec<TaskLine>,
    Option<(u16, u16)>,
    usize,
))
    requires
        selection > offset ==> limit >= 1 && offset + (limit - 1) <= usize::MAX,
        MAIN_MARGIN_Y + TASK_SPACE * limit <= u16::MAX,
    ensures
        ({
            let off = offset_for(offset as int, selection as int, limit as int);
            let count = drawn_count(complete@.len() as int, off, limit as int);
            &&& res.2 == off
            &&& res.0@.len() == count
            &&& forall|k: int|
                0 <= k < count ==> (#[trigger] res.0@[k]) == (TaskLine {
                    index: (off + k) as usize,
                    x: MAIN_MARGIN_X,
                    y: (MAIN_MARGIN_Y + TASK_SPACE * k) as u16,
                    summary_x: (MAIN_MARGIN_X + 4) as u16,
                    complete: complete@[off + k],
                    selected: off + k == selection,
                })
            &&& res.1 == if off <= selection < off + count {
                Some(((MAIN_MARGIN_X + 4) as u16, (MAIN_MARGIN_Y + TASK_SPACE * (selection - off)) as u16))
            } else {
                None
            }
        }),
{
    let offset = sanitize_offset(offset, selection, limit);
    let n = complete.len();
    let x = MAIN_MARGIN_X;
    let mut y = MAIN_MARGIN_Y;
    let mut cursor: Option<(u16, u16)> = None;
    let mut lines: Vec<TaskLine> = Vec::new();
    let ghost count = drawn_count(n as int, offset as int, limit as int);
    let mut i: usize = offset;
    while i < n && i - offset < limit
        invariant
            n == complete@.len(),
            x == MAIN_MARGIN_X,
            count == drawn_count(n as int, offset as int, limit as int),
            MAIN_MARGIN_Y + TASK_SPACE * limit <= u16::MAX,
            offset <= i,
            i - offset <= count,
            lines@.len() == i - offset,
            y == MAIN_MARGIN_Y + TASK_SPACE * (i - offset),
            forall|k: int|
                0 <= k < i - offset ==> (#[trigger] lines@[k]) == (TaskLine {
                    index: (offset + k) as usize,
                    x: MAIN_MARGIN_X,
                    y: (MAIN_MARGIN_Y + TASK_SPACE * k) as u16,
                    summary_x: (MAIN_MARGIN_X + 4) as u16,
                    complete: complete@[offset + k],
                    selected: offset + k == selection,
                }),
            cursor == if offset <= selection < i {
                Some(((MAIN_MARGIN_X + 4) as u16, (MAIN_MARGIN_Y + TASK_SPACE * (selection - offset)) as u16))
            } else {
                None::<(u16, u16)>
            },
        decreases n - i,
    {
        let selected = i == selection;
        let summary_x = x + 4;
        let ghost before = lines@;
        lines.push(TaskLine { index: i, x, y, summary_x, complete: complete[i], selected });
        proof {
            assert forall|k: int| 0 <= k < i + 1 - offset implies (#[trigger] lines@[k]) == (TaskLine {
                index: (offset + k) as usize,
                x: MAIN_MARGIN_X,
                y: (MAIN_MARGIN_Y + TASK_SPACE * k) as u16,
                summary_x: (MAIN_MARGIN_X + 4) as u16,
                complete: complete@[offset + k],
                selected: offset + k == selection,
            }) by {
                if k < i - offset {
                    assert(lines@[k] == before[k]);
                }
            }
        }
        if selected {
            cursor = Some((summary_x, y));
        }
        y = y + TASK_SPACE;
        i += 1;
    }
    (lines, cursor, offset)
}

/// A tab title to draw: its index, where it goes, its centered title and
/// whether it is selected.
#[derive(Debug)]
pub struct TabTitle {
    pub index: usize,
    pub x: u16,
    pub title: String,
    pub selected: bool,
}

/// Lay out the titles of the tabs: the offset is adjusted so that the
/// selected tab is visible and the visible titles are centered and drawn
/// side by side, each framed by two spaces.
pub fn tab_bar_layout(names: &[&str], selection: usize, offset: usize, limit: usize) -> (res: (Vec<TabTitle>, usize))
    requires
        selection > offset ==> limit >= 1 && offset + (limit - 1) <= usize::MAX,
        TAB_TITLE_WIDTH * limit <= u16::MAX,
        forall|i: int|
            0 <= i < names@.len() ==> byte_len(#[trigger] names@[i]@) > 26 ==> is_boundary(names@[i]@, 23),
    ensures
        ({
            let off = offset_for(offset as int, selection as int, limit as int);
            let count = drawn_count(names@.len() as int, off, limit as int);
            &&& res.1 == off
            &&& res.0@.len() == count
            &&& forall|k: int|
                0 <= k < count ==> (#[trigger] res.0@[k]).index == off + k && res.0@[k].x == TAB_TITLE_WIDTH * k
                    && res.0@[k].title@ == seq![' ', ' '] + centered(names@[off + k]@, 26) + seq![' ', ' ']
                    && res.0@[k].selected == (off + k == selection)
        }),
{
    let offset = sanitize_offset(offset, selection, limit);
    let n = names.len();
    let mut x: u16 = 0;
    let mut titles: Vec<TabTitle> = Vec::new();
    let ghost count = drawn_count(n as int, offset as int, limit as int);
    let mut i: usize = offset;
    while i < n && i - offset < limit
        invariant
            n == names@.len(),
            count == drawn_count(n as int, offset as int, limit as int),
            TAB_TITLE_WIDTH * limit <= u16::MAX,
            forall|j: int|
                0 <= j < names@.len() ==> byte_len(#[trigger] names@[j]@) > 26 ==> is_boundary(names@[j]@, 23),
            offset <= i,
            i - offset <= count,
            titles@.len() == i - offset,
            x == TAB_TITLE_WIDTH * (i - offset),
            forall|k: int|
                0 <= k < i - offset ==> (#[trigger] titles@[k]).index == offset + k && titles@[k].x
                    == TAB_TITLE_WIDTH * k && titles@[k].title@ == seq![' ', ' '] + centered(names@[offset + k]@, 26)
                    + seq![' ', ' '] && titles@[k].selected == (offset + k == selection),
        decreases n - i,
    {
        let centered_title = align_center(names[i], 26);
        let mut padded: Vec<char> = Vec::new();
        padded.push(' ');
        padded.push(' ');
        let chars = chars_of(centered_title.as_str());
        let mut j: usize = 0;
        while j < chars.len()
            invariant
                j <= chars@.len(),
                padded@ == seq![' ', ' '] + chars@.take(j as int),
            decreases chars@.len() - j,
        {
            padded.push(chars[j]);
            j += 1;
            assert(padded@ =~= seq![' ', ' '] + chars@.take(j as int));
        }
        assert(chars@.take(j as int) =~= chars@);
        padded.push(' ');
        padded.push(' ');
        let title = string_from_chars(&padded);
        let ghost before = titles@;
        titles.push(TabTitle { index: i, x, title, selected: i == selection });
        proof {
            assert(padded@ =~= seq![' ', ' '] + centered(names@[i as int]@, 26) + seq![' ', ' ']);
            assert forall|k: int| 0 <= k < i + 1 - offset implies (#[trigger] titles@[k]).index == offset + k
                && titles@[k].x == TAB_TITLE_WIDTH * k && titles@[k].title@ == seq![' ', ' '] + centered(
                names@[offset + k]@,
                26,
            ) + seq![' ', ' '] && titles@[k].selected == (offset + k == selection) by {
                if k < i - offset {
                    assert(titles@[k] == before[k]);
                }
            }
        }
        x = x + TAB_TITLE_WIDTH;
        i += 1;
    }
    (titles, offset)
}
} // verus!
