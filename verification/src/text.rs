//! Unicode aware text: display widths, cursors, clipping and wrapping.
//!
//! We use the word character ("char") loosely in this module, referring
//! to what a user would intuitively describe as a character. Really it
//! is a grapheme cluster in Unicode speak. All indexes, unless
//! explicitly denoted otherwise, are relative to these characters and
//! not to bytes.

use unicode_segmentation::UnicodeSegmentation;
use unicode_width::UnicodeWidthChar;
use unicode_width::UnicodeWidthStr;

use vstd::prelude::*;

verus! {

/// The extended grapheme clusters of a string, in order, as
/// `UnicodeSegmentation::graphemes` yields them.
pub uninterp spec fn graphemes(s: Seq<char>) -> Seq<Seq<char>>;

/// The width of a character, as `UnicodeWidthChar::width` reports it.
pub uninterp spec fn char_width(c: char) -> Option<usize>;

/// The number of bytes of the UTF-8 encoding of a character.
pub open spec fn utf8_len(c: char) -> nat {
    if (c as u32) < 0x80 {
        1
    } else if (c as u32) < 0x800 {
        2
    } else if (c as u32) < 0x10000 {
        3
    } else {
        4
    }
}

/// The number of bytes of the UTF-8 encoding of a string.
pub open spec fn byte_len(s: Seq<char>) -> nat
    decreases s.len(),
{
    if s.len() == 0 {
        0
    } else {
        byte_len(s.drop_last()) + utf8_len(s.last())
    }
}

/// The concatenation of a sequence of strings.
pub open spec fn concat(gs: Seq<Seq<char>>) -> Seq<char>
    decreases gs.len(),
{
    if gs.len() == 0 {
        Seq::empty()
    } else {
        concat(gs.drop_last()) + gs.last()
    }
}

/// The width of a string: the sum of the widths of its characters,
/// counting characters without a width as zero.
pub open spec fn width_of(s: Seq<char>) -> nat
    decreases s.len(),
{
    if s.len() == 0 {
        0
    } else {
        width_of(s.drop_last()) + match char_width(s.last()) {
            Some(w) => w as nat,
            None => 0,
        }
    }
}

/// The sum of the widths of the first `j` strings of `gs`.
pub open spec fn widths_upto(gs: Seq<Seq<char>>, j: int) -> nat
    decreases j,
{
    if j <= 0 {
        0
    } else {
        widths_upto(gs, j - 1) + width_of(gs[j - 1])
    }
}

/// The display width of a string: the sum of the widths of its
/// grapheme clusters.
pub open spec fn display_width_of(s: Seq<char>) -> nat {
    widths_upto(graphemes(s), graphemes(s).len() as int)
}

/// The sum of the display widths of the first `j` strings of `gs`.
pub open spec fn display_widths_upto(gs: Seq<Seq<char>>, j: int) -> nat
    decreases j,
{
    if j <= 0 {
        0
    } else {
        display_widths_upto(gs, j - 1) + display_width_of(gs[j - 1])
    }
}

/// The position, in characters of the underlying string, at which the
/// `j`th of the grapheme clusters `gs` starts.
pub open spec fn pos_upto(gs: Seq<Seq<char>>, j: int) -> nat {
    concat(gs.take(j)).len()
}

/// The byte index at which the `j`th of the grapheme clusters `gs`
/// starts.
pub open spec fn bytes_upto(gs: Seq<Seq<char>>, j: int) -> nat {
    byte_len(concat(gs.take(j)))
}

/// Whether the byte index `x` lies on a character boundary of `s`.
pub open spec fn is_boundary(s: Seq<char>, x: int) -> bool {
    exists|p: int| 0 <= p <= s.len() && #[trigger] byte_len(s.take(p)) == x
}

/// The character position at the byte index `x` of `s`.
pub open spec fn char_pos(s: Seq<char>, x: int) -> int {
    choose|p: int| 0 <= p <= s.len() && #[trigger] byte_len(s.take(p)) == x
}

/// Whether the byte range `start..end` of `s` is a valid slice.
pub open spec fn byte_range_ok(s: Seq<char>, start: int, end: int) -> bool {
    start <= end && is_boundary(s, start) && is_boundary(s, end)
}

/// The characters of the byte range `start..end` of `s`.
pub open spec fn byte_range(s: Seq<char>, start: int, end: int) -> Seq<char> {
    s.subrange(char_pos(s, start), char_pos(s, end))
}

/// Split a string into its extended grapheme clusters
/// (`UnicodeSegmentation::graphemes`). The clusters are non-empty and
/// make up the string, in order.
#[verifier::external_body]
fn grapheme_clusters(s: &str) -> (res: Vec<String>)
    ensures
        res@.map_values(|g: String| g@) == graphemes(s@),
        concat(res@.map_values(|g: String| g@)) == s@,
        forall|i: int| 0 <= i < res@.len() ==> #[trigger] res@[i]@.len() > 0,
{
    s.graphemes(true).map(String::from).collect()
}

/// The width of a character (`UnicodeWidthChar::width`): at most two,
/// one for printable ASCII, zero for the NUL character.
#[verifier::external_body]
fn unicode_char_width(c: char) -> (res: Option<usize>)
    ensures
        res == char_width(c),
        res matches Some(w) ==> w <= 2,
        ' ' <= c <= '~' ==> res == Some(1usize),
        c == '\0' ==> res == Some(0usize),
{
    c.width()
}

/// The width of a string (`UnicodeWidthStr::width`): the sum of the
/// widths of its characters, each at most two.
#[verifier::external_body]
fn unicode_str_width(s: &str) -> (res: usize)
    ensures
        res == width_of(s@),
        res <= 2 * s@.len(),
{
    s.width()
}

/// The length of a string in bytes (`str::len`), which never exceeds
/// `isize::MAX`.
#[verifier::external_body]
pub(crate) fn str_len(s: &str) -> (res: usize)
    ensures
        res == byte_len(s@),
        res <= isize::MAX,
{
    s.len()
}

/// The slice of the byte range `start..end` of a string (`str::get`);
/// `None` where the range is reversed or does not lie on character
/// boundaries.
#[verifier::external_body]
fn str_get(s: &str, start: usize, end: usize) -> (res: Option<&str>)
    ensures
        res is Some <==> byte_range_ok(s@, start as int, end as int),
        res matches Some(r) ==> r@ == byte_range(s@, start as int, end as int),
{
    s.get(start..end)
}

proof fn lemma_byte_len_concat(a: Seq<char>, b: Seq<char>)
    ensures
        byte_len(a + b) == byte_len(a) + byte_len(b),
    decreases b.len(),
{
    if b.len() == 0 {
        assert(a + b =~= a);
    } else {
        assert((a + b).drop_last() =~= a + b.drop_last());
        lemma_byte_len_concat(a, b.drop_last());
    }
}

proof fn lemma_byte_len_at_least_len(s: Seq<char>)
    ensures
        byte_len(s) >= s.len(),
    decreases s.len(),
{
    if s.len() > 0 {
        lemma_byte_len_at_least_len(s.drop_last());
    }
}

/// Byte lengths of prefixes strictly increase with the prefix.
pub(crate) proof fn lemma_byte_len_take_mono(s: Seq<char>, p: int, q: int)
    requires
        0 <= p < q <= s.len(),
    ensures
        byte_len(s.take(p)) < byte_len(s.take(q)),
    decreases q - p,
{
    assert(s.take(q).drop_last() =~= s.take(q - 1));
    if p < q - 1 {
        lemma_byte_len_take_mono(s, p, q - 1);
    }
}

/// A byte boundary determines its character position.
proof fn lemma_char_pos(s: Seq<char>, p: int)
    requires
        0 <= p <= s.len(),
    ensures
        is_boundary(s, byte_len(s.take(p)) as int),
        char_pos(s, byte_len(s.take(p)) as int) == p,
{
    let x = byte_len(s.take(p)) as int;
    assert(is_boundary(s, x));
    let q = char_pos(s, x);
    if q < p {
        lemma_byte_len_take_mono(s, q, p);
    } else if p < q {
        lemma_byte_len_take_mono(s, p, q);
    }
}

proof fn lemma_width_of_concat(a: Seq<char>, b: Seq<char>)
    ensures
        width_of(a + b) == width_of(a) + width_of(b),
    decreases b.len(),
{
    if b.len() == 0 {
        assert(a + b =~= a);
    } else {
        assert((a + b).drop_last() =~= a + b.drop_last());
        lemma_width_of_concat(a, b.drop_last());
    }
}

proof fn lemma_concat_take_step(gs: Seq<Seq<char>>, j: int)
    requires
        0 <= j < gs.len(),
    ensures
        concat(gs.take(j + 1)) == concat(gs.take(j)) + gs[j],
{
    assert(gs.take(j + 1).drop_last() =~= gs.take(j));
}

/// The clusters before the `j`th make up a prefix of all of them.
proof fn lemma_concat_take_prefix(gs: Seq<Seq<char>>, j: int)
    requires
        0 <= j <= gs.len(),
    ensures
        concat(gs.take(j)).len() <= concat(gs).len(),
        concat(gs).take(concat(gs.take(j)).len() as int) == concat(gs.take(j)),
    decreases gs.len() - j,
{
    if j == gs.len() {
        assert(gs.take(j) =~= gs);
        assert(concat(gs).take(concat(gs).len() as int) =~= concat(gs));
    } else {
        lemma_concat_take_prefix(gs, j + 1);
        lemma_concat_take_step(gs, j);
        let a = concat(gs.take(j));
        let b = concat(gs.take(j + 1));
        assert(b.take(a.len() as int) =~= a);
        assert(concat(gs).take(a.len() as int) =~= b.take(a.len() as int));
    }
}

/// The `j`th cluster starts at a character boundary, with the byte index
/// and character position of the clusters before it.
pub(crate) proof fn lemma_cluster_boundary(s: Seq<char>, gs: Seq<Seq<char>>, j: int)
    requires
        concat(gs) == s,
        0 <= j <= gs.len(),
    ensures
        pos_upto(gs, j) <= s.len(),
        s.take(pos_upto(gs, j) as int) == concat(gs.take(j)),
        is_boundary(s, bytes_upto(gs, j) as int),
        char_pos(s, bytes_upto(gs, j) as int) == pos_upto(gs, j),
        bytes_upto(gs, j) <= byte_len(s),
{
    lemma_concat_take_prefix(gs, j);
    let p = pos_upto(gs, j) as int;
    lemma_char_pos(s, p);
    assert(s.take(p) + s.skip(p) =~= s);
    lemma_byte_len_concat(s.take(p), s.skip(p));
}

/// A type representing the width of a string (in "columns"), as it
/// would be displayed.
#[derive(Clone, Copy, Debug, PartialEq, Eq, Structural, PartialOrd, Ord)]
pub struct Width(usize);

impl View for Width {
    type V = nat;

    closed spec fn view(&self) -> nat {
        self.0 as nat
    }
}

impl From<usize> for Width {
    fn from(other: usize) -> (res: Width)
        ensures
            res@ == other,
    {
        Width(other)
    }
}

impl vstd::std_specs::convert::FromSpecImpl<usize> for Width {
    open spec fn obeys_from_spec() -> bool {
        true
    }

    closed spec fn from_spec(v: usize) -> Width {
        Width(v)
    }
}

impl core::ops::Add<Width> for Width {
    type Output = Width;

    fn add(self, other: Width) -> (res: Width)
        ensures
            res@ == self@ + other@,
    {
        Width(self.0 + other.0)
    }
}

impl vstd::std_specs::ops::AddSpecImpl<Width> for Width {
    open spec fn obeys_add_spec() -> bool {
        true
    }

    open spec fn add_req(self, other: Width) -> bool {
        self@ + other@ <= usize::MAX
    }

    closed spec fn add_spec(self, other: Width) -> Width {
        Width((self.0 + other.0) as usize)
    }
}

impl core::ops::Sub<Width> for Width {
    type Output = Width;

    fn sub(self, other: Width) -> (res: Width)
        ensures
            res@ == if self@ >= other@ {
                self@ - other@
            } else {
                0
            },
    {
        Width(self.0.saturating_sub(other.0))
    }
}

impl vstd::std_specs::ops::SubSpecImpl<Width> for Width {
    open spec fn obeys_sub_spec() -> bool {
        true
    }

    open spec fn sub_req(self, other: Width) -> bool {
        true
    }

    closed spec fn sub_spec(self, other: Width) -> Width {
        Width(
            if self.0 >= other.0 {
                (self.0 - other.0) as usize
            } else {
                0
            },
        )
    }
}

/// Conveniently query the width of an entity, as it would be displayed.
pub trait DisplayWidth {
    fn display_width(&self) -> Width;
}

impl DisplayWidth for str {
    fn display_width(&self) -> (res: Width)
        ensures
            res@ == display_width_of(self@),
            res@ <= 2 * self@.len(),
    {
        let _bytes = str_len(self);
        let gs = grapheme_clusters(self);
        let ghost g = graphemes(self@);
        proof {
            lemma_byte_len_at_least_len(self@);
            assert(gs@.len() == g.len());
            assert forall|i: int| 0 <= i < gs@.len() implies #[trigger] gs@[i]@ == g[i] by {
                assert(gs@.map_values(|g: String| g@)[i] == gs@[i]@);
            }
            lemma_concat_take_prefix(g, 0);
        }
        let mut total: usize = 0;
        let mut j: usize = 0;
        while j < gs.len()
            invariant
                gs@.len() == g.len(),
                forall|i: int| 0 <= i < gs@.len() ==> #[trigger] gs@[i]@ == g[i],
                j <= g.len(),
                total == widths_upto(g, j as int),
                total <= 2 * pos_upto(g, j as int),
                pos_upto(g, j as int) <= concat(g).len(),
                concat(g) == self@,
                self@.len() <= isize::MAX,
            decreases g.len() - j,
        {
            let w = unicode_str_width(gs[j].as_str());
            proof {
                lemma_concat_take_step(g, j as int);
                lemma_concat_take_prefix(g, j as int + 1);
            }
            total = total + w;
            j += 1;
        }
        Width(total)
    }
}

impl DisplayWidth for char {
    fn display_width(&self) -> (res: Width)
        ensures
            res@ == match char_width(*self) {
                Some(w) => w as nat,
                None => 0,
            },
            res@ <= 2,
    {
        match unicode_char_width(*self) {
            Some(w) => Width(w),
            None => Width(0),
        }
    }
}

/// A cursor into a string, counting display columns, to be used mainly
/// for display purposes.
#[derive(Clone, Copy, Debug, PartialEq, Eq, Structural, PartialOrd, Ord)]
pub struct Cursor(usize);

impl View for Cursor {
    type V = nat;

    closed spec fn view(&self) -> nat {
        self.0 as nat
    }
}

impl Cursor {
    /// Create a cursor pointing at the beginning of a string.
    pub fn at_start() -> (res: Cursor)
        ensures
            res@ == 0,
    {
        Cursor(0)
    }

    /// Convert the cursor into a `usize`.
    pub fn as_usize(&self) -> (res: usize)
        ensures
            res == self@,
    {
        self.0
    }
}

impl core::ops::Add<Width> for Cursor {
    type Output = Cursor;

    fn add(self, other: Width) -> (res: Cursor)
        ensures
            res@ == self@ + other@,
    {
        Cursor(self.0 + other.0)
    }
}

impl vstd::std_specs::ops::AddSpecImpl<Width> for Cursor {
    open spec fn obeys_add_spec() -> bool {
        true
    }

    open spec fn add_req(self, other: Width) -> bool {
        self@ + other@ <= usize::MAX
    }

    closed spec fn add_spec(self, other: Width) -> Cursor {
        Cursor((self.0 + other.0) as usize)
    }
}

impl core::ops::Sub<Width> for Cursor {
    type Output = Cursor;

    fn sub(self, other: Width) -> (res: Cursor)
        ensures
            res@ == if self@ >= other@ {
                self@ - other@
            } else {
                0
            },
    {
        Cursor(self.0.saturating_sub(other.0))
    }
}

impl vstd::std_specs::ops::SubSpecImpl<Width> for Cursor {
    open spec fn obeys_sub_spec() -> bool {
        true
    }

    open spec fn sub_req(self, other: Width) -> bool {
        true
    }

    closed spec fn sub_spec(self, other: Width) -> Cursor {
        Cursor(
            if self.0 >= other.0 {
                (self.0 - other.0) as usize
            } else {
                0
            },
        )
    }
}


pub(crate) proof fn lemma_upto_step(gs: Seq<Seq<char>>, j: int)
    requires
        0 <= j < gs.len(),
    ensures
        bytes_upto(gs, j + 1) == bytes_upto(gs, j) + byte_len(gs[j]),
        pos_upto(gs, j + 1) == pos_upto(gs, j) + gs[j].len(),
{
    lemma_concat_take_step(gs, j);
    lemma_byte_len_concat(concat(gs.take(j)), gs[j]);
}

/// The byte length and display width of each grapheme cluster of `s`.
fn cluster_metrics(s: &str) -> (res: Vec<(usize, usize)>)
    ensures
        res@.len() == graphemes(s@).len(),
        concat(graphemes(s@)) == s@,
        byte_len(s@) <= isize::MAX,
        forall|i: int|
            #![trigger res@[i]]
            0 <= i < res@.len() ==> res@[i].0 == byte_len(graphemes(s@)[i]) && res@[i].1
                == display_width_of(graphemes(s@)[i]) && graphemes(s@)[i].len() > 0,
        forall|j: int|
            #![trigger bytes_upto(graphemes(s@), j)]
            #![trigger display_widths_upto(graphemes(s@), j)]
            0 <= j <= graphemes(s@).len() ==> bytes_upto(graphemes(s@), j) <= isize::MAX
                && display_widths_upto(graphemes(s@), j) <= 2 * pos_upto(graphemes(s@), j)
                && pos_upto(graphemes(s@), j) <= isize::MAX,
{
    let _bytes = str_len(s);
    let gs = grapheme_clusters(s);
    let ghost g = graphemes(s@);
    proof {
        lemma_byte_len_at_least_len(s@);
        assert(gs@.len() == g.len());
        assert forall|i: int| 0 <= i < gs@.len() implies #[trigger] gs@[i]@ == g[i] by {
            assert(gs@.map_values(|g: String| g@)[i] == gs@[i]@);
        }
        lemma_concat_take_prefix(g, 0);
    }
    let mut res: Vec<(usize, usize)> = Vec::new();
    let mut j: usize = 0;
    while j < gs.len()
        invariant
            gs@.len() == g.len(),
            forall|i: int| 0 <= i < gs@.len() ==> #[trigger] gs@[i]@ == g[i],
            forall|i: int| 0 <= i < gs@.len() ==> #[trigger] gs@[i]@.len() > 0,
            concat(g) == s@,
            byte_len(s@) <= isize::MAX,
            s@.len() <= byte_len(s@),
            j <= g.len(),
            res@.len() == j,
            forall|i: int|
                #![trigger res@[i]]
                0 <= i < j ==> res@[i].0 == byte_len(g[i]) && res@[i].1 == display_width_of(g[i])
                    && g[i].len() > 0,
            forall|i: int|
                #![trigger bytes_upto(g, i)]
                #![trigger display_widths_upto(g, i)]
                0 <= i <= j ==> bytes_upto(g, i) <= isize::MAX && display_widths_upto(g, i) <= 2 * pos_upto(g, i)
                    && pos_upto(g, i) <= isize::MAX,
        decreases g.len() - j,
    {
        let cluster = gs[j].as_str();
        let bytes = str_len(cluster);
        let width = cluster.display_width();
        proof {
            assert(cluster@ == g[j as int]);
            lemma_upto_step(g, j as int);
            lemma_cluster_boundary(s@, g, j as int + 1);
            lemma_byte_len_at_least_len(s@);
            assert(display_widths_upto(g, j + 1) == display_widths_upto(g, j as int) + display_width_of(g[j as int]));
        }
        let ghost prev = res@;
        res.push((bytes, width.0));
        proof {
            assert forall|i: int| #![trigger res@[i]] 0 <= i < j + 1 implies res@[i].0 == byte_len(g[i])
                && res@[i].1 == display_width_of(g[i]) && g[i].len() > 0 by {
                if i < j {
                    assert(res@[i] == prev[i]);
                } else {
                    assert(gs@[j as int]@.len() > 0);
                }
            }
            assert(gs@[j as int]@.len() > 0);
            assert(res@[j as int].0 == byte_len(g[j as int]));
            assert(res@[j as int].1 == display_width_of(g[j as int]));
            assert(display_widths_upto(g, j as int) <= 2 * pos_upto(g, j as int));
        }
        j += 1;
    }
    proof {
        lemma_cluster_boundary(s@, g, 0);
    }
    res
}

/// The index of the first grapheme cluster, from the `j`th on, before
/// which the display width reaches `cursor`, or the number of clusters.
pub open spec fn first_reaching(gs: Seq<Seq<char>>, cursor: nat, j: int) -> int
    decreases gs.len() - j,
{
    if j >= gs.len() {
        gs.len() as int
    } else if display_widths_upto(gs, j) >= cursor {
        j
    } else {
        first_reaching(gs, cursor, j + 1)
    }
}

/// The index of the first grapheme cluster, from the `j`th on, whose
/// end lies beyond the display width `max`, or the number of clusters.
pub open spec fn first_exceeding(gs: Seq<Seq<char>>, max: nat, j: int) -> int
    decreases gs.len() - j,
{
    if j >= gs.len() {
        gs.len() as int
    } else if display_widths_upto(gs, j + 1) > max {
        j
    } else {
        first_exceeding(gs, max, j + 1)
    }
}

/// The number of grapheme clusters, from the `j`th on, that end at or
/// before the byte index `byte_idx`, plus `j`.
pub open spec fn clusters_within(gs: Seq<Seq<char>>, byte_idx: nat, j: int) -> int
    decreases gs.len() - j,
{
    if 0 <= j < gs.len() && bytes_upto(gs, j + 1) <= byte_idx {
        clusters_within(gs, byte_idx, j + 1)
    } else {
        j
    }
}

/// The byte index at which the display width reaches `cursor`.
pub open spec fn cursor_byte_index_of(s: Seq<char>, cursor: nat) -> nat {
    bytes_upto(graphemes(s), first_reaching(graphemes(s), cursor, 0))
}

/// The byte index at which the `char_idx`th character starts, or the
/// length of `s` in bytes.
pub open spec fn char_byte_index_of(s: Seq<char>, char_idx: nat) -> nat {
    if char_idx < graphemes(s).len() {
        bytes_upto(graphemes(s), char_idx as int)
    } else {
        byte_len(s)
    }
}

/// The number of characters that end at or before the byte index
/// `byte_idx`.
pub open spec fn char_index_of(s: Seq<char>, byte_idx: nat) -> nat {
    clusters_within(graphemes(s), byte_idx, 0) as nat
}

/// The display width of the characters that end at or before the byte
/// index `byte_idx`.
pub open spec fn cursor_index_of(s: Seq<char>, byte_idx: nat) -> nat {
    display_widths_upto(graphemes(s), clusters_within(graphemes(s), byte_idx, 0))
}

/// Find the byte index that maps to the given [`Cursor`] position.
pub fn cursor_byte_index(string: &str, cursor: Cursor) -> (res: usize)
    ensures
        res == cursor_byte_index_of(string@, cursor@),
        res <= byte_len(string@) <= isize::MAX,
        concat(graphemes(string@)) == string@,
{
    let metrics = cluster_metrics(string);
    let ghost g = graphemes(string@);
    let mut total_width = Width::from(0);
    let mut byte_idx: usize = 0;
    let mut j: usize = 0;
    while j < metrics.len()
        invariant
            metrics@.len() == g.len(),
            g == graphemes(string@),
            forall|i: int|
                #![trigger metrics@[i]]
                0 <= i < metrics@.len() ==> metrics@[i].0 == byte_len(g[i]) && metrics@[i].1
                    == display_width_of(g[i]),
            forall|i: int|
                #![trigger bytes_upto(g, i)]
                #![trigger display_widths_upto(g, i)]
                0 <= i <= g.len() ==> bytes_upto(g, i) <= isize::MAX && display_widths_upto(g, i) <= 2
                    * pos_upto(g, i) && pos_upto(g, i) <= isize::MAX,
            j <= g.len(),
            total_width@ == display_widths_upto(g, j as int),
            byte_idx == bytes_upto(g, j as int),
            first_reaching(g, cursor@, 0) == first_reaching(g, cursor@, j as int),
            concat(g) == string@,
            byte_len(string@) <= isize::MAX,
        decreases g.len() - j,
    {
        if (Cursor::at_start() + total_width).as_usize() >= cursor.as_usize() {
            proof {
                lemma_cluster_boundary(string@, g, j as int);
            }
            return byte_idx;
        }
        proof {
            lemma_upto_step(g, j as int);
            assert(bytes_upto(g, j + 1) <= isize::MAX);
            assert(display_widths_upto(g, j + 1) <= 2 * pos_upto(g, j + 1));
        }
        total_width = total_width + Width::from(metrics[j].1);
        byte_idx = byte_idx + metrics[j].0;
        j += 1;
    }
    proof {
        lemma_cluster_boundary(string@, g, g.len() as int);
        assert(g.take(g.len() as int) =~= g);
    }
    str_len(string)
}

/// Find the byte index that maps to the given character position.
pub(crate) fn char_byte_index(string: &str, char_idx: usize) -> (res: usize)
    ensures
        res == char_byte_index_of(string@, char_idx as nat),
        res <= byte_len(string@) <= isize::MAX,
        concat(graphemes(string@)) == string@,
        forall|i: int| 0 <= i < graphemes(string@).len() ==> #[trigger] graphemes(string@)[i].len() > 0,
{
    let metrics = cluster_metrics(string);
    let ghost g = graphemes(string@);
    proof {
        assert forall|i: int| 0 <= i < g.len() implies #[trigger] g[i].len() > 0 by {
            assert(metrics@[i].0 == byte_len(g[i]));
        }
    }
    let mut byte_idx: usize = 0;
    let mut j: usize = 0;
    while j < metrics.len()
        invariant
            metrics@.len() == g.len(),
            g == graphemes(string@),
            forall|i: int| #![trigger metrics@[i]] 0 <= i < metrics@.len() ==> metrics@[i].0 == byte_len(g[i]),
            forall|i: int|
                #![trigger bytes_upto(g, i)]
                0 <= i <= g.len() ==> bytes_upto(g, i) <= isize::MAX,
            j <= g.len(),
            j <= char_idx,
            byte_idx == bytes_upto(g, j as int),
            forall|i: int| 0 <= i < g.len() ==> #[trigger] g[i].len() > 0,
            concat(g) == string@,
            byte_len(string@) <= isize::MAX,
        decreases g.len() - j,
    {
        if j >= char_idx {
            proof {
                lemma_cluster_boundary(string@, g, j as int);
            }
            return byte_idx;
        }
        proof {
            lemma_upto_step(g, j as int);
            assert(bytes_upto(g, j + 1) <= isize::MAX);
        }
        byte_idx = byte_idx + metrics[j].0;
        j += 1;
    }
    str_len(string)
}

/// Find the character index that maps to the given byte position.
pub(crate) fn char_index(string: &str, byte_idx: usize) -> (res: usize)
    ensures
        res == char_index_of(string@, byte_idx as nat),
        concat(graphemes(string@)) == string@,
        forall|i: int| 0 <= i < graphemes(string@).len() ==> #[trigger] graphemes(string@)[i].len() > 0,
{
    let metrics = cluster_metrics(string);
    let ghost g = graphemes(string@);
    proof {
        assert forall|i: int| 0 <= i < g.len() implies #[trigger] g[i].len() > 0 by {
            assert(metrics@[i].0 == byte_len(g[i]));
        }
    }
    let mut end: usize = 0;
    let mut j: usize = 0;
    while j < metrics.len()
        invariant
            metrics@.len() == g.len(),
            g == graphemes(string@),
            forall|i: int| #![trigger metrics@[i]] 0 <= i < metrics@.len() ==> metrics@[i].0 == byte_len(g[i]),
            forall|i: int|
                #![trigger bytes_upto(g, i)]
                0 <= i <= g.len() ==> bytes_upto(g, i) <= isize::MAX,
            j <= g.len(),
            end == bytes_upto(g, j as int),
            clusters_within(g, byte_idx as nat, 0) == clusters_within(g, byte_idx as nat, j as int),
            forall|i: int| 0 <= i < g.len() ==> #[trigger] g[i].len() > 0,
            concat(g) == string@,
        decreases g.len() - j,
    {
        proof {
            lemma_upto_step(g, j as int);
            assert(bytes_upto(g, j + 1) <= isize::MAX);
        }
        let next = end + metrics[j].0;
        if byte_idx >= next {
            end = next;
            j += 1;
        } else {
            return j;
        }
    }
    j
}

/// Find the cursor index that maps to the given byte position.
pub fn cursor_index(string: &str, byte_idx: usize) -> (res: Cursor)
    ensures
        res@ == cursor_index_of(string@, byte_idx as nat),
{
    let metrics = cluster_metrics(string);
    let ghost g = graphemes(string@);
    let mut end: usize = 0;
    let mut width = Width::from(0);
    let mut j: usize = 0;
    while j < metrics.len()
        invariant
            metrics@.len() == g.len(),
            g == graphemes(string@),
            forall|i: int|
                #![trigger metrics@[i]]
                0 <= i < metrics@.len() ==> metrics@[i].0 == byte_len(g[i]) && metrics@[i].1
                    == display_width_of(g[i]),
            forall|i: int|
                #![trigger bytes_upto(g, i)]
                #![trigger display_widths_upto(g, i)]
                0 <= i <= g.len() ==> bytes_upto(g, i) <= isize::MAX && display_widths_upto(g, i) <= 2
                    * pos_upto(g, i) && pos_upto(g, i) <= isize::MAX,
            j <= g.len(),
            end == bytes_upto(g, j as int),
            width@ == display_widths_upto(g, j as int),
            clusters_within(g, byte_idx as nat, 0) == clusters_within(g, byte_idx as nat, j as int),
        decreases g.len() - j,
    {
        proof {
            lemma_upto_step(g, j as int);
            assert(bytes_upto(g, j + 1) <= isize::MAX);
            assert(display_widths_upto(g, j + 1) <= 2 * pos_upto(g, j + 1));
        }
        let next = end + metrics[j].0;
        if byte_idx >= next {
            end = next;
            width = width + Width::from(metrics[j].1);
            j += 1;
        } else {
            return Cursor::at_start() + width;
        }
    }
    Cursor::at_start() + width
}

/// The characters of `s` up to the first one whose end lies beyond the
/// display width `max_width`.
pub open spec fn clip_of(s: Seq<char>, max_width: nat) -> Seq<char> {
    s.take(pos_upto(graphemes(s), first_exceeding(graphemes(s), max_width, 0)) as int)
}

/// Clip a string at `max_width` display columns, at a character
/// boundary.
pub fn clip(string: &str, max_width: Width) -> (res: &str)
    ensures
        res@ == clip_of(string@, max_width@),
        concat(graphemes(string@)) == string@,
{
    let metrics = cluster_metrics(string);
    let ghost g = graphemes(string@);
    let mut total_width = Width::from(0);
    let mut byte_idx: usize = 0;
    let mut j: usize = 0;
    while j < metrics.len()
        invariant
            metrics@.len() == g.len(),
            g == graphemes(string@),
            concat(g) == string@,
            forall|i: int|
                #![trigger metrics@[i]]
                0 <= i < metrics@.len() ==> metrics@[i].0 == byte_len(g[i]) && metrics@[i].1
                    == display_width_of(g[i]),
            forall|i: int|
                #![trigger bytes_upto(g, i)]
                #![trigger display_widths_upto(g, i)]
                0 <= i <= g.len() ==> bytes_upto(g, i) <= isize::MAX && display_widths_upto(g, i) <= 2
                    * pos_upto(g, i) && pos_upto(g, i) <= isize::MAX,
            j <= g.len(),
            total_width@ == display_widths_upto(g, j as int),
            byte_idx == bytes_upto(g, j as int),
            first_exceeding(g, max_width@, 0) == first_exceeding(g, max_width@, j as int),
        decreases g.len() - j,
    {
        proof {
            lemma_upto_step(g, j as int);
            assert(bytes_upto(g, j + 1) <= isize::MAX);
            assert(display_widths_upto(g, j + 1) <= 2 * pos_upto(g, j + 1));
        }
        total_width = total_width + Width::from(metrics[j].1);
        if total_width.0 > max_width.0 {
            proof {
                lemma_cluster_boundary(string@, g, j as int);
                lemma_cluster_boundary(string@, g, 0);
                assert(g.take(0) =~= Seq::<Seq<char>>::empty());
                assert(bytes_upto(g, 0) == 0);
            }
            return match str_get(string, 0, byte_idx) {
                Some(prefix) => prefix,
                None => string,
            };
        }
        byte_idx = byte_idx + metrics[j].0;
        j += 1;
    }
    proof {
        lemma_cluster_boundary(string@, g, g.len() as int);
        assert(g.take(g.len() as int) =~= g);
        assert(string@.take(string@.len() as int) =~= string@);
    }
    string
}

/// Insert a character at a byte index of a string (`String::insert`).
#[verifier::external_body]
pub(crate) fn string_insert(s: &mut String, idx: usize, c: char)
    requires
        is_boundary(old(s)@, idx as int),
        byte_len(old(s)@) + utf8_len(c) <= isize::MAX,
    ensures
        final(s)@ == old(s)@.insert(char_pos(old(s)@, idx as int), c),
{
    s.insert(idx, c)
}

/// Remove the character at a byte index of a string (`String::remove`).
#[verifier::external_body]
pub(crate) fn string_remove(s: &mut String, idx: usize) -> (res: char)
    requires
        is_boundary(old(s)@, idx as int),
        idx < byte_len(old(s)@),
    ensures
        res == old(s)@[char_pos(old(s)@, idx as int)],
        final(s)@ == old(s)@.remove(char_pos(old(s)@, idx as int)),
{
    s.remove(idx)
}

/// Replace the byte range `start..end` of a string by `with`
/// (`String::replace_range`).
#[verifier::external_body]
pub(crate) fn string_replace_range(s: &mut String, start: usize, end: usize, with: &str)
    requires
        byte_range_ok(old(s)@, start as int, end as int),
        byte_len(old(s)@) + byte_len(with@) <= isize::MAX,
    ensures
        final(s)@ == old(s)@.subrange(0, char_pos(old(s)@, start as int)) + with@ + old(s)@.subrange(
            char_pos(old(s)@, end as int),
            old(s)@.len() as int,
        ),
{
    s.replace_range(start..end, with)
}

/// Copy a string slice into an owned string (`str::to_owned`).
pub(crate) fn owned(s: &str) -> (res: String)
    ensures
        res@ == s@,
{
    s.to_owned()
}

/// The number of characters of a string.
pub open spec fn char_count_of(s: Seq<char>) -> nat {
    graphemes(s).len()
}

/// The position, in the underlying characters of `s`, at which the
/// `idx`th character starts, or the end of `s`.
pub open spec fn char_start(s: Seq<char>, idx: nat) -> int {
    pos_upto(graphemes(s), if idx < graphemes(s).len() { idx as int } else { graphemes(s).len() as int }) as int
}

/// The characters of the byte range `start..end` of `s`, or nothing where
/// the range is not a valid slice.
pub open spec fn get_or_empty(s: Seq<char>, start: int, end: int) -> Seq<char> {
    if byte_range_ok(s, start, end) {
        byte_range(s, start, end)
    } else {
        Seq::empty()
    }
}

/// Count the characters of a string.
pub(crate) fn count_chars(s: &str) -> (res: usize)
    ensures
        res == char_count_of(s@),
{
    let gs = grapheme_clusters(s);
    proof {
        assert(gs@.map_values(|g: String| g@).len() == gs@.len());
    }
    gs.len()
}

/// A range of display columns.
pub enum CursorRange {
    /// Everything.
    Full,
    /// From a cursor on.
    From(Cursor),
    /// Up to a cursor, excluding it.
    To(Cursor),
    /// Up to a cursor, including it.
    ToInclusive(Cursor),
    /// From the first cursor up to the second, excluding it.
    Range(Cursor, Cursor),
    /// From the first cursor up to the second, including it.
    RangeInclusive(Cursor, Cursor),
}

/// The sub-string of `s` covered by `range`: the byte slice between the
/// byte indexes the cursors map to, or nothing where that slice is not
/// valid.
pub open spec fn substr_of(s: Seq<char>, range: CursorRange) -> Seq<char> {
    match range {
        CursorRange::Full => s,
        CursorRange::From(start) => get_or_empty(s, cursor_byte_index_of(s, start@) as int, byte_len(s) as int),
        CursorRange::To(end) => get_or_empty(s, 0, cursor_byte_index_of(s, end@) as int),
        CursorRange::ToInclusive(end) => {
            let last: int = if byte_len(s) > 0 {
                byte_len(s) - 1
            } else {
                0
            };
            let e: int = cursor_byte_index_of(s, end@) as int;
            let e = if e < last {
                e
            } else {
                last
            };
            get_or_empty(s, 0, e + 1)
        },
        CursorRange::Range(start, end) => get_or_empty(
            s,
            cursor_byte_index_of(s, start@) as int,
            cursor_byte_index_of(s, end@) as int,
        ),
        CursorRange::RangeInclusive(start, end) => get_or_empty(
            s,
            cursor_byte_index_of(s, start@) as int,
            cursor_byte_index_of(s, end@) as int + 1,
        ),
    }
}

/// Slice the byte range `start..end` of a string, or give the empty
/// string where that is no valid slice.
pub(crate) fn get(text: &str, start: usize, end: usize) -> (res: &str)
    ensures
        res@ == get_or_empty(text@, start as int, end as int),
{
    match str_get(text, start, end) {
        Some(r) => r,
        None => {
            proof {
                reveal_strlit("");
            }
            ""
        },
    }
}

/// Some Unicode aware text.
#[derive(Debug)]
pub struct Text {
    text: String,
}

impl Clone for Text {
    fn clone(&self) -> (res: Text)
        ensures
            res@ == self@,
    {
        Text { text: self.text.clone() }
    }
}

impl View for Text {
    type V = Seq<char>;

    closed spec fn view(&self) -> Seq<char> {
        self.text@
    }
}

impl Default for Text {
    fn default() -> (res: Text)
        ensures
            res@ == Seq::<char>::empty(),
    {
        Text { text: String::new() }
    }
}

impl Text {
    /// Create a `Text` from the given string.
    pub fn from_string(text: &str) -> (res: Text)
        ensures
            res@ == text@,
    {
        Text { text: owned(text) }
    }

    /// Retrieve a sub-string of the text. The text up to a cursor and
    /// the text from it join to the whole text.
    pub fn substr(&self, range: CursorRange) -> (res: &str)
        ensures
            res@ == substr_of(self@, range),
            range matches CursorRange::To(c) ==> res@ + substr_of(self@, CursorRange::From(c)) == self@,
            range matches CursorRange::From(c) ==> substr_of(self@, CursorRange::To(c)) + res@ == self@,
    {
        let text = self.text.as_str();
        let len = str_len(text);
        match range {
            CursorRange::From(start) => {
                let idx = cursor_byte_index(text, start);
                proof {
                    lemma_substr_split(self@, start);
                }
                get(text, idx, len)
            },
            CursorRange::RangeInclusive(start, end) => {
                let start = cursor_byte_index(text, start);
                let end = cursor_byte_index(text, end);
                get(text, start, end + 1)
            },
            CursorRange::Range(start, end) => {
                let start = cursor_byte_index(text, start);
                let end = cursor_byte_index(text, end);
                get(text, start, end)
            },
            CursorRange::Full => text,
            CursorRange::ToInclusive(end) => {
                let end = cursor_byte_index(text, end);
                let last = len.saturating_sub(1);
                let end = if end < last {
                    end
                } else {
                    last
                };
                get(text, 0, end + 1)
            },
            CursorRange::To(end) => {
                let idx = cursor_byte_index(text, end);
                proof {
                    lemma_substr_split(self@, end);
                }
                get(text, 0, idx)
            },
        }
    }

    /// Retrieve the number of characters in the text.
    pub fn char_count(&self) -> (res: usize)
        ensures
            res == char_count_of(self@),
    {
        count_chars(self.text.as_str())
    }

    /// Retrieve the text's underlying `str`.
    pub fn as_str(&self) -> (res: &str)
        ensures
            res@ == self@,
    {
        self.text.as_str()
    }

    /// Convert the object into a `String`.
    pub fn into_string(self) -> (res: String)
        ensures
            res@ == self@,
    {
        self.text
    }
}

/// A text with an associated cursor.
///
/// Selections take into account character width, which is a property
/// of the terminal based output in use.
#[derive(Debug)]
pub struct EditableText {
    /// The text.
    text: Text,
    /// The "character" index of the cursor.
    char_idx: usize,
}

impl Clone for EditableText {
    fn clone(&self) -> (res: EditableText)
        ensures
            res@ == self@,
            res.char_idx() == self.char_idx(),
    {
        EditableText { text: self.text.clone(), char_idx: self.char_idx }
    }
}

impl Default for EditableText {
    fn default() -> (res: EditableText)
        ensures
            res@ == Seq::<char>::empty(),
            res.char_idx() == 0,
    {
        EditableText { text: Text::default(), char_idx: 0 }
    }
}

impl View for EditableText {
    type V = Seq<char>;

    closed spec fn view(&self) -> Seq<char> {
        self.text@
    }
}

impl EditableText {
    /// The character index of the cursor.
    pub closed spec fn char_idx(&self) -> nat {
        self.char_idx as nat
    }

    /// Whether the cursor lies within the text or right behind it.
    pub closed spec fn wf(&self) -> bool {
        self.char_idx <= char_count_of(self.text@)
    }

    /// Create an `EditableText` from the given string, selecting the very
    /// first character.
    pub fn from_string(text: &str) -> (res: EditableText)
        ensures
            res@ == text@,
            res.char_idx() == 0,
            res.wf(),
    {
        EditableText { text: Text::from_string(text), char_idx: 0 }
    }

    /// Retrieve the underlying text.
    pub fn text(&self) -> (res: &Text)
        ensures
            res@ == self@,
    {
        &self.text
    }

    /// Retrieve the text's underlying `str`.
    pub fn as_str(&self) -> (res: &str)
        ensures
            res@ == self@,
    {
        self.text.as_str()
    }

    /// Retrieve the number of characters in the text.
    pub fn char_count(&self) -> (res: usize)
        ensures
            res == char_count_of(self@),
    {
        self.text.char_count()
    }

    /// Retrieve a cursor pointing at the very first character in the text
    /// (or, if the text is empty, past the last one).
    pub fn cursor_start(&self) -> (res: Cursor)
        ensures
            res@ == 0,
    {
        Cursor::at_start()
    }

    /// Retrieve a cursor pointing past the last character of the text.
    pub fn cursor_end(&self) -> (res: Cursor)
        ensures
            res@ == cursor_index_of(self@, byte_len(self@)),
    {
        let text = self.text.as_str();
        let len = str_len(text);
        cursor_index(text, len)
    }

    /// Select the first character.
    pub fn move_start(&mut self)
        requires
            old(self).wf(),
        ensures
            final(self)@ == old(self)@,
            final(self).char_idx() == 0,
            final(self).wf(),
    {
        self.char_idx = 0;
    }

    /// Move the cursor to the end of the text, past the last character.
    pub fn move_end(&mut self)
        requires
            old(self).wf(),
        ensures
            final(self)@ == old(self)@,
            final(self).char_idx() == char_count_of(old(self)@),
            final(self).wf(),
    {
        self.char_idx = self.char_count();
    }

    /// Select the next character, if any.
    pub fn move_next(&mut self)
        requires
            old(self).wf(),
        ensures
            final(self)@ == old(self)@,
            final(self).char_idx() == if old(self).char_idx() < char_count_of(old(self)@) {
                old(self).char_idx() + 1
            } else {
                char_count_of(old(self)@)
            },
            final(self).wf(),
    {
        let count = self.char_count();
        self.char_idx = if self.char_idx < count {
            self.char_idx + 1
        } else {
            count
        };
    }

    /// Select the previous character, if any.
    pub fn move_prev(&mut self)
        requires
            old(self).wf(),
        ensures
            final(self)@ == old(self)@,
            final(self).char_idx() == if old(self).char_idx() > 0 {
                old(self).char_idx() - 1
            } else {
                0
            },
            final(self).wf(),
    {
        let count = self.char_count();
        let prev = self.char_idx.saturating_sub(1);
        self.char_idx = if prev < count {
            prev
        } else {
            count
        };
    }

    /// Insert a character into the text at the cursor and move the cursor
    /// to the next character.
    pub fn insert_char(&mut self, c: char)
        requires
            old(self).wf(),
            byte_len(old(self)@) + 4 <= isize::MAX,
        ensures
            final(self)@ == old(self)@.insert(char_start(old(self)@, old(self).char_idx()), c),
            final(self).char_idx() == if old(self).char_idx() < char_count_of(final(self)@) {
                old(self).char_idx() + 1
            } else {
                char_count_of(final(self)@)
            },
            final(self).wf(),
    {
        let ghost s = self.text@;
        let byte_index = char_byte_index(self.text.text.as_str(), self.char_idx);
        proof {
            let g = graphemes(s);
            let k = if self.char_idx < g.len() { self.char_idx as int } else { g.len() as int };
            lemma_cluster_boundary(s, g, k);
            assert(g.take(g.len() as int) =~= g);
        }
        string_insert(&mut self.text.text, byte_index, c);
        let count = self.char_count();
        self.char_idx = if self.char_idx < count {
            self.char_idx + 1
        } else {
            count
        };
    }

    /// Remove the character at the cursor.
    pub fn remove_char(&mut self)
        requires
            old(self).wf(),
        ensures
            old(self).char_idx() >= char_count_of(old(self)@) ==> *final(self) == *old(self),
            old(self).char_idx() < char_count_of(old(self)@) ==> final(self)@ == old(self)@.subrange(
                0,
                char_start(old(self)@, old(self).char_idx()),
            ) + old(self)@.subrange(
                char_start(old(self)@, old(self).char_idx() + 1),
                old(self)@.len() as int,
            ) && final(self).char_idx() == if old(self).char_idx() < char_count_of(final(self)@) {
                old(self).char_idx()
            } else {
                char_count_of(final(self)@)
            },
            final(self).wf(),
    {
        if self.char_idx >= self.char_count() {
            return;
        }
        let ghost s = self.text@;
        let start = char_byte_index(self.text.text.as_str(), self.char_idx);
        let end = char_byte_index(self.text.text.as_str(), self.char_idx + 1);
        proof {
            let g = graphemes(s);
            let k = self.char_idx as int;
            lemma_cluster_boundary(s, g, k);
            lemma_cluster_boundary(s, g, k + 1);
            lemma_cluster_boundary(s, g, g.len() as int);
            assert(g.take(g.len() as int) =~= g);
            lemma_upto_step(g, k);
            reveal_strlit("");
        }
        string_replace_range(&mut self.text.text, start, end, "");
        proof {
            reveal_strlit("");
            assert(self.text@ =~= s.subrange(0, char_start(s, old(self).char_idx())) + s.subrange(
                char_start(s, old(self).char_idx() + 1),
                s.len() as int,
            ));
        }
        let count = self.char_count();
        self.char_idx = if self.char_idx < count {
            self.char_idx
        } else {
            count
        };
    }

    /// Retrieve the cursor, in display columns.
    pub fn cursor(&self) -> (res: Cursor)
        ensures
            res@ == cursor_index_of(self@, char_byte_index_of(self@, self.char_idx())),
    {
        let text = self.text.text.as_str();
        let byte_idx = char_byte_index(text, self.char_idx);
        cursor_index(text, byte_idx)
    }

    /// Retrieve the cursor position expressed as a byte index.
    pub fn cursor_byte_index(&self) -> (res: usize)
        ensures
            res == char_byte_index_of(self@, self.char_idx()),
    {
        char_byte_index(self.text.text.as_str(), self.char_idx)
    }

    /// Select the character at or before the given byte index. Setting
    /// the cursor to the byte index it is at leaves it where it is.
    pub fn set_cursor_byte_index(&mut self, byte_index: usize)
        requires
            old(self).wf(),
        ensures
            final(self)@ == old(self)@,
            final(self).char_idx() == char_index_of(old(self)@, byte_index as nat),
            final(self).wf(),
            byte_index == char_byte_index_of(old(self)@, old(self).char_idx()) ==> final(self).char_idx()
                == old(self).char_idx(),
            char_byte_index_of(old(self)@, final(self).char_idx()) <= byte_index,
            forall|k: nat|
                k <= char_count_of(old(self)@) && #[trigger] char_byte_index_of(old(self)@, k) <= byte_index ==> k
                    <= final(self).char_idx(),
    {
        self.char_idx = char_index(self.text.text.as_str(), byte_index);
        proof {
            let gs = graphemes(self.text@);
            lemma_clusters_within_bound(gs, byte_index as nat, 0);
            lemma_clusters_within_largest(gs, byte_index as nat, 0);
            assert(gs.take(gs.len() as int) =~= gs);
            assert forall|k: nat|
                k <= char_count_of(old(self)@) && #[trigger] char_byte_index_of(old(self)@, k) <= byte_index implies k
                    <= self.char_idx() by {
                if k == gs.len() {
                    assert(char_byte_index_of(old(self)@, k) == bytes_upto(gs, k as int));
                }
            }
            let c = old(self).char_idx() as int;
            if c == gs.len() {
                assert(gs.take(c) =~= gs);
            }
            lemma_clusters_within_upto(gs, c, 0);
        }
    }

    /// Convert the object into a `String`, discarding the cursor.
    pub fn into_string(self) -> (res: String)
        ensures
            res@ == self@,
    {
        self.text.into_string()
    }
}

/// The byte length of a non-empty string is positive.
proof fn lemma_byte_len_positive(s: Seq<char>)
    requires
        s.len() > 0,
    ensures
        byte_len(s) > 0,
{
}

/// The byte indexes of cluster boundaries grow with the number of
/// clusters before them.
pub proof fn lemma_bytes_upto_mono(gs: Seq<Seq<char>>, i: int, j: int)
    requires
        0 <= i <= j <= gs.len(),
    ensures
        bytes_upto(gs, i) <= bytes_upto(gs, j),
    decreases j - i,
{
    if i < j {
        lemma_upto_step(gs, i);
        lemma_bytes_upto_mono(gs, i + 1, j);
    }
}

/// Of non-empty clusters, exactly the first `c` end at or before the
/// byte index at which the `c`th starts.
proof fn lemma_clusters_within_upto(gs: Seq<Seq<char>>, c: int, j: int)
    requires
        forall|i: int| 0 <= i < gs.len() ==> #[trigger] gs[i].len() > 0,
        0 <= j <= c <= gs.len(),
    ensures
        clusters_within(gs, bytes_upto(gs, c), j) == c,
    decreases gs.len() - j,
{
    if j < c {
        lemma_bytes_upto_mono(gs, j + 1, c);
        lemma_clusters_within_upto(gs, c, j + 1);
    } else if j < gs.len() {
        lemma_upto_step(gs, j);
        lemma_byte_len_positive(gs[j]);
    }
}

/// The index of the cluster at which a cursor's byte index lies is
/// within the clusters.
proof fn lemma_first_reaching_bound(gs: Seq<Seq<char>>, cursor: nat, j: int)
    requires
        0 <= j <= gs.len(),
    ensures
        j <= first_reaching(gs, cursor, j) <= gs.len(),
    decreases gs.len() - j,
{
    if j < gs.len() && display_widths_upto(gs, j) < cursor {
        lemma_first_reaching_bound(gs, cursor, j + 1);
    }
}

/// The text before the byte index of a cursor and the text from it join
/// to the whole text, where the clusters make up the text.
proof fn lemma_substr_split(s: Seq<char>, cursor: Cursor)
    requires
        concat(graphemes(s)) == s,
    ensures
        substr_of(s, CursorRange::To(cursor)) + substr_of(s, CursorRange::From(cursor)) == s,
{
    let gs = graphemes(s);
    let k = first_reaching(gs, cursor@, 0);
    lemma_first_reaching_bound(gs, cursor@, 0);
    lemma_cluster_boundary(s, gs, k);
    assert(s.take(0) =~= Seq::<char>::empty());
    lemma_char_pos(s, 0);
    assert(s.take(s.len() as int) =~= s);
    lemma_char_pos(s, s.len() as int);
    let b = bytes_upto(gs, k) as int;
    assert(byte_range_ok(s, 0, b));
    assert(byte_range_ok(s, b, byte_len(s) as int));
    assert(s.subrange(0, char_pos(s, b)) + s.subrange(char_pos(s, b), s.len() as int) =~= s);
}

/// The clusters that end at or before `byte_idx`, counted from the
/// `j`th on, end at or before it together, and no more clusters do.
proof fn lemma_clusters_within_largest(gs: Seq<Seq<char>>, byte_idx: nat, j: int)
    requires
        0 <= j <= gs.len(),
        bytes_upto(gs, j) <= byte_idx,
    ensures
        bytes_upto(gs, clusters_within(gs, byte_idx, j)) <= byte_idx,
        forall|k: int| j <= k <= gs.len() && bytes_upto(gs, k) <= byte_idx ==> k <= clusters_within(gs, byte_idx, j),
    decreases gs.len() - j,
{
    if j < gs.len() && bytes_upto(gs, j + 1) <= byte_idx {
        lemma_clusters_within_largest(gs, byte_idx, j + 1);
    } else {
        assert forall|k: int| j <= k <= gs.len() && bytes_upto(gs, k) <= byte_idx implies k <= j by {
            if k > j {
                lemma_bytes_upto_mono(gs, j + 1, k);
            }
        }
    }
}

pub(crate) proof fn lemma_clusters_within_bound(gs: Seq<Seq<char>>, byte_idx: nat, j: int)
    requires
        0 <= j <= gs.len(),
    ensures
        j <= clusters_within(gs, byte_idx, j) <= gs.len(),
    decreases gs.len() - j,
{
    if j < gs.len() && bytes_upto(gs, j + 1) <= byte_idx {
        lemma_clusters_within_bound(gs, byte_idx, j + 1);
    }
}

/// The words of a string, separated on Unicode word boundaries, with the
/// byte indexes at which they start, as
/// `UnicodeSegmentation::unicode_word_indices` yields them.
pub uninterp spec fn unicode_words(s: Seq<char>) -> Seq<(usize, Seq<char>)>;

/// Split a string into its words with their byte indexes
/// (`UnicodeSegmentation::unicode_word_indices`). Each word is the slice
/// of the string at its byte index, and the words come in order without
/// overlapping.
#[verifier::external_body]
fn word_indices(s: &str) -> (res: Vec<(usize, String)>)
    ensures
        res@.map_values(|e: (usize, String)| (e.0, e.1@)) == unicode_words(s@),
        forall|i: int|
            #![trigger res@[i]]
            0 <= i < res@.len() ==> byte_range_ok(s@, res@[i].0 as int, res@[i].0 + byte_len(res@[i].1@))
                && byte_range(s@, res@[i].0 as int, res@[i].0 + byte_len(res@[i].1@)) == res@[i].1@,
        forall|i: int, j: int|
            #![trigger res@[i], res@[j]]
            0 <= i < j < res@.len() ==> res@[i].0 + byte_len(res@[i].1@) <= res@[j].0,
{
    s.unicode_word_indices().map(|(idx, word)| (idx, String::from(word))).collect()
}

/// The word wrapping state after the words of `ws` from the `i`th on:
/// the byte index and width up to which words fit, and the byte index up
/// to which non-word characters may still be taken in.
pub open spec fn wrap_fold(
    s: Seq<char>,
    ws: Seq<(usize, Seq<char>)>,
    max: nat,
    i: int,
    last: int,
    last_width: int,
) -> (int, int, int)
    decreases ws.len() - i,
{
    if i < 0 || i >= ws.len() {
        (last, last_width, byte_len(s) as int)
    } else {
        let b = ws[i].0 as int;
        let word = ws[i].1;
        let total = last_width + display_width_of(byte_range(s, last, b));
        if total > max {
            (last, last_width, b)
        } else if total + display_width_of(word) > max {
            if last != 0 {
                (b, total, b)
            } else {
                (b, total, b + byte_len(word))
            }
        } else {
            wrap_fold(s, ws, max, i + 1, b + byte_len(word), total + display_width_of(word))
        }
    }
}

/// The byte index at which `s` gets wrapped to `max` columns.
pub open spec fn wrap_at(s: Seq<char>, max: nat) -> int {
    let (last, last_width, end) = wrap_fold(s, unicode_words(s), max, 0, 0, 0);
    let room: nat = if last_width <= max {
        (max - last_width) as nat
    } else {
        0
    };
    last + byte_len(clip_of(byte_range(s, last, end), room))
}

/// A prefix of a slice of `s` that starts at a boundary ends at a
/// boundary of `s`.
proof fn lemma_slice_prefix_boundary(s: Seq<char>, start: int, end: int, p: int)
    requires
        byte_range_ok(s, start, end),
        0 <= p <= byte_range(s, start, end).len(),
    ensures
        is_boundary(s, start + byte_len(byte_range(s, start, end).take(p))),
        char_pos(s, start + byte_len(byte_range(s, start, end).take(p))) == char_pos(s, start) + p,
{
    lemma_char_pos_mono(s, start, end);
    let a = char_pos(s, start);
    let piece = byte_range(s, start, end);
    assert(s.take(a + p) =~= s.take(a) + piece.take(p));
    lemma_byte_len_concat(s.take(a), piece.take(p));
    lemma_char_pos(s, a + p);
}

/// Boundaries are ordered as their character positions.
proof fn lemma_char_pos_mono(s: Seq<char>, x: int, y: int)
    requires
        is_boundary(s, x),
        is_boundary(s, y),
        x <= y,
    ensures
        0 <= char_pos(s, x) <= char_pos(s, y) <= s.len(),
        byte_len(s.take(char_pos(s, x))) == x,
{
    let p = char_pos(s, x);
    let q = char_pos(s, y);
    if q < p {
        lemma_byte_len_take_mono(s, q, p);
    }
}

/// A boundary lies within the string.
pub(crate) proof fn lemma_boundary_le(s: Seq<char>, x: int)
    requires
        is_boundary(s, x),
    ensures
        x <= byte_len(s),
        0 <= char_pos(s, x) <= s.len(),
        byte_len(s.take(char_pos(s, x))) == x,
{
    let p = char_pos(s, x);
    assert(s.take(p) + s.skip(p) =~= s);
    lemma_byte_len_concat(s.take(p), s.skip(p));
}

/// Fold the words of `string` into the wrapping state: the byte index and
/// width up to which words fit, and the byte index up to which non-word
/// characters may still be taken in.
fn wrap_words(string: &str, max_width: Width) -> (res: (usize, Width, usize))
    ensures
        wrap_fold(string@, unicode_words(string@), max_width@, 0, 0, 0) == (res.0 as int, res.1@ as int, res.2 as int),
        byte_range_ok(string@, res.0 as int, res.2 as int),
        res.2 <= byte_len(string@) <= isize::MAX,
        res.1@ <= max_width@,
{
    let len = str_len(string);
    let words = word_indices(string);
    let ghost s = string@;
    let ghost ws = unicode_words(s);
    let ghost max = max_width@;
    proof {
        lemma_byte_len_at_least_len(s);
        lemma_char_pos(s, 0);
        assert(s.take(0) =~= Seq::<char>::empty());
        lemma_char_pos(s, s.len() as int);
        assert(s.take(s.len() as int) =~= s);
        assert forall|k: int| 0 <= k < words@.len() implies #[trigger] ws[k] == (words@[k].0, words@[k].1@) by {
            assert(words@.map_values(|e: (usize, String)| (e.0, e.1@))[k] == (words@[k].0, words@[k].1@));
        }
    }
    let mut last: usize = 0;
    let mut last_width = Width::from(0);
    let mut i: usize = 0;
    while i < words.len()
        invariant
            s == string@,
            ws == unicode_words(s),
            max == max_width@,
            len == byte_len(s) <= isize::MAX,
            s.len() <= byte_len(s),
            is_boundary(s, len as int),
            words@.len() == ws.len(),
            forall|k: int| 0 <= k < words@.len() ==> #[trigger] ws[k] == (words@[k].0, words@[k].1@),
            forall|k: int|
                #![trigger words@[k]]
                0 <= k < words@.len() ==> byte_range_ok(s, words@[k].0 as int, words@[k].0 + byte_len(words@[k].1@))
                    && byte_range(s, words@[k].0 as int, words@[k].0 + byte_len(words@[k].1@)) == words@[k].1@,
            forall|k: int, l: int|
                #![trigger words@[k], words@[l]]
                0 <= k < l < words@.len() ==> words@[k].0 + byte_len(words@[k].1@) <= words@[l].0,
            i <= words@.len(),
            is_boundary(s, last as int),
            last <= len,
            i > 0 ==> last == words@[i - 1].0 + byte_len(words@[i - 1].1@),
            i == 0 ==> last == 0,
            last_width@ <= 2 * char_pos(s, last as int),
            char_pos(s, last as int) <= s.len(),
            wrap_fold(s, ws, max, 0, 0, 0) == wrap_fold(s, ws, max, i as int, last as int, last_width@ as int),
            last_width@ <= max,
        decreases words@.len() - i,
    {
        let b = words[i].0;
        let word = words[i].1.as_str();
        proof {
            if i > 0 {
                assert(words@[i - 1].0 + byte_len(words@[i - 1].1@) <= words@[i as int].0);
            }
            assert(byte_range_ok(s, b as int, b + byte_len(word@)));
            lemma_boundary_le(s, b + byte_len(word@));
            lemma_char_pos_mono(s, last as int, b as int);
            lemma_char_pos_mono(s, b as int, b + byte_len(word@));
            assert(ws[i as int] == (b, word@));
        }
        let piece = get(string, last, b);
        let piece_width = piece.display_width();
        let word_bytes = str_len(word);
        let word_width = word.display_width();
        let total = last_width + piece_width;
        if total.0 > max_width.0 {
            return (last, last_width, b);
        } else if total.0 + word_width.0 > max_width.0 {
            if last != 0 {
                return (b, total, b);
            } else {
                return (b, total, b + word_bytes);
            }
        } else {
            last = b + word_bytes;
            last_width = total + word_width;
            i += 1;
        }
    }
    (last, last_width, len)
}

/// Wrap `string` to at most `max_width` columns, at a word boundary.
///
/// Returns the potentially split input string and the remainder of
/// `string` that did not fit, if any. A single word that exceeds
/// `max_width` is split within; newlines are not treated specially; only
/// a single wrap is performed, so the remainder may be wider than
/// `max_width`.
pub fn wrap(string: &str, max_width: Width) -> (res: (&str, Option<&str>))
    requires
        max_width@ > 0,
    ensures
        wrap_at(string@, max_width@) == byte_len(string@) ==> res.0@ == string@ && res.1 is None,
        wrap_at(string@, max_width@) != byte_len(string@) ==> (res.1 matches Some(rest) && rest@
            == byte_range(string@, wrap_at(string@, max_width@), byte_len(string@) as int) && res.0@
            == byte_range(string@, 0, wrap_at(string@, max_width@))),
        res.0@ + match res.1 {
            Some(rest) => rest@,
            None => Seq::empty(),
        } == string@,
{
    let ghost s = string@;
    let len = str_len(string);
    let (last, last_width, end) = wrap_words(string, max_width);
    let non_words = get(string, last, end);
    let room = max_width - last_width;
    let clipped = clip(non_words, room);
    let ghost piece = byte_range(s, last as int, end as int);
    proof {
        lemma_clip_is_prefix(piece, room@);
        lemma_slice_prefix_boundary(s, last as int, end as int, clip_of(piece, room@).len() as int);
        lemma_char_pos_mono(s, last as int, end as int);
        lemma_boundary_le(s, end as int);
    }
    let clipped_bytes = str_len(clipped);
    let at = last + clipped_bytes;
    proof {
        lemma_char_pos(s, s.len() as int);
        assert(s.take(s.len() as int) =~= s);
        lemma_char_pos(s, 0);
        assert(s.take(0) =~= Seq::<char>::empty());
        lemma_boundary_le(s, at as int);
    }
    if at == len {
        proof {
            assert(s.subrange(0, s.len() as int) =~= s);
        }
        (string, None)
    } else {
        let first = get(string, 0, at);
        let rest = get(string, at, len);
        proof {
            assert(s.subrange(0, char_pos(s, at as int)) + s.subrange(char_pos(s, at as int), s.len() as int) =~= s);
        }
        (first, Some(rest))
    }
}

/// A clipped string is a prefix of it.
proof fn lemma_clip_is_prefix(s: Seq<char>, max_width: nat)
    requires
        concat(graphemes(s)) == s,
    ensures
        clip_of(s, max_width).len() <= s.len(),
        clip_of(s, max_width) == s.take(clip_of(s, max_width).len() as int),
{
    let g = graphemes(s);
    let k = first_exceeding(g, max_width, 0);
    lemma_first_exceeding_bound(g, max_width, 0);
    lemma_concat_take_prefix(g, k);
}

proof fn lemma_first_exceeding_bound(gs: Seq<Seq<char>>, max: nat, j: int)
    requires
        0 <= j <= gs.len(),
    ensures
        j <= first_exceeding(gs, max, j) <= gs.len(),
    decreases gs.len() - j,
{
    if j < gs.len() && display_widths_upto(gs, j + 1) <= max {
        lemma_first_exceeding_bound(gs, max, j + 1);
    }
}

} // verus!
