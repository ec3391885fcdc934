//! Conversions between strings and character vectors, and decimal
//! number handling on characters.

use vstd::prelude::*;

verus! {

/// Collect the characters of a string into a vector.
pub fn chars_of(s: &str) -> (res: Vec<char>)
    ensures
        res@ == s@,
{
    let mut res: Vec<char> = Vec::new();
    for c in it: s.chars()
        invariant
            res@ == it.seq().take(it.index() as int),
    {
        res.push(c);
    }
    res
}

/// Build a `String` from a sequence of characters (`String`'s
/// `FromIterator<&char>` implementation).
#[verifier::external_body]
pub(crate) fn string_from_chars(chars: &Vec<char>) -> (res: String)
    ensures
        res@ == chars@,
{
    chars.iter().collect()
}

/// Whether a character is an ASCII decimal digit.
pub open spec fn is_digit(c: char) -> bool {
    '0' <= c <= '9'
}

/// The numeric value of an ASCII decimal digit.
pub open spec fn digit_value(c: char) -> nat {
    ((c as int) - ('0' as int)) as nat
}

/// The digit character representing a number below ten.
pub open spec fn digit_char(d: nat) -> char {
    (d + ('0' as int)) as char
}

/// The value of a sequence of decimal digits, most significant first.
pub open spec fn digits_value(s: Seq<char>) -> nat
    decreases s.len(),
{
    if s.len() == 0 {
        0
    } else {
        digits_value(s.drop_last()) * 10 + digit_value(s.last())
    }
}

/// The decimal representation of a number, without leading zeros.
pub open spec fn decimal(n: nat) -> Seq<char>
    decreases n,
{
    if n < 10 {
        seq![digit_char(n)]
    } else {
        decimal(n / 10).push(digit_char(n % 10))
    }
}

/// The index of the first character at or after `i` that is not a
/// digit (or the length of `s`).
pub open spec fn digits_end(s: Seq<char>, i: int) -> int
    decreases s.len() - i,
{
    if 0 <= i < s.len() && is_digit(s[i]) {
        digits_end(s, i + 1)
    } else {
        i
    }
}

/// The index of the first character at or after `i` that is not a
/// space (or the length of `s`).
pub open spec fn spaces_end(s: Seq<char>, i: int) -> int
    decreases s.len() - i,
{
    if 0 <= i < s.len() && s[i] == ' ' {
        spaces_end(s, i + 1)
    } else {
        i
    }
}

pub proof fn lemma_digits_end_bounds(s: Seq<char>, i: int)
    requires
        0 <= i <= s.len(),
    ensures
        i <= digits_end(s, i) <= s.len(),
        forall|j: int| i <= j < digits_end(s, i) ==> is_digit(#[trigger] s[j]),
        digits_end(s, i) < s.len() ==> !is_digit(s[digits_end(s, i)]),
    decreases s.len() - i,
{
    if i < s.len() && is_digit(s[i]) {
        lemma_digits_end_bounds(s, i + 1);
    }
}

pub proof fn lemma_spaces_end_bounds(s: Seq<char>, i: int)
    requires
        0 <= i <= s.len(),
    ensures
        i <= spaces_end(s, i) <= s.len(),
        forall|j: int| i <= j < spaces_end(s, i) ==> #[trigger] s[j] == ' ',
        spaces_end(s, i) < s.len() ==> s[spaces_end(s, i)] != ' ',
    decreases s.len() - i,
{
    if i < s.len() && s[i] == ' ' {
        lemma_spaces_end_bounds(s, i + 1);
    }
}

/// Find the end of the run of digits starting at `i`.
pub fn scan_digits(s: &Vec<char>, i: usize) -> (end: usize)
    requires
        i <= s.len(),
    ensures
        end as int == digits_end(s@, i as int),
        i <= end <= s.len(),
{
    let mut j = i;
    while j < s.len() && '0' <= s[j] && s[j] <= '9'
        invariant
            i <= j <= s.len(),
            digits_end(s@, i as int) == digits_end(s@, j as int),
        decreases s.len() - j,
    {
        j = j + 1;
    }
    j
}

/// Find the end of the run of spaces starting at `i`.
pub fn scan_spaces(s: &Vec<char>, i: usize) -> (end: usize)
    requires
        i <= s.len(),
    ensures
        end as int == spaces_end(s@, i as int),
        i <= end <= s.len(),
{
    let mut j = i;
    while j < s.len() && s[j] == ' '
        invariant
            i <= j <= s.len(),
            spaces_end(s@, i as int) == spaces_end(s@, j as int),
        decreases s.len() - j,
    {
        j = j + 1;
    }
    j
}

/// Compute the value of the digits in `s[start..end]`, provided it fits
/// in a `u64`.
pub fn digits_to_u64(s: &Vec<char>, start: usize, end: usize) -> (res: Option<u64>)
    requires
        start <= end <= s.len(),
        forall|j: int| start <= j < end ==> is_digit(#[trigger] s@[j]),
    ensures
        match res {
            Some(v) => v == digits_value(s@.subrange(start as int, end as int)),
            None => digits_value(s@.subrange(start as int, end as int)) > u64::MAX,
        },
{
    let mut value: u64 = 0;
    let mut j = start;
    while j < end
        invariant
            start <= j <= end <= s.len(),
            forall|k: int| start <= k < end ==> is_digit(#[trigger] s@[k]),
            value == digits_value(s@.subrange(start as int, j as int)),
        decreases end - j,
    {
        let ghost prefix = s@.subrange(start as int, j as int);
        let ghost next = s@.subrange(start as int, j + 1);
        assert(next.drop_last() =~= prefix);
        assert(next.last() == s@[j as int]);
        let d = (s[j] as u32 - '0' as u32) as u64;
        assert(d == digit_value(s@[j as int]));
        match value.checked_mul(10) {
            Some(m) => match m.checked_add(d) {
                Some(v) => {
                    value = v;
                },
                None => {
                    proof {
                        lemma_digits_value_prefix_monotone(s@.subrange(start as int, end as int), j + 1 - start);
                        assert(s@.subrange(start as int, end as int).take(j + 1 - start) =~= next);
                    }
                    return None;
                },
            },
            None => {
                proof {
                    lemma_digits_value_prefix_monotone(s@.subrange(start as int, end as int), j + 1 - start);
                    assert(s@.subrange(start as int, end as int).take(j + 1 - start) =~= next);
                }
                return None;
            },
        }
        j = j + 1;
    }
    Some(value)
}

/// Compute the value of the digits in `s[start..end]`, provided it fits
/// in a `usize`.
pub fn digits_to_usize(s: &Vec<char>, start: usize, end: usize) -> (res: Option<usize>)
    requires
        start <= end <= s.len(),
        forall|j: int| start <= j < end ==> is_digit(#[trigger] s@[j]),
    ensures
        match res {
            Some(v) => v == digits_value(s@.subrange(start as int, end as int)),
            None => digits_value(s@.subrange(start as int, end as int)) > usize::MAX,
        },
{
    match digits_to_u64(s, start, end) {
        Some(v) => {
            if v <= usize::MAX as u64 {
                Some(v as usize)
            } else {
                None
            }
        },
        None => None,
    }
}

/// A prefix of a digit sequence has no larger a value than the whole.
pub proof fn lemma_digits_value_prefix_monotone(s: Seq<char>, k: int)
    requires
        0 <= k <= s.len(),
    ensures
        digits_value(s.take(k)) <= digits_value(s),
    decreases s.len() - k,
{
    if k < s.len() {
        lemma_digits_value_prefix_monotone(s, k + 1);
        let t = s.take(k + 1);
        assert(t.drop_last() =~= s.take(k));
        assert(digits_value(t) == digits_value(s.take(k)) * 10 + digit_value(t.last()));
    } else {
        assert(s.take(k) =~= s);
    }
}

} // verus!
