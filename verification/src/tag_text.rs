//! The text forms of tag identifiers and tag templates: an identifier is
//! written in decimal, a template as its identifier, a comma and its
//! name.

use vstd::prelude::*;

use crate::chars::chars_of;
use crate::chars::digits_to_usize;
use crate::chars::digits_value;
use crate::chars::decimal;
use crate::chars::is_digit;
use crate::chars::scan_digits;
use crate::chars::string_from_chars;
use crate::chars::digits_end;
use crate::chars::lemma_digits_end_bounds;
use crate::formula::lemma_decimal;
use crate::formula::push_decimal;

verus! {

/// The separator between a template's identifier and its name.
pub const TEMPLATE_COMPONENT_SEPARATOR: char = ',';

/// Why a text is not an identifier or a template.
#[derive(Clone, Copy, Debug, PartialEq, Eq, Structural)]
pub enum TextError {
    /// The text is not an optional `+` followed by decimal digits.
    NotANumber,
    /// The number does not fit a `usize`.
    TooLarge,
    /// The number is zero, which no identifier is.
    Zero,
    /// A template lacks the separator between identifier and name.
    MissingSeparator,
}

/// The digits of a number's text: the text without a leading `+`.
pub open spec fn digits_of(s: Seq<char>) -> Seq<char> {
    if s.len() > 0 && s[0] == '+' {
        s.drop_first()
    } else {
        s
    }
}

/// The identifier a text stands for, or why it stands for none.
pub open spec fn id_of_text(s: Seq<char>) -> Result<usize, TextError> {
    let d = digits_of(s);
    if d.len() == 0 || !(forall|i: int| 0 <= i < d.len() ==> is_digit(#[trigger] d[i])) {
        Err(TextError::NotANumber)
    } else if digits_value(d) > usize::MAX {
        Err(TextError::TooLarge)
    } else if digits_value(d) == 0 {
        Err(TextError::Zero)
    } else {
        Ok(digits_value(d) as usize)
    }
}

/// Whether `s` holds the separator of template components.
pub open spec fn has_separator(s: Seq<char>) -> bool {
    exists|i: int| 0 <= i < s.len() && s[i] == TEMPLATE_COMPONENT_SEPARATOR
}

/// The position of the first separator of template components in `s`.
pub open spec fn first_separator(s: Seq<char>) -> int {
    choose|i: int|
        0 <= i < s.len() && s[i] == TEMPLATE_COMPONENT_SEPARATOR && forall|j: int|
            0 <= j < i ==> s[j] != TEMPLATE_COMPONENT_SEPARATOR
}

/// The template, as identifier and name, a text stands for: the text up
/// to the first separator is the identifier, the rest is the name.
pub open spec fn template_of_text(s: Seq<char>) -> Result<(usize, Seq<char>), TextError> {
    if !has_separator(s) {
        Err(TextError::MissingSeparator)
    } else {
        let k = first_separator(s);
        match id_of_text(s.take(k)) {
            Ok(id) => Ok((id, s.skip(k + 1))),
            Err(e) => Err(e),
        }
    }
}

/// The text of a template with identifier `id` and name `name`.
pub open spec fn template_text(id: usize, name: Seq<char>) -> Seq<char> {
    decimal(id as nat).push(TEMPLATE_COMPONENT_SEPARATOR) + name
}

/// Parse the identifier in `s[start..end]`.
fn parse_id_in(s: &Vec<char>, start: usize, end: usize) -> (res: Result<usize, TextError>)
    requires
        start <= end <= s@.len(),
    ensures
        res == id_of_text(s@.subrange(start as int, end as int)),
{
    let ghost t = s@.subrange(start as int, end as int);
    let mut from = start;
    if start < end && s[start] == '+' {
        from = start + 1;
    }
    proof {
        assert(digits_of(t) =~= s@.subrange(from as int, end as int));
        lemma_digits_end_bounds(s@, from as int);
    }
    if from == end {
        return Err(TextError::NotANumber);
    }
    let stop = scan_digits(s, from);
    if stop < end {
        proof {
            let d = digits_of(t);
            assert(!is_digit(s@[stop as int]));
            assert(d[stop - from] == s@[stop as int]);
        }
        return Err(TextError::NotANumber);
    }
    let stop = end;
    proof {
        let d = digits_of(t);
        assert forall|i: int| 0 <= i < d.len() implies is_digit(#[trigger] d[i]) by {
            assert(d[i] == s@[from + i]);
        }
        assert(s@.subrange(from as int, stop as int) == d);
    }
    match digits_to_usize(s, from, stop) {
        None => Err(TextError::TooLarge),
        Some(0) => Err(TextError::Zero),
        Some(v) => Ok(v),
    }
}

/// Parse an identifier from its text.
pub fn parse_id(s: &str) -> (res: Result<usize, TextError>)
    ensures
        res == id_of_text(s@),
{
    let chars = chars_of(s);
    let res = parse_id_in(&chars, 0, chars.len());
    proof {
        assert(chars@.subrange(0, chars@.len() as int) =~= s@);
    }
    res
}

/// The text of an identifier: its decimal representation.
pub fn emit_id(id: usize) -> (res: String)
    ensures
        res@ == decimal(id as nat),
{
    let mut chars: Vec<char> = Vec::new();
    push_decimal(id, &mut chars);
    string_from_chars(&chars)
}

/// Parse the template in `s[start..end]`.
fn parse_template_in(s: &Vec<char>, start: usize, end: usize) -> (res: Result<(usize, String), TextError>)
    requires
        start <= end <= s@.len(),
    ensures
        match (res, template_of_text(s@.subrange(start as int, end as int))) {
            (Ok((id, name)), Ok((spec_id, spec_name))) => id == spec_id && name@ == spec_name,
            (Err(e), Err(spec_e)) => e == spec_e,
            _ => false,
        },
{
    let ghost t = s@.subrange(start as int, end as int);
    let mut k: usize = start;
    while k < end && s[k] != TEMPLATE_COMPONENT_SEPARATOR
        invariant
            start <= k <= end,
            end <= s@.len(),
            forall|j: int| start <= j < k ==> s@[j] != TEMPLATE_COMPONENT_SEPARATOR,
        decreases end - k,
    {
        k += 1;
    }
    if k == end {
        proof {
            assert(!has_separator(t)) by {
                if has_separator(t) {
                    let i = choose|i: int| 0 <= i < t.len() && t[i] == TEMPLATE_COMPONENT_SEPARATOR;
                    assert(t[i] == s@[start + i]);
                }
            }
        }
        return Err(TextError::MissingSeparator);
    }
    proof {
        assert(t[k - start] == TEMPLATE_COMPONENT_SEPARATOR);
        assert(has_separator(t));
        let f = first_separator(t);
        assert forall|j: int| 0 <= j < k - start implies t[j] != TEMPLATE_COMPONENT_SEPARATOR by {
            assert(t[j] == s@[start + j]);
        }
        if f < k - start {
        } else if f > k - start {
        }
        assert(f == k - start);
        assert(s@.subrange(start as int, k as int) =~= t.take(k - start));
    }
    match parse_id_in(s, start, k) {
        Err(e) => Err(e),
        Ok(id) => {
            let mut rest: Vec<char> = Vec::new();
            let mut i = k + 1;
            while i < end
                invariant
                    k + 1 <= i <= end,
                    end <= s@.len(),
                    rest@ == s@.subrange(k + 1, i as int),
                decreases end - i,
            {
                rest.push(s[i]);
                i += 1;
            }
            proof {
                assert(rest@ =~= t.skip(k - start + 1));
            }
            Ok((id, string_from_chars(&rest)))
        },
    }
}

/// Parse a template, as identifier and name, from its text.
pub fn parse_template(s: &str) -> (res: Result<(usize, String), TextError>)
    ensures
        match (res, template_of_text(s@)) {
            (Ok((id, name)), Ok((spec_id, spec_name))) => id == spec_id && name@ == spec_name,
            (Err(e), Err(spec_e)) => e == spec_e,
            _ => false,
        },
{
    let chars = chars_of(s);
    proof {
        assert(chars@.subrange(0, chars@.len() as int) =~= s@);
    }
    parse_template_in(&chars, 0, chars.len())
}

/// The text of a template with identifier `id` and name `name`.
pub fn emit_template(id: usize, name: &str) -> (res: String)
    ensures
        res@ == template_text(id, name@),
{
    let mut chars: Vec<char> = Vec::new();
    push_decimal(id, &mut chars);
    chars.push(TEMPLATE_COMPONENT_SEPARATOR);
    let name_chars = chars_of(name);
    let mut i: usize = 0;
    let ghost head = chars@;
    while i < name_chars.len()
        invariant
            i <= name_chars@.len(),
            chars@ == head + name_chars@.take(i as int),
        decreases name_chars@.len() - i,
    {
        chars.push(name_chars[i]);
        proof {
            assert(name_chars@.take(i + 1) =~= name_chars@.take(i as int).push(name_chars@[i as int]));
        }
        i += 1;
    }
    proof {
        assert(name_chars@.take(name_chars@.len() as int) =~= name_chars@);
    }
    string_from_chars(&chars)
}

/// Reading the text of a positive identifier gives the identifier back.
pub proof fn lemma_id_roundtrip(id: usize)
    requires
        id > 0,
    ensures
        id_of_text(decimal(id as nat)) == Ok::<usize, TextError>(id),
{
    lemma_decimal(id as nat);
    let d = decimal(id as nat);
    assert(d[0] != '+') by {
        assert(is_digit(d[0]));
    }
    assert(digits_of(d) == d);
}

/// Reading the text of a template with a positive identifier gives the
/// identifier and the name back, whatever the name holds.
pub proof fn lemma_template_roundtrip(id: usize, name: Seq<char>)
    requires
        id > 0,
    ensures
        template_of_text(template_text(id, name)) == Ok::<(usize, Seq<char>), TextError>((id, name)),
{
    lemma_decimal(id as nat);
    lemma_id_roundtrip(id);
    let d = decimal(id as nat);
    let s = template_text(id, name);
    let k = d.len() as int;
    assert(s[k] == TEMPLATE_COMPONENT_SEPARATOR);
    assert(has_separator(s));
    let f = first_separator(s);
    assert forall|j: int| 0 <= j < k implies s[j] != TEMPLATE_COMPONENT_SEPARATOR by {
        assert(s[j] == d[j]);
        assert(is_digit(d[j]));
    }
    if f < k {
    } else if f > k {
    }
    assert(f == k);
    assert(s.take(k) =~= d);
    assert(s.skip(k + 1) =~= name);
}

/// The separator between the items of a list.
pub const LIST_ITEM_SEPARATOR: char = '|';

/// The text of a non-empty list of identifiers: their texts, separated.
pub open spec fn list_text(ids: Seq<usize>) -> Seq<char>
    decreases ids.len(),
{
    if ids.len() <= 1 {
        decimal(ids[0] as nat)
    } else {
        decimal(ids[0] as nat).push(LIST_ITEM_SEPARATOR) + list_text(ids.drop_first())
    }
}

/// The position of the first list separator at or after `i` in `s`, or
/// the length of `s`.
pub open spec fn next_separator(s: Seq<char>, i: int) -> int
    decreases s.len() - i,
{
    if i >= s.len() || i < 0 {
        s.len() as int
    } else if s[i] == LIST_ITEM_SEPARATOR {
        i
    } else {
        next_separator(s, i + 1)
    }
}

/// The items of `s` from position `i` on, as split at list separators.
pub open spec fn items_from(s: Seq<char>, i: int) -> Seq<Seq<char>>
    decreases s.len() - i,
{
    let k = next_separator(s, i);
    if 0 <= i <= s.len() && k < s.len() && k >= i {
        seq![s.subrange(i, k)] + items_from(s, k + 1)
    } else {
        seq![s.subrange(i, s.len() as int)]
    }
}

/// The identifiers items stand for, or the first item's reason not to.
pub open spec fn ids_of_items(items: Seq<Seq<char>>) -> Result<Seq<usize>, TextError>
    decreases items.len(),
{
    if items.len() == 0 {
        Ok(Seq::empty())
    } else {
        match id_of_text(items[0]) {
            Err(e) => Err(e),
            Ok(v) => match ids_of_items(items.drop_first()) {
                Ok(rest) => Ok(seq![v] + rest),
                Err(e) => Err(e),
            },
        }
    }
}

/// The identifiers a list text stands for.
pub open spec fn list_of_text(s: Seq<char>) -> Result<Seq<usize>, TextError> {
    ids_of_items(items_from(s, 0))
}

proof fn lemma_next_separator(s: Seq<char>, i: int)
    requires
        0 <= i <= s.len(),
    ensures
        i <= next_separator(s, i) <= s.len(),
        next_separator(s, i) < s.len() ==> s[next_separator(s, i)] == LIST_ITEM_SEPARATOR,
        forall|j: int| i <= j < next_separator(s, i) ==> s[j] != LIST_ITEM_SEPARATOR,
    decreases s.len() - i,
{
    if i < s.len() && s[i] != LIST_ITEM_SEPARATOR {
        lemma_next_separator(s, i + 1);
    }
}

/// Emit the text of a list of identifiers, or `None` for an empty list.
pub fn emit_list(ids: &Vec<usize>) -> (res: Option<String>)
    ensures
        ids@.len() == 0 ==> res is None,
        ids@.len() > 0 ==> (res matches Some(text) && text@ == list_text(ids@)),
{
    if ids.len() == 0 {
        return None;
    }
    let mut chars: Vec<char> = Vec::new();
    let mut i = ids.len();
    // Build the text from the back: the text of the last `n - i` items.
    i = i - 1;
    push_decimal(ids[i], &mut chars);
    proof {
        assert(ids@.skip(i as int).len() == 1);
        assert(chars@ == list_text(ids@.skip(i as int)));
    }
    while i > 0
        invariant
            0 <= i < ids@.len(),
            chars@ == list_text(ids@.skip(i as int)),
        decreases i,
    {
        i = i - 1;
        let mut item: Vec<char> = Vec::new();
        push_decimal(ids[i], &mut item);
        item.push(LIST_ITEM_SEPARATOR);
        let mut j: usize = 0;
        let ghost head = item@;
        while j < chars.len()
            invariant
                j <= chars@.len(),
                item@ == head + chars@.take(j as int),
            decreases chars@.len() - j,
        {
            item.push(chars[j]);
            proof {
                assert(chars@.take(j + 1) =~= chars@.take(j as int).push(chars@[j as int]));
            }
            j += 1;
        }
        proof {
            assert(chars@.take(chars@.len() as int) =~= chars@);
            let rest = ids@.skip(i as int);
            assert(rest.drop_first() =~= ids@.skip(i + 1));
            assert(rest[0] == ids@[i as int]);
        }
        chars = item;
    }
    proof {
        assert(ids@.skip(0) =~= ids@);
    }
    Some(string_from_chars(&chars))
}

/// Parse a list of identifiers from its text; the first item that is no
/// identifier gives the error.
pub fn parse_list(s: &str) -> (res: Result<Vec<usize>, TextError>)
    ensures
        match (res, list_of_text(s@)) {
            (Ok(ids), Ok(spec_ids)) => ids@ == spec_ids,
            (Err(e), Err(spec_e)) => e == spec_e,
            _ => false,
        },
{
    let chars = chars_of(s);
    let mut ids: Vec<usize> = Vec::new();
    let mut pos: usize = 0;
    loop
        invariant
            chars@ == s@,
            pos <= chars@.len(),
            list_of_text(s@) == (match ids_of_items(items_from(s@, pos as int)) {
                Ok(rest) => Ok(ids@ + rest),
                Err(e) => Err(e),
            }),
        decreases chars@.len() - pos,
    {
        let mut k = pos;
        while k < chars.len() && chars[k] != LIST_ITEM_SEPARATOR
            invariant
                pos <= k <= chars@.len(),
                next_separator(s@, pos as int) == next_separator(s@, k as int),
                chars@ == s@,
            decreases chars@.len() - k,
        {
            k += 1;
        }
        proof {
            assert(next_separator(s@, k as int) == k);
        }
        let item = parse_id_in(&chars, pos, k);
        let ghost items = items_from(s@, pos as int);
        proof {
            assert(items[0] == s@.subrange(pos as int, k as int));
            assert(items.len() > 0);
        }
        match item {
            Err(e) => {
                return Err(e);
            },
            Ok(v) => {
                let ghost before = ids@;
                ids.push(v);
                if k == chars.len() {
                    proof {
                        assert(items =~= seq![s@.subrange(pos as int, k as int)]);
                        assert(items.drop_first() =~= Seq::<Seq<char>>::empty());
                        assert(ids_of_items(items.drop_first()) == Ok::<Seq<usize>, TextError>(Seq::empty()));
                        assert(before + (seq![v] + Seq::<usize>::empty()) =~= ids@);
                    }
                    return Ok(ids);
                }
                proof {
                    assert(items.drop_first() =~= items_from(s@, k + 1));
                    match ids_of_items(items_from(s@, k + 1)) {
                        Ok(rest) => {
                            assert(before + (seq![v] + rest) =~= ids@ + rest);
                        },
                        Err(_) => {},
                    }
                }
                pos = k + 1;
            },
        }
    }
}

/// The texts of identifiers, one each.
pub open spec fn id_texts(ids: Seq<usize>) -> Seq<Seq<char>> {
    ids.map_values(|id: usize| decimal(id as nat))
}

proof fn lemma_items_of_list_text(s: Seq<char>, i: int, ids: Seq<usize>)
    requires
        ids.len() > 0,
        0 <= i <= s.len(),
        s.subrange(i, s.len() as int) == list_text(ids),
    ensures
        items_from(s, i) == id_texts(ids),
    decreases ids.len(),
{
    let d = decimal(ids[0] as nat);
    lemma_decimal(ids[0] as nat);
    lemma_next_separator(s, i);
    let k = i + d.len();
    let lt = list_text(ids);
    if ids.len() > 1 {
        assert(lt == d.push(LIST_ITEM_SEPARATOR) + list_text(ids.drop_first()));
        assert(lt.len() > d.len());
    } else {
        assert(lt == d);
    }
    assert(s.subrange(i, s.len() as int).len() == s.len() - i);
    assert(k <= s.len());
    assert forall|j: int| 0 <= j < d.len() implies lt[j] == d[j] by {
        if ids.len() > 1 {
            assert(lt[j] == d.push(LIST_ITEM_SEPARATOR)[j]);
        }
    }
    assert forall|j: int| i <= j < k implies s[j] != LIST_ITEM_SEPARATOR by {
        assert(s[j] == s.subrange(i, s.len() as int)[j - i]);
        assert(list_text(ids)[j - i] == d[j - i]);
        assert(is_digit(d[j - i]));
    }
    if ids.len() == 1 {
        assert(s.subrange(i, s.len() as int) == d);
        assert(k == s.len());
        assert(next_separator(s, i) == s.len());
        assert(items_from(s, i) =~= id_texts(ids));
    } else {
        let rest = list_text(ids.drop_first());
        assert(s[k] == LIST_ITEM_SEPARATOR) by {
            assert(s[k] == s.subrange(i, s.len() as int)[k - i]);
        }
        assert(next_separator(s, i) == k);
        assert(s.subrange(i, k) =~= d) by {
            assert forall|j: int| 0 <= j < d.len() implies s.subrange(i, k)[j] == d[j] by {
                assert(s[i + j] == s.subrange(i, s.len() as int)[j]);
            }
        }
        assert(s.subrange(k + 1, s.len() as int) =~= rest) by {
            assert forall|j: int| 0 <= j < rest.len() implies s.subrange(k + 1, s.len() as int)[j] == rest[j] by {
                assert(s[k + 1 + j] == s.subrange(i, s.len() as int)[d.len() + 1 + j]);
            }
        }
        lemma_items_of_list_text(s, k + 1, ids.drop_first());
        assert(items_from(s, i) == seq![d] + items_from(s, k + 1));
        assert(id_texts(ids) =~= seq![d] + id_texts(ids.drop_first()));
    }
}

proof fn lemma_ids_of_id_texts(ids: Seq<usize>)
    requires
        forall|i: int| 0 <= i < ids.len() ==> #[trigger] ids[i] > 0,
    ensures
        ids_of_items(id_texts(ids)) == Ok::<Seq<usize>, TextError>(ids),
    decreases ids.len(),
{
    if ids.len() > 0 {
        lemma_id_roundtrip(ids[0]);
        assert(id_texts(ids).drop_first() =~= id_texts(ids.drop_first()));
        lemma_ids_of_id_texts(ids.drop_first());
        assert(seq![ids[0]] + ids.drop_first() =~= ids);
    } else {
        assert(id_texts(ids) =~= Seq::<Seq<char>>::empty());
        assert(ids =~= Seq::<usize>::empty());
    }
}

/// Reading the text of a non-empty list of positive identifiers gives
/// the identifiers back, in order.
pub proof fn lemma_list_roundtrip(ids: Seq<usize>)
    requires
        ids.len() > 0,
        forall|i: int| 0 <= i < ids.len() ==> #[trigger] ids[i] > 0,
    ensures
        list_of_text(list_text(ids)) == Ok::<Seq<usize>, TextError>(ids),
{
    let s = list_text(ids);
    assert(s.subrange(0, s.len() as int) =~= s);
    lemma_items_of_list_text(s, 0, ids);
    lemma_ids_of_id_texts(ids);
}

/// The templates items stand for, or the first item's reason not to.
pub open spec fn templates_of_items(items: Seq<Seq<char>>) -> Result<Seq<(usize, Seq<char>)>, TextError>
    decreases items.len(),
{
    if items.len() == 0 {
        Ok(Seq::empty())
    } else {
        match template_of_text(items[0]) {
            Err(e) => Err(e),
            Ok(t) => match templates_of_items(items.drop_first()) {
                Ok(rest) => Ok(seq![t] + rest),
                Err(e) => Err(e),
            },
        }
    }
}

/// The templates a list text stands for.
pub open spec fn template_list_of_text(s: Seq<char>) -> Result<Seq<(usize, Seq<char>)>, TextError> {
    templates_of_items(items_from(s, 0))
}

/// The text of a non-empty list of templates: their texts, separated.
pub open spec fn template_list_text(templates: Seq<(usize, Seq<char>)>) -> Seq<char>
    decreases templates.len(),
{
    if templates.len() <= 1 {
        template_text(templates[0].0, templates[0].1)
    } else {
        template_text(templates[0].0, templates[0].1).push(LIST_ITEM_SEPARATOR) + template_list_text(
            templates.drop_first(),
        )
    }
}

/// The templates as identifiers and names, as plain values.
pub open spec fn templates_view(templates: Seq<(usize, String)>) -> Seq<(usize, Seq<char>)> {
    templates.map_values(|t: (usize, String)| (t.0, t.1@))
}

/// Parse a list of templates from its text; the first item that is no
/// template gives the error.
#[verifier::rlimit(60)]
pub fn parse_template_list(s: &str) -> (res: Result<Vec<(usize, String)>, TextError>)
    ensures
        match (res, template_list_of_text(s@)) {
            (Ok(ts), Ok(spec_ts)) => templates_view(ts@) == spec_ts,
            (Err(e), Err(spec_e)) => e == spec_e,
            _ => false,
        },
{
    let chars = chars_of(s);
    let mut templates: Vec<(usize, String)> = Vec::new();
    let mut pos: usize = 0;
    loop
        invariant
            chars@ == s@,
            pos <= chars@.len(),
            template_list_of_text(s@) == (match templates_of_items(items_from(s@, pos as int)) {
                Ok(rest) => Ok(templates_view(templates@) + rest),
                Err(e) => Err(e),
            }),
        decreases chars@.len() - pos,
    {
        let mut k = pos;
        while k < chars.len() && chars[k] != LIST_ITEM_SEPARATOR
            invariant
                pos <= k <= chars@.len(),
                next_separator(s@, pos as int) == next_separator(s@, k as int),
                chars@ == s@,
            decreases chars@.len() - k,
        {
            k += 1;
        }
        proof {
            assert(next_separator(s@, k as int) == k);
        }
        let item = parse_template_in(&chars, pos, k);
        let ghost items = items_from(s@, pos as int);
        proof {
            assert(items[0] == s@.subrange(pos as int, k as int));
        }
        match item {
            Err(e) => {
                return Err(e);
            },
            Ok(t) => {
                let ghost before = templates@;
                let ghost tv = (t.0, t.1@);
                templates.push(t);
                proof {
                    assert(templates_view(templates@) =~= templates_view(before).push(tv));
                }
                if k == chars.len() {
                    proof {
                        assert(items =~= seq![s@.subrange(pos as int, k as int)]);
                        assert(items.drop_first() =~= Seq::<Seq<char>>::empty());
                        assert(templates_of_items(items.drop_first()) == Ok::<Seq<(usize, Seq<char>)>, TextError>(Seq::empty()));
                        assert(templates_view(before) + (seq![tv] + Seq::<(usize, Seq<char>)>::empty()) =~= templates_view(templates@));
                    }
                    return Ok(templates);
                }
                proof {
                    assert(items.drop_first() =~= items_from(s@, k + 1));
                    match templates_of_items(items_from(s@, k + 1)) {
                        Ok(rest) => {
                            assert(templates_view(before) + (seq![tv] + rest) =~= templates_view(templates@) + rest);
                        },
                        Err(_) => {},
                    }
                }
                pos = k + 1;
            },
        }
    }
}

/// Emit the text of a list of templates, or `None` for an empty list.
pub fn emit_template_list(templates: &Vec<(usize, String)>) -> (res: Option<String>)
    ensures
        templates@.len() == 0 ==> res is None,
        templates@.len() > 0 ==> (res matches Some(text) && text@ == template_list_text(templates_view(templates@))),
{
    if templates.len() == 0 {
        return None;
    }
    let ghost tv = templates_view(templates@);
    let mut i = templates.len() - 1;
    let last = emit_template(templates[i].0, templates[i].1.as_str());
    let mut chars = chars_of(last.as_str());
    proof {
        assert(tv.skip(i as int).len() == 1);
        assert(tv.skip(i as int)[0] == tv[i as int]);
        assert(chars@ == template_list_text(tv.skip(i as int)));
    }
    while i > 0
        invariant
            0 <= i < templates@.len(),
            tv == templates_view(templates@),
            chars@ == template_list_text(tv.skip(i as int)),
        decreases i,
    {
        i = i - 1;
        let head = emit_template(templates[i].0, templates[i].1.as_str());
        let mut item = chars_of(head.as_str());
        item.push(LIST_ITEM_SEPARATOR);
        let mut j: usize = 0;
        let ghost start = item@;
        while j < chars.len()
            invariant
                j <= chars@.len(),
                item@ == start + chars@.take(j as int),
            decreases chars@.len() - j,
        {
            item.push(chars[j]);
            proof {
                assert(chars@.take(j + 1) =~= chars@.take(j as int).push(chars@[j as int]));
            }
            j += 1;
        }
        proof {
            assert(chars@.take(chars@.len() as int) =~= chars@);
            let rest = tv.skip(i as int);
            assert(rest.drop_first() =~= tv.skip(i + 1));
            assert(rest[0] == tv[i as int]);
        }
        chars = item;
    }
    proof {
        assert(tv.skip(0) =~= tv);
    }
    Some(string_from_chars(&chars))
}

/// The texts of templates, one each.
pub open spec fn template_texts(templates: Seq<(usize, Seq<char>)>) -> Seq<Seq<char>> {
    templates.map_values(|t: (usize, Seq<char>)| template_text(t.0, t.1))
}

/// Whether no template name holds the list separator.
pub open spec fn names_unseparated(templates: Seq<(usize, Seq<char>)>) -> bool {
    forall|i: int, j: int| 0 <= i < templates.len() && 0 <= j < templates[i].1.len() ==> #[trigger] templates[i].1[j]
        != LIST_ITEM_SEPARATOR
}

proof fn lemma_items_of_template_list_text(s: Seq<char>, i: int, templates: Seq<(usize, Seq<char>)>)
    requires
        templates.len() > 0,
        names_unseparated(templates),
        0 <= i <= s.len(),
        s.subrange(i, s.len() as int) == template_list_text(templates),
    ensures
        items_from(s, i) == template_texts(templates),
    decreases templates.len(),
{
    let d = template_text(templates[0].0, templates[0].1);
    let dec = decimal(templates[0].0 as nat);
    lemma_decimal(templates[0].0 as nat);
    lemma_next_separator(s, i);
    let k = i + d.len();
    let lt = template_list_text(templates);
    if templates.len() > 1 {
        assert(lt == d.push(LIST_ITEM_SEPARATOR) + template_list_text(templates.drop_first()));
        assert(lt.len() > d.len());
    } else {
        assert(lt == d);
    }
    assert(s.subrange(i, s.len() as int).len() == s.len() - i);
    assert(k <= s.len());
    assert forall|j: int| 0 <= j < d.len() implies lt[j] == d[j] by {
        if templates.len() > 1 {
            assert(lt[j] == d.push(LIST_ITEM_SEPARATOR)[j]);
        }
    }
    assert forall|j: int| 0 <= j < d.len() implies d[j] != LIST_ITEM_SEPARATOR by {
        if j < dec.len() {
            assert(d[j] == dec[j]);
            assert(is_digit(dec[j]));
        } else if j > dec.len() {
            assert(d[j] == templates[0].1[j - dec.len() - 1]);
        }
    }
    assert forall|j: int| i <= j < k implies s[j] != LIST_ITEM_SEPARATOR by {
        assert(s[j] == s.subrange(i, s.len() as int)[j - i]);
        assert(lt[j - i] == d[j - i]);
    }
    if templates.len() == 1 {
        assert(s.subrange(i, s.len() as int) == d);
        assert(k == s.len());
        assert(next_separator(s, i) == s.len());
        assert(items_from(s, i) =~= template_texts(templates));
    } else {
        let rest = template_list_text(templates.drop_first());
        assert(s[k] == LIST_ITEM_SEPARATOR) by {
            assert(s[k] == s.subrange(i, s.len() as int)[k - i]);
        }
        assert(next_separator(s, i) == k);
        assert(s.subrange(i, k) =~= d) by {
            assert forall|j: int| 0 <= j < d.len() implies s.subrange(i, k)[j] == d[j] by {
                assert(s[i + j] == s.subrange(i, s.len() as int)[j]);
            }
        }
        assert(s.subrange(k + 1, s.len() as int) =~= rest) by {
            assert forall|j: int| 0 <= j < rest.len() implies s.subrange(k + 1, s.len() as int)[j] == rest[j] by {
                assert(s[k + 1 + j] == s.subrange(i, s.len() as int)[d.len() + 1 + j]);
            }
        }
        assert(names_unseparated(templates.drop_first())) by {
            assert forall|a: int, b: int| 0 <= a < templates.drop_first().len() && 0 <= b < templates.drop_first()[a].1.len()
                implies #[trigger] templates.drop_first()[a].1[b] != LIST_ITEM_SEPARATOR by {
                assert(templates.drop_first()[a] == templates[a + 1]);
            }
        }
        lemma_items_of_template_list_text(s, k + 1, templates.drop_first());
        assert(items_from(s, i) == seq![d] + items_from(s, k + 1));
        assert(template_texts(templates) =~= seq![d] + template_texts(templates.drop_first()));
    }
}

proof fn lemma_templates_of_items_cons(items: Seq<Seq<char>>, t: (usize, Seq<char>), rest: Seq<(usize, Seq<char>)>)
    requires
        items.len() > 0,
        template_of_text(items[0]) == Ok::<(usize, Seq<char>), TextError>(t),
        templates_of_items(items.drop_first()) == Ok::<Seq<(usize, Seq<char>)>, TextError>(rest),
    ensures
        templates_of_items(items) == Ok::<Seq<(usize, Seq<char>)>, TextError>(seq![t] + rest),
{
}

#[verifier::rlimit(40)]
#[verifier::spinoff_prover]
proof fn lemma_templates_of_texts(templates: Seq<(usize, Seq<char>)>)
    requires
        forall|i: int| 0 <= i < templates.len() ==> #[trigger] templates[i].0 > 0,
    ensures
        templates_of_items(template_texts(templates)) == Ok::<Seq<(usize, Seq<char>)>, TextError>(templates),
    decreases templates.len(),
{
    let ts = template_texts(templates);
    if templates.len() > 0 {
        assert(template_of_text(ts[0]) == Ok::<(usize, Seq<char>), TextError>(templates[0])) by {
            assert(ts[0] == template_text(templates[0].0, templates[0].1));
            lemma_template_roundtrip(templates[0].0, templates[0].1);
        }
        assert(ts.drop_first() =~= template_texts(templates.drop_first()));
        lemma_templates_of_texts(templates.drop_first());
        lemma_templates_of_items_cons(ts, templates[0], templates.drop_first());
        assert(seq![templates[0]] + templates.drop_first() =~= templates);
    } else {
        assert(ts =~= Seq::<Seq<char>>::empty());
        assert(templates =~= Seq::<(usize, Seq<char>)>::empty());
    }
}

/// Reading the text of a non-empty list of templates with positive
/// identifiers and names free of the list separator gives the templates
/// back, in order.
pub proof fn lemma_template_list_roundtrip(templates: Seq<(usize, Seq<char>)>)
    requires
        templates.len() > 0,
        forall|i: int| 0 <= i < templates.len() ==> #[trigger] templates[i].0 > 0,
        names_unseparated(templates),
    ensures
        template_list_of_text(template_list_text(templates)) == Ok::<Seq<(usize, Seq<char>)>, TextError>(templates),
{
    let s = template_list_text(templates);
    assert(s.subrange(0, s.len() as int) =~= s);
    lemma_items_of_template_list_text(s, 0, templates);
    lemma_templates_of_texts(templates);
}

} // verus!
