//! Logical formulas over numbered variables, with a parser and a
//! printer for their textual form.
//!
//! The textual grammar accepts decimal variables, `!` for negation,
//! `&` for conjunction, `|` for disjunction and parentheses for
//! grouping, with arbitrary spaces around operands. Conjunctions and
//! disjunctions may not be mixed without explicit grouping.

use vstd::prelude::*;

use crate::chars::chars_of;
use crate::chars::decimal;
use crate::chars::digit_char;
use crate::chars::digit_value;
use crate::chars::string_from_chars;
use crate::chars::digits_end;
use crate::chars::digits_to_u64;
use crate::chars::digits_to_usize;
use crate::chars::digits_value;
use crate::chars::is_digit;
use crate::chars::lemma_digits_end_bounds;
use crate::chars::lemma_spaces_end_bounds;
use crate::chars::scan_digits;
use crate::chars::scan_spaces;
use crate::chars::spaces_end;

verus! {

/// A logical formula.
#[derive(Debug, PartialEq, Eq)]
pub enum Formula {
    Var(usize),
    Not(Box<Formula>),
    And(Box<Formula>, Box<Formula>),
    Or(Box<Formula>, Box<Formula>),
}

impl Clone for Formula {
    fn clone(&self) -> (res: Self)
        ensures
            res == *self,
        decreases self,
    {
        match self {
            Formula::Var(v) => Formula::Var(*v),
            Formula::Not(f) => Formula::Not(Box::new((**f).clone())),
            Formula::And(f, g) => Formula::And(Box::new((**f).clone()), Box::new((**g).clone())),
            Formula::Or(f, g) => Formula::Or(Box::new((**f).clone()), Box::new((**g).clone())),
        }
    }
}

impl core::ops::Not for Formula {
    type Output = Formula;

    fn not(self) -> (res: Formula)
        ensures
            res == Formula::Not(Box::new(self)),
    {
        Formula::Not(Box::new(self))
    }
}

impl vstd::std_specs::ops::NotSpecImpl for Formula {
    open spec fn obeys_not_spec() -> bool {
        true
    }

    open spec fn not_req(self) -> bool {
        true
    }

    open spec fn not_spec(self) -> Formula {
        Formula::Not(Box::new(self))
    }
}

impl core::ops::BitAnd for Formula {
    type Output = Formula;

    fn bitand(self, other: Formula) -> (res: Formula)
        ensures
            res == Formula::And(Box::new(self), Box::new(other)),
    {
        Formula::And(Box::new(self), Box::new(other))
    }
}

impl vstd::std_specs::ops::BitAndSpecImpl for Formula {
    open spec fn obeys_bitand_spec() -> bool {
        true
    }

    open spec fn bitand_req(self, other: Formula) -> bool {
        true
    }

    open spec fn bitand_spec(self, other: Formula) -> Formula {
        Formula::And(Box::new(self), Box::new(other))
    }
}

impl core::ops::BitOr for Formula {
    type Output = Formula;

    fn bitor(self, other: Formula) -> (res: Formula)
        ensures
            res == Formula::Or(Box::new(self), Box::new(other)),
    {
        Formula::Or(Box::new(self), Box::new(other))
    }
}

impl vstd::std_specs::ops::BitOrSpecImpl for Formula {
    open spec fn obeys_bitor_spec() -> bool {
        true
    }

    open spec fn bitor_req(self, other: Formula) -> bool {
        true
    }

    open spec fn bitor_spec(self, other: Formula) -> Formula {
        Formula::Or(Box::new(self), Box::new(other))
    }
}

/// What may follow a parsed operand: further conjunctions only,
/// further disjunctions only, or either.
#[derive(Clone, Copy, Debug, PartialEq, Eq)]
pub enum Chaining {
    Conj,
    Disj,
    Any,
}

/// The outcome of parsing an operand (a variable, a negation or a
/// parenthesized formula) starting at index `i` of `s`: the index past
/// the operand and any trailing spaces, and the operand, or `None` if
/// no operand starts there.
pub open spec fn spec_unary(s: Seq<char>, i: int) -> Option<(int, Formula)>
    decreases s.len() - i, 0int,
{
    if i < 0 || i > s.len() {
        None
    } else {
        let j = spaces_end(s, i);
        let inner = if j < s.len() && is_digit(s[j]) {
            let e = digits_end(s, j);
            let v = digits_value(s.subrange(j, e));
            if v <= usize::MAX {
                Some((e, Formula::Var(v as usize)))
            } else {
                None
            }
        } else if j < s.len() && s[j] == '!' {
            if i <= j {
                match spec_unary(s, j + 1) {
                    Some((k, f)) => Some((k, Formula::Not(Box::new(f)))),
                    None => None,
                }
            } else {
                None
            }
        } else if j < s.len() && s[j] == '(' {
            if i <= j {
                match spec_formula(s, j + 1, Chaining::Any) {
                    Some((k, f)) => if 0 <= k < s.len() && s[k] == ')' {
                        Some((k + 1, f))
                    } else {
                        None
                    },
                    None => None,
                }
            } else {
                None
            }
        } else {
            None
        };
        match inner {
            Some((k, f)) => Some((spaces_end(s, k), f)),
            None => None,
        }
    }
}

/// The outcome of parsing a formula starting at index `i` of `s`, where
/// `chaining` restricts which binary operators may join operands: the
/// index past the formula and the formula, or `None`.
pub open spec fn spec_formula(s: Seq<char>, i: int, chaining: Chaining) -> Option<(int, Formula)>
    decreases s.len() - i, 1int,
{
    if i < 0 || i > s.len() {
        None
    } else {
        match spec_unary(s, i) {
            None => None,
            Some((k, f1)) => {
                if i < k <= s.len() {
                    let conj = if k < s.len() && s[k] == '&' {
                        match spec_formula(s, k + 1, Chaining::Conj) {
                            Some((m, f2)) => Some((m, Formula::And(Box::new(f1), Box::new(f2)))),
                            None => None,
                        }
                    } else {
                        None
                    };
                    let disj = if k < s.len() && s[k] == '|' {
                        match spec_formula(s, k + 1, Chaining::Disj) {
                            Some((m, f2)) => Some((m, Formula::Or(Box::new(f1), Box::new(f2)))),
                            None => None,
                        }
                    } else {
                        None
                    };
                    match chaining {
                        Chaining::Conj => if conj is Some {
                            conj
                        } else {
                            Some((k, f1))
                        },
                        Chaining::Disj => if disj is Some {
                            disj
                        } else {
                            Some((k, f1))
                        },
                        Chaining::Any => if conj is Some {
                            conj
                        } else if disj is Some {
                            disj
                        } else {
                            Some((k, f1))
                        },
                    }
                } else {
                    None
                }
            },
        }
    }
}

/// The result of parsing a complete formula: the formula, or the
/// unparsed remainder of the input.
pub open spec fn spec_parse_formula(s: Seq<char>) -> Result<Formula, Seq<char>> {
    match spec_formula(s, 0, Chaining::Any) {
        None => Err(s),
        Some((k, f)) => if k == s.len() {
            Ok(f)
        } else {
            Err(s.skip(k))
        },
    }
}

/// Parse an operand starting at index `i`.
fn parse_unary_at(s: &Vec<char>, i: usize) -> (res: Option<(usize, Formula)>)
    requires
        i <= s.len(),
    ensures
        match res {
            Some((k, f)) => spec_unary(s@, i as int) == Some((k as int, f)) && i < k <= s.len(),
            None => spec_unary(s@, i as int) is None,
        },
    decreases s@.len() - i, 0int,
{
    let j = scan_spaces(s, i);
    proof {
        lemma_spaces_end_bounds(s@, i as int);
    }
    let inner: Option<(usize, Formula)> = if j < s.len() && '0' <= s[j] && s[j] <= '9' {
        let e = scan_digits(s, j);
        proof {
            lemma_digits_end_bounds(s@, j as int);
        }
        match digits_to_usize(s, j, e) {
            Some(v) => Some((e, Formula::Var(v))),
            None => None,
        }
    } else if j < s.len() && s[j] == '!' {
        match parse_unary_at(s, j + 1) {
            Some((k, f)) => Some((k, Formula::Not(Box::new(f)))),
            None => None,
        }
    } else if j < s.len() && s[j] == '(' {
        match parse_formula_at(s, j + 1, Chaining::Any) {
            Some((k, f)) => if k < s.len() && s[k] == ')' {
                Some((k + 1, f))
            } else {
                None
            },
            None => None,
        }
    } else {
        None
    };
    match inner {
        Some((k, f)) => {
            let end = scan_spaces(s, k);
            Some((end, f))
        },
        None => None,
    }
}

/// Parse a formula starting at index `i`.
fn parse_formula_at(s: &Vec<char>, i: usize, chaining: Chaining) -> (res: Option<(usize, Formula)>)
    requires
        i <= s.len(),
    ensures
        match res {
            Some((k, f)) => spec_formula(s@, i as int, chaining) == Some((k as int, f)) && i < k
                <= s.len(),
            None => spec_formula(s@, i as int, chaining) is None,
        },
    decreases s@.len() - i, 1int,
{
    match parse_unary_at(s, i) {
        None => None,
        Some((k, f1)) => {
            let may_conj = match chaining {
                Chaining::Disj => false,
                _ => true,
            };
            let may_disj = match chaining {
                Chaining::Conj => false,
                _ => true,
            };
            if may_conj && k < s.len() && s[k] == '&' {
                match parse_formula_at(s, k + 1, Chaining::Conj) {
                    Some((m, f2)) => {
                        return Some((m, Formula::And(Box::new(f1), Box::new(f2))));
                    },
                    None => {},
                }
            }
            if may_disj && k < s.len() && s[k] == '|' {
                match parse_formula_at(s, k + 1, Chaining::Disj) {
                    Some((m, f2)) => {
                        return Some((m, Formula::Or(Box::new(f1), Box::new(f2))));
                    },
                    None => {},
                }
            }
            Some((k, f1))
        },
    }
}

/// Whether a parse result is a success with the given remainder and
/// value.
pub open spec fn parsed<T>(res: Result<(&str, T), &str>, rest: Seq<char>, value: T) -> bool {
    match res {
        Ok((r, v)) => r@ == rest && v == value,
        Err(_) => false,
    }
}

/// Whether a parse result is a failure reporting the given input.
pub open spec fn failed_at<T>(res: Result<(&str, T), &str>, at: Seq<char>) -> bool {
    match res {
        Ok(_) => false,
        Err(x) => x@ == at,
    }
}

/// The suffix of `input` starting at character index `k`.
fn suffix_from(input: &str, k: usize) -> (res: &str)
    requires
        k <= input@.len(),
    ensures
        res@ == input@.skip(k as int),
{
    let n = input.unicode_len();
    input.substring_char(k, n)
}

/// Parse a number at the start of `input`.
///
/// On success the remainder of the input and the number are returned.
/// If `input` does not start with a digit, `input` is the error; if the
/// digits denote a number that does not fit, the digits are the error.
pub fn parse_number(input: &str) -> (res: Result<(&str, u64), &str>)
    ensures
        ({
            let s = input@;
            let e = digits_end(s, 0);
            &&& e == 0 ==> failed_at(res, s)
            &&& e > 0 && digits_value(s.take(e)) <= u64::MAX ==> parsed(
                res,
                s.skip(e),
                digits_value(s.take(e)) as u64,
            )
            &&& e > 0 && digits_value(s.take(e)) > u64::MAX ==> failed_at(res, s.take(e))
        }),
{
    let s = chars_of(input);
    let e = scan_digits(&s, 0);
    proof {
        lemma_digits_end_bounds(s@, 0);
        assert(s@.subrange(0, e as int) =~= s@.take(e as int));
    }
    if e == 0 {
        return Err(input);
    }
    match digits_to_u64(&s, 0, e) {
        Some(n) => Ok((suffix_from(input, e), n)),
        None => {
            let digits = input.substring_char(0, e);
            assert(digits@ =~= input@.take(e as int));
            Err(digits)
        },
    }
}

/// Parse a variable, i.e., a number fitting a `usize`, at the start of
/// `input`, with errors as for [`parse_number`].
pub fn parse_var(input: &str) -> (res: Result<(&str, usize), &str>)
    ensures
        ({
            let s = input@;
            let e = digits_end(s, 0);
            &&& e == 0 ==> failed_at(res, s)
            &&& e > 0 && digits_value(s.take(e)) <= usize::MAX ==> parsed(
                res,
                s.skip(e),
                digits_value(s.take(e)) as usize,
            )
            &&& e > 0 && digits_value(s.take(e)) > usize::MAX ==> failed_at(res, s.take(e))
        }),
{
    let s = chars_of(input);
    let e = scan_digits(&s, 0);
    proof {
        lemma_digits_end_bounds(s@, 0);
        assert(s@.subrange(0, e as int) =~= s@.take(e as int));
    }
    if e == 0 {
        return Err(input);
    }
    match digits_to_usize(&s, 0, e) {
        Some(n) => Ok((suffix_from(input, e), n)),
        None => {
            let digits = input.substring_char(0, e);
            assert(digits@ =~= input@.take(e as int));
            Err(digits)
        },
    }
}

/// Match the literal `lit` at the start of `input`, returning the
/// remainder, or `input` itself as the error.
pub fn match_str<'i>(lit: &str, input: &'i str) -> (res: Result<(&'i str, ()), &'i str>)
    ensures
        input@.len() >= lit@.len() && input@.take(lit@.len() as int) == lit@ ==> parsed(
            res,
            input@.skip(lit@.len() as int),
            (),
        ),
        !(input@.len() >= lit@.len() && input@.take(lit@.len() as int) == lit@) ==> failed_at(
            res,
            input@,
        ),
{
    let l = chars_of(lit);
    let s = chars_of(input);
    if s.len() < l.len() {
        return Err(input);
    }
    let mut i: usize = 0;
    while i < l.len()
        invariant
            i <= l.len() <= s.len(),
            l@ == lit@,
            s@ == input@,
            forall|j: int| 0 <= j < i ==> s@[j] == l@[j],
        decreases l.len() - i,
    {
        if s[i] != l[i] {
            assert(input@.take(lit@.len() as int)[i as int] != lit@[i as int]);
            return Err(input);
        }
        i = i + 1;
    }
    assert(input@.take(lit@.len() as int) =~= lit@);
    Ok((suffix_from(input, l.len()), ()))
}

/// Parse a negation operator (`!`).
pub fn parse_not(input: &str) -> (res: Result<(&str, ()), &str>)
    ensures
        input@.len() > 0 && input@[0] == '!' ==> parsed(res, input@.skip(1), ()),
        !(input@.len() > 0 && input@[0] == '!') ==> failed_at(res, input@),
{
    let res = match_str("!", input);
    proof {
        reveal_strlit("!");
        if input@.len() > 0 && input@[0] == '!' {
            assert(input@.take(1) =~= "!"@);
        } else if input@.len() >= 1 {
            assert(input@.take(1)[0] != "!"@[0]);
        }
    }
    res
}

/// Parse a disjunction operator (`|`).
pub fn parse_or(input: &str) -> (res: Result<(&str, ()), &str>)
    ensures
        input@.len() > 0 && input@[0] == '|' ==> parsed(res, input@.skip(1), ()),
        !(input@.len() > 0 && input@[0] == '|') ==> failed_at(res, input@),
{
    let res = match_str("|", input);
    proof {
        reveal_strlit("|");
        if input@.len() > 0 && input@[0] == '|' {
            assert(input@.take(1) =~= "|"@);
        } else if input@.len() >= 1 {
            assert(input@.take(1)[0] != "|"@[0]);
        }
    }
    res
}

/// Parse a conjunction operator (`&`).
pub fn parse_and(input: &str) -> (res: Result<(&str, ()), &str>)
    ensures
        input@.len() > 0 && input@[0] == '&' ==> parsed(res, input@.skip(1), ()),
        !(input@.len() > 0 && input@[0] == '&') ==> failed_at(res, input@),
{
    let res = match_str("&", input);
    proof {
        reveal_strlit("&");
        if input@.len() > 0 && input@[0] == '&' {
            assert(input@.take(1) =~= "&"@);
        } else if input@.len() >= 1 {
            assert(input@.take(1)[0] != "&"@[0]);
        }
    }
    res
}

/// Run two parsers in succession, failing at `input` if either fails.
pub fn chain<'i, A, B, P, Q>(p: P, q: Q, input: &'i str) -> (res: Result<(&'i str, (A, B)), &'i str>) where
    P: Fn(&'i str) -> Result<(&'i str, A), &'i str>,
    Q: Fn(&'i str) -> Result<(&'i str, B), &'i str>,

    requires
        call_requires(p, (input,)),
        forall|s: &'i str| call_requires(q, (s,)),
    ensures
        exists|r1: Result<(&'i str, A), &'i str>|
            #[trigger] call_ensures(p, (input,), r1) && match r1 {
                Ok((next, a)) => exists|r2: Result<(&'i str, B), &'i str>|
                    #[trigger] call_ensures(q, (next,), r2) && match r2 {
                        Ok((rest, b)) => res == Ok::<(&'i str, (A, B)), &'i str>((rest, (a, b))),
                        Err(_) => res == Err::<(&'i str, (A, B)), &'i str>(input),
                    },
                Err(_) => res == Err::<(&'i str, (A, B)), &'i str>(input),
            },
{
    match p(input) {
        Ok((next_input, result1)) => match q(next_input) {
            Ok((final_input, result2)) => Ok((final_input, (result1, result2))),
            Err(_) => Err(input),
        },
        Err(_) => Err(input),
    }
}

/// Run a parser and, should it fail, a second one on the same input.
pub fn or<'i, A, P, Q>(p: P, q: Q, input: &'i str) -> (res: Result<(&'i str, A), &'i str>) where
    P: Fn(&'i str) -> Result<(&'i str, A), &'i str>,
    Q: Fn(&'i str) -> Result<(&'i str, A), &'i str>,

    requires
        call_requires(p, (input,)),
        call_requires(q, (input,)),
    ensures
        exists|r1: Result<(&'i str, A), &'i str>|
            #[trigger] call_ensures(p, (input,), r1) && match r1 {
                Ok(_) => res == r1,
                Err(_) => call_ensures(q, (input,), res),
            },
{
    match p(input) {
        Ok(result) => Ok(result),
        Err(_) => q(input),
    }
}

/// Run a parser and then the parser that `f` makes of its result,
/// failing at `input` if either fails.
pub fn and_then<'i, A, B, P, F, Q>(p: P, f: F, input: &'i str) -> (res: Result<(&'i str, B), &'i str>) where
    P: Fn(&'i str) -> Result<(&'i str, A), &'i str>,
    F: Fn(A) -> Q,
    Q: Fn(&'i str) -> Result<(&'i str, B), &'i str>,

    requires
        call_requires(p, (input,)),
        forall|a: A| call_requires(f, (a,)),
        forall|a: A, q: Q, s: &'i str| call_ensures(f, (a,), q) ==> call_requires(q, (s,)),
    ensures
        exists|r1: Result<(&'i str, A), &'i str>|
            #[trigger] call_ensures(p, (input,), r1) && match r1 {
                Ok((next, a)) => exists|q: Q, r2: Result<(&'i str, B), &'i str>|
                    #[trigger] call_ensures(f, (a,), q) && #[trigger] call_ensures(q, (next,), r2) && match r2 {
                        Ok(_) => res == r2,
                        Err(_) => res == Err::<(&'i str, B), &'i str>(input),
                    },
                Err(_) => res == Err::<(&'i str, B), &'i str>(input),
            },
{
    match p(input) {
        Ok((next_input, result)) => {
            let q = f(result);
            match q(next_input) {
                Ok((final_input, result2)) => Ok((final_input, result2)),
                Err(_) => Err(input),
            }
        },
        Err(_) => Err(input),
    }
}

/// Run a parser and apply `f` to its output.
pub fn map<'i, A, B, P, F>(p: P, f: F, input: &'i str) -> (res: Result<(&'i str, B), &'i str>) where
    P: Fn(&'i str) -> Result<(&'i str, A), &'i str>,
    F: Fn(A) -> B,

    requires
        call_requires(p, (input,)),
        forall|a: A| call_requires(f, (a,)),
    ensures
        exists|r1: Result<(&'i str, A), &'i str>|
            #[trigger] call_ensures(p, (input,), r1) && match r1 {
                Ok((next, a)) => exists|b: B| #[trigger] call_ensures(f, (a,), b) && res == Ok::<(&'i str, B), &'i str>((next, b)),
                Err(e) => res == Err::<(&'i str, B), &'i str>(e),
            },
{
    match p(input) {
        Ok((next_input, result)) => Ok((next_input, f(result))),
        Err(e) => Err(e),
    }
}

/// Skip any number of spaces at the start of `input`; never fails.
pub fn parse_space0(input: &str) -> (res: Result<(&str, ()), &str>)
    ensures
        parsed(res, input@.skip(spaces_end(input@, 0)), ()),
{
    let s = chars_of(input);
    let e = scan_spaces(&s, 0);
    Ok((suffix_from(input, e), ()))
}

/// Parse an operand (a variable, a negation, or a parenthesized
/// formula), along with surrounding spaces.
pub fn parse_unary(input: &str) -> (res: Result<(&str, Formula), &str>)
    ensures
        match spec_unary(input@, 0) {
            Some((k, f)) => parsed(res, input@.skip(k), f),
            None => failed_at(res, input@),
        },
{
    let s = chars_of(input);
    match parse_unary_at(&s, 0) {
        Some((k, f)) => Ok((suffix_from(input, k), f)),
        None => Err(input),
    }
}

/// Parse a formula whose binary operators are restricted by `chaining`,
/// returning the unparsed remainder along with it.
pub fn parse_formula_impl(input: &str, chaining: Chaining) -> (res: Result<(&str, Formula), &str>)
    ensures
        match spec_formula(input@, 0, chaining) {
            Some((k, f)) => parsed(res, input@.skip(k), f),
            None => failed_at(res, input@),
        },
{
    let s = chars_of(input);
    match parse_formula_at(&s, 0, chaining) {
        Some((k, f)) => Ok((suffix_from(input, k), f)),
        None => Err(input),
    }
}

/// Parse a complete formula. Any input that is left unparsed is
/// reported as the error.
pub fn parse_formula(input: &str) -> (res: Result<Formula, &str>)
    ensures
        match spec_parse_formula(input@) {
            Ok(f) => res == Ok::<Formula, &str>(f),
            Err(rest) => match res {
                Ok(_) => false,
                Err(x) => x@ == rest,
            },
        },
{
    let s = chars_of(input);
    match parse_formula_at(&s, 0, Chaining::Any) {
        Some((k, f)) => {
            if k == s.len() {
                Ok(f)
            } else {
                Err(suffix_from(input, k))
            }
        },
        None => Err(input),
    }
}

/// The textual form of a formula, where `chaining` describes the
/// context it is printed in: operands of a conjunction are printed in
/// the `Conj` context and operands of a disjunction in the `Disj` one;
/// a disjunction in a conjunction context, and vice versa, is
/// parenthesized.
pub open spec fn spec_print(f: Formula, chaining: Chaining) -> Seq<char>
    decreases f,
{
    match f {
        Formula::Var(v) => decimal(v as nat),
        Formula::Not(g) => {
            let inner = spec_print(*g, chaining);
            if *g is Var || *g is Not {
                seq!['!'] + inner
            } else {
                seq!['!', '('] + inner + seq![')']
            }
        },
        Formula::And(a, b) => {
            let inner = spec_print(*a, Chaining::Conj) + seq![' ', '&', ' '] + spec_print(
                *b,
                Chaining::Conj,
            );
            if chaining == Chaining::Disj {
                seq!['('] + inner + seq![')']
            } else {
                inner
            }
        },
        Formula::Or(a, b) => {
            let inner = spec_print(*a, Chaining::Disj) + seq![' ', '|', ' '] + spec_print(
                *b,
                Chaining::Disj,
            );
            if chaining == Chaining::Conj {
                seq!['('] + inner + seq![')']
            } else {
                inner
            }
        },
    }
}

/// Append the decimal representation of `n` to `out`.
pub fn push_decimal(n: usize, out: &mut Vec<char>)
    ensures
        final(out)@ == old(out)@ + decimal(n as nat),
    decreases n,
{
    if n < 10 {
        let c = ((n as u8) + 48u8) as char;
        out.push(c);
        assert(decimal(n as nat) =~= seq![c]);
    } else {
        push_decimal(n / 10, out);
        let c = (((n % 10) as u8) + 48u8) as char;
        out.push(c);
    }
}

fn push_str_chars(out: &mut Vec<char>, a: char, b: char, c: char)
    ensures
        final(out)@ == old(out)@ + seq![a, b, c],
{
    out.push(a);
    out.push(b);
    out.push(c);
}

/// Append the textual form of `f` in the given context to `out`.
fn print_into(f: &Formula, chaining: Chaining, out: &mut Vec<char>)
    ensures
        final(out)@ == old(out)@ + spec_print(*f, chaining),
    decreases f,
{
    match f {
        Formula::Var(v) => {
            push_decimal(*v, out);
        },
        Formula::Not(g) => {
            out.push('!');
            let group = match &**g {
                Formula::Var(_) => false,
                Formula::Not(_) => false,
                _ => true,
            };
            if group {
                out.push('(');
                print_into(&**g, chaining, out);
                out.push(')');
            } else {
                print_into(&**g, chaining, out);
            }
        },
        Formula::And(a, b) => {
            let group = match chaining {
                Chaining::Disj => true,
                _ => false,
            };
            if group {
                out.push('(');
            }
            print_into(&**a, Chaining::Conj, out);
            push_str_chars(out, ' ', '&', ' ');
            print_into(&**b, Chaining::Conj, out);
            if group {
                out.push(')');
            }
        },
        Formula::Or(a, b) => {
            let group = match chaining {
                Chaining::Conj => true,
                _ => false,
            };
            if group {
                out.push('(');
            }
            print_into(&**a, Chaining::Disj, out);
            push_str_chars(out, ' ', '|', ' ');
            print_into(&**b, Chaining::Disj, out);
            if group {
                out.push(')');
            }
        },
    }
}

/// The truth value of a formula under an assignment of truth values to
/// its variables.
pub open spec fn eval(f: Formula, assignment: spec_fn(usize) -> bool) -> bool
    decreases f,
{
    match f {
        Formula::Var(v) => assignment(v),
        Formula::Not(a) => !eval(*a, assignment),
        Formula::And(a, b) => eval(*a, assignment) && eval(*b, assignment),
        Formula::Or(a, b) => eval(*a, assignment) || eval(*b, assignment),
    }
}

impl Formula {
    /// Render the formula in its textual form.
    pub fn to_string(&self) -> (res: String)
        ensures
            res@ == spec_print(*self, Chaining::Any),
    {
        let mut out: Vec<char> = Vec::new();
        print_into(self, Chaining::Any, &mut out);
        assert(out@ =~= seq![] + spec_print(*self, Chaining::Any));
        string_from_chars(&out)
    }
}

/// A formula in which neither a conjunction is the left operand of a
/// conjunction nor a disjunction the left operand of a disjunction.
/// Printing loses the nesting of such operands, since both operators
/// associate to the right when parsed.
pub open spec fn right_nested(f: Formula) -> bool
    decreases f,
{
    match f {
        Formula::Var(_) => true,
        Formula::Not(g) => right_nested(*g),
        Formula::And(a, b) => !(*a is And) && right_nested(*a) && right_nested(*b),
        Formula::Or(a, b) => !(*a is Or) && right_nested(*a) && right_nested(*b),
    }
}

/// Whether the textual form of `f` in context `m` is a single operand
/// (as opposed to an unparenthesized chain of binary operations).
pub open spec fn prints_as_operand(f: Formula, m: Chaining) -> bool {
    ||| f is Var
    ||| f is Not
    ||| (f is And && m == Chaining::Disj)
    ||| (f is Or && m == Chaining::Conj)
}

/// Whether parsing with restriction `n` can read back a chain printed
/// in context `m`.
pub open spec fn chain_readable(f: Formula, m: Chaining, n: Chaining) -> bool {
    &&& (f is And && m != Chaining::Disj ==> n != Chaining::Disj)
    &&& (f is Or && m != Chaining::Conj ==> n != Chaining::Conj)
}

/// Whether the character at `e` may follow a printed formula: the end
/// of input, a space, or a closing parenthesis.
pub open spec fn may_follow(s: Seq<char>, e: int) -> bool {
    e == s.len() || (0 <= e < s.len() && (s[e] == ' ' || s[e] == ')'))
}

/// Whether the character at `t` ends a formula parsed with restriction
/// `n`.
pub open spec fn ends_chain(s: Seq<char>, t: int, n: Chaining) -> bool {
    t == s.len() || (0 <= t < s.len() && (n != Chaining::Disj ==> s[t] != '&') && (n
        != Chaining::Conj ==> s[t] != '|'))
}

/// A digit character is a digit of the value it stands for.
pub proof fn lemma_digit_char(d: nat)
    requires
        d < 10,
    ensures
        is_digit(digit_char(d)),
        digit_value(digit_char(d)) == d,
{
}

/// The decimal representation of a number is a non-empty run of digits
/// with the number's value.
pub proof fn lemma_decimal(n: nat)
    ensures
        decimal(n).len() >= 1,
        forall|j: int| 0 <= j < decimal(n).len() ==> is_digit(#[trigger] decimal(n)[j]),
        digits_value(decimal(n)) == n,
    decreases n,
{
    if n >= 10 {
        lemma_decimal(n / 10);
        lemma_digit_char(n % 10);
        let d = decimal(n);
        assert(d.drop_last() =~= decimal(n / 10));
        assert(d.last() == digit_char(n % 10));
        assert(digits_value(d) == digits_value(decimal(n / 10)) * 10 + n % 10);
    } else {
        lemma_digit_char(n);
        let d = decimal(n);
        assert(d.drop_last() =~= Seq::<char>::empty());
        assert(digits_value(d.drop_last()) == 0);
        assert(d.last() == digit_char(n));
        assert(digits_value(d) == digits_value(d.drop_last()) * 10 + digit_value(d.last()));
    }
}

/// Characters of a subrange equal to `p` are those of `p`.
proof fn lemma_chars_at(s: Seq<char>, i: int, p: Seq<char>)
    requires
        0 <= i,
        i + p.len() <= s.len(),
        s.subrange(i, i + p.len()) == p,
    ensures
        forall|k: int| 0 <= k < p.len() ==> s[i + k] == #[trigger] p[k],
{
    assert forall|k: int| 0 <= k < p.len() implies s[i + k] == #[trigger] p[k] by {
        assert(s.subrange(i, i + p.len())[k] == s[i + k]);
    }
}

proof fn lemma_print_starts(f: Formula, m: Chaining)
    ensures
        spec_print(f, m).len() > 0,
        is_digit(spec_print(f, m)[0]) || spec_print(f, m)[0] == '!' || spec_print(f, m)[0] == '(',
    decreases f,
{
    match f {
        Formula::Var(v) => {
            lemma_decimal(v as nat);
        },
        Formula::Not(g) => {},
        Formula::And(a, b) => {
            lemma_print_starts(*a, Chaining::Conj);
        },
        Formula::Or(a, b) => {
            lemma_print_starts(*a, Chaining::Disj);
        },
    }
}

proof fn lemma_spaces_end_at_nonspace(s: Seq<char>, i: int)
    requires
        0 <= i <= s.len(),
        i == s.len() || s[i] != ' ',
    ensures
        spaces_end(s, i) == i,
{
}

proof fn lemma_spaces_end_idempotent(s: Seq<char>, i: int)
    requires
        0 <= i <= s.len(),
    ensures
        spaces_end(s, spaces_end(s, i)) == spaces_end(s, i),
{
    lemma_spaces_end_bounds(s, i);
}

proof fn lemma_digits_end_run(s: Seq<char>, i: int, e: int)
    requires
        0 <= i <= e <= s.len(),
        forall|j: int| i <= j < e ==> is_digit(#[trigger] s[j]),
        e == s.len() || !is_digit(s[e]),
    ensures
        digits_end(s, i) == e,
    decreases e - i,
{
    if i < e {
        lemma_digits_end_run(s, i + 1, e);
    }
}

/// Parsing a formula printed as a single operand yields that formula,
/// stopping after the spaces that follow it.
proof fn lemma_unary_reads_print(s: Seq<char>, i0: int, i: int, f: Formula, m: Chaining)
    requires
        right_nested(f),
        prints_as_operand(f, m),
        0 <= i0 <= i,
        spaces_end(s, i0) == i,
        i + spec_print(f, m).len() <= s.len(),
        s.subrange(i, i + spec_print(f, m).len()) == spec_print(f, m),
        may_follow(s, i + spec_print(f, m).len()),
    ensures
        spec_unary(s, i0) == Some((spaces_end(s, i + spec_print(f, m).len()), f)),
    decreases f, 1int,
{
    let p = spec_print(f, m);
    let e = i + p.len();
    lemma_print_starts(f, m);
    assert(s[i] == p[0]);
    lemma_spaces_end_bounds(s, e);
    match f {
        Formula::Var(v) => {
            lemma_decimal(v as nat);
            assert forall|j: int| i <= j < e implies is_digit(#[trigger] s[j]) by {
                assert(s[j] == p[j - i]);
            }
            lemma_digits_end_run(s, i, e);
            assert(s.subrange(i, e) == decimal(v as nat));
        },
        Formula::Not(g) => {
            lemma_print_starts(*g, m);
            let pg = spec_print(*g, m);
            assert(s[i] == '!');
            lemma_chars_at(s, i, p);
            if *g is Var || *g is Not {
                assert(p == seq!['!'] + pg);
                assert(p[1] == pg[0]);
                assert(s[i + 1] == p[1]);
                lemma_spaces_end_at_nonspace(s, i + 1);
                assert forall|k: int| 0 <= k < pg.len() implies s.subrange(i + 1, i + 1 + pg.len())[k]
                    == pg[k] by {
                    assert(p[k + 1] == pg[k]);
                    assert(s[i + (k + 1)] == p[k + 1]);
                }
                assert(s.subrange(i + 1, i + 1 + pg.len()) =~= pg);
                lemma_unary_reads_print(s, i + 1, i + 1, *g, m);
                lemma_spaces_end_idempotent(s, e);
            } else {
                assert(p == seq!['!', '('] + pg + seq![')']);
                assert(p[1] == '(');
                assert(p[2] == pg[0]);
                assert(s[i + 1] == p[1]);
                assert(s[i + 2] == p[2]);
                lemma_spaces_end_at_nonspace(s, i + 1);
                lemma_spaces_end_at_nonspace(s, i + 2);
                let eg = i + 2 + pg.len();
                assert(p[p.len() - 1] == ')');
                assert(s[i + (p.len() - 1)] == p[p.len() - 1]);
                assert(s[eg] == ')');
                assert forall|k: int| 0 <= k < pg.len() implies s.subrange(i + 2, eg)[k] == pg[k] by {
                    assert(p[k + 2] == pg[k]);
                    assert(s[i + (k + 2)] == p[k + 2]);
                }
                assert(s.subrange(i + 2, eg) =~= pg);
                lemma_spaces_end_at_nonspace(s, eg);
                lemma_formula_reads_print(s, i + 2, i + 2, *g, m, Chaining::Any);
                assert(eg + 1 == e);
                assert(spec_unary(s, i + 1) == Some((spaces_end(s, e), *g)));
                lemma_spaces_end_idempotent(s, e);
            }
        },
        Formula::And(a, b) => {
            let inner = spec_print(f, Chaining::Conj);
            assert(p == seq!['('] + inner + seq![')']);
            lemma_print_starts(f, Chaining::Conj);
            lemma_chars_at(s, i, p);
            assert(p[1] == inner[0]);
            assert(s[i + 1] == p[1]);
            lemma_spaces_end_at_nonspace(s, i + 1);
            let ei = i + 1 + inner.len();
            assert(p[p.len() - 1] == ')');
            assert(s[i + (p.len() - 1)] == p[p.len() - 1]);
            assert(s[ei] == ')');
            assert forall|k: int| 0 <= k < inner.len() implies s.subrange(i + 1, ei)[k] == inner[k] by {
                assert(p[k + 1] == inner[k]);
                assert(s[i + (k + 1)] == p[k + 1]);
            }
            assert(s.subrange(i + 1, ei) =~= inner);
            lemma_spaces_end_at_nonspace(s, ei);
            lemma_formula_reads_print(s, i + 1, i + 1, f, Chaining::Conj, Chaining::Any);
        },
        Formula::Or(a, b) => {
            let inner = spec_print(f, Chaining::Disj);
            assert(p == seq!['('] + inner + seq![')']);
            lemma_print_starts(f, Chaining::Disj);
            lemma_chars_at(s, i, p);
            assert(p[1] == inner[0]);
            assert(s[i + 1] == p[1]);
            lemma_spaces_end_at_nonspace(s, i + 1);
            let ei = i + 1 + inner.len();
            assert(p[p.len() - 1] == ')');
            assert(s[i + (p.len() - 1)] == p[p.len() - 1]);
            assert(s[ei] == ')');
            assert forall|k: int| 0 <= k < inner.len() implies s.subrange(i + 1, ei)[k] == inner[k] by {
                assert(p[k + 1] == inner[k]);
                assert(s[i + (k + 1)] == p[k + 1]);
            }
            assert(s.subrange(i + 1, ei) =~= inner);
            lemma_spaces_end_at_nonspace(s, ei);
            lemma_formula_reads_print(s, i + 1, i + 1, f, Chaining::Disj, Chaining::Any);
        },
    }
}

/// Parsing a printed formula with a compatible restriction yields that
/// formula, stopping after the spaces that follow it.
proof fn lemma_formula_reads_print(
    s: Seq<char>,
    i0: int,
    i: int,
    f: Formula,
    m: Chaining,
    n: Chaining,
)
    requires
        right_nested(f),
        chain_readable(f, m, n),
        0 <= i0 <= i,
        spaces_end(s, i0) == i,
        i + spec_print(f, m).len() <= s.len(),
        s.subrange(i, i + spec_print(f, m).len()) == spec_print(f, m),
        may_follow(s, i + spec_print(f, m).len()),
        ends_chain(s, spaces_end(s, i + spec_print(f, m).len()), n),
    ensures
        spec_formula(s, i0, n) == Some((spaces_end(s, i + spec_print(f, m).len()), f)),
    decreases f, (if prints_as_operand(f, m) {
        2int
    } else {
        0int
    }),
{
    let p = spec_print(f, m);
    let e = i + p.len();
    lemma_print_starts(f, m);
    lemma_spaces_end_bounds(s, e);
    if prints_as_operand(f, m) {
        lemma_unary_reads_print(s, i0, i, f, m);
    } else {
        match f {
            Formula::And(a, b) => {
                let pa = spec_print(*a, Chaining::Conj);
                let pb = spec_print(*b, Chaining::Conj);
                assert(p == pa + seq![' ', '&', ' '] + pb);
                lemma_print_starts(*b, Chaining::Conj);
                lemma_chars_at(s, i, p);
                let ea = i + pa.len();
                let la = pa.len() as int;
                assert forall|k: int| 0 <= k < pa.len() implies s.subrange(i, ea)[k] == pa[k] by {
                    assert(p[k] == pa[k]);
                    assert(s[i + k] == p[k]);
                }
                assert(s.subrange(i, ea) =~= pa);
                assert(p[la] == ' ');
                assert(p[la + 1] == '&');
                assert(p[la + 2] == ' ');
                assert(p[la + 3] == pb[0]);
                assert(s[i + la] == p[la]);
                assert(s[i + (la + 1)] == p[la + 1]);
                assert(s[i + (la + 2)] == p[la + 2]);
                assert(s[i + (la + 3)] == p[la + 3]);
                assert(s[ea] == ' ');
                assert(s[ea + 1] == '&');
                assert(s[ea + 2] == ' ');
                assert(s[ea + 3] == pb[0]);
                assert forall|k: int| 0 <= k < pb.len() implies s.subrange(ea + 3, e)[k] == pb[k] by {
                    assert(p[la + 3 + k] == pb[k]);
                    assert(s[i + (la + 3 + k)] == p[la + 3 + k]);
                }
                assert(s.subrange(ea + 3, e) =~= pb);
                lemma_spaces_end_at_nonspace(s, ea + 1);
                lemma_spaces_end_at_nonspace(s, ea + 3);
                assert(spaces_end(s, ea) == ea + 1);
                lemma_unary_reads_print(s, i0, i, *a, Chaining::Conj);
                assert(spaces_end(s, ea + 2) == ea + 3);
                lemma_formula_reads_print(s, ea + 2, ea + 3, *b, Chaining::Conj, Chaining::Conj);
            },
            Formula::Or(a, b) => {
                let pa = spec_print(*a, Chaining::Disj);
                let pb = spec_print(*b, Chaining::Disj);
                assert(p == pa + seq![' ', '|', ' '] + pb);
                lemma_print_starts(*b, Chaining::Disj);
                lemma_chars_at(s, i, p);
                let ea = i + pa.len();
                let la = pa.len() as int;
                assert forall|k: int| 0 <= k < pa.len() implies s.subrange(i, ea)[k] == pa[k] by {
                    assert(p[k] == pa[k]);
                    assert(s[i + k] == p[k]);
                }
                assert(s.subrange(i, ea) =~= pa);
                assert(p[la] == ' ');
                assert(p[la + 1] == '|');
                assert(p[la + 2] == ' ');
                assert(p[la + 3] == pb[0]);
                assert(s[i + la] == p[la]);
                assert(s[i + (la + 1)] == p[la + 1]);
                assert(s[i + (la + 2)] == p[la + 2]);
                assert(s[i + (la + 3)] == p[la + 3]);
                assert(s[ea] == ' ');
                assert(s[ea + 1] == '|');
                assert(s[ea + 2] == ' ');
                assert(s[ea + 3] == pb[0]);
                assert forall|k: int| 0 <= k < pb.len() implies s.subrange(ea + 3, e)[k] == pb[k] by {
                    assert(p[la + 3 + k] == pb[k]);
                    assert(s[i + (la + 3 + k)] == p[la + 3 + k]);
                }
                assert(s.subrange(ea + 3, e) =~= pb);
                lemma_spaces_end_at_nonspace(s, ea + 1);
                lemma_spaces_end_at_nonspace(s, ea + 3);
                assert(spaces_end(s, ea) == ea + 1);
                lemma_unary_reads_print(s, i0, i, *a, Chaining::Disj);
                assert(spaces_end(s, ea + 2) == ea + 3);
                lemma_formula_reads_print(s, ea + 2, ea + 3, *b, Chaining::Disj, Chaining::Disj);
            },
            _ => {},
        }
    }
}

/// Parsing the textual form of a formula gives back the formula, for
/// every formula whose conjunctions and disjunctions nest to the right
/// (a left-nested chain such as `(1 & 2) & 3` prints as `1 & 2 & 3`,
/// which reads back as `1 & (2 & 3)`).
pub proof fn lemma_parse_print_roundtrip(f: Formula)
    requires
        right_nested(f),
    ensures
        spec_parse_formula(spec_print(f, Chaining::Any)) == Ok::<Formula, Seq<char>>(f),
{
    let s = spec_print(f, Chaining::Any);
    lemma_print_starts(f, Chaining::Any);
    lemma_spaces_end_at_nonspace(s, 0);
    assert(s.subrange(0, s.len() as int) =~= s);
    lemma_spaces_end_at_nonspace(s, s.len() as int);
    lemma_formula_reads_print(s, 0, 0, f, Chaining::Any, Chaining::Any);
}

/// The conjunction of `x` and `y`, with the conjunctions that `x` chains
/// on its left side moved to the right.
pub open spec fn and_chain(x: Formula, y: Formula) -> Formula
    decreases x,
{
    match x {
        Formula::And(x1, x2) => Formula::And(x1, Box::new(and_chain(*x2, y))),
        _ => Formula::And(Box::new(x), Box::new(y)),
    }
}

/// The disjunction of `x` and `y`, with the disjunctions that `x` chains
/// on its left side moved to the right.
pub open spec fn or_chain(x: Formula, y: Formula) -> Formula
    decreases x,
{
    match x {
        Formula::Or(x1, x2) => Formula::Or(x1, Box::new(or_chain(*x2, y))),
        _ => Formula::Or(Box::new(x), Box::new(y)),
    }
}

/// The formula with every chain of conjunctions and of disjunctions
/// nested to the right, as its textual form reads back.
pub open spec fn right_nesting(f: Formula) -> Formula
    decreases f,
{
    match f {
        Formula::Var(v) => Formula::Var(v),
        Formula::Not(g) => Formula::Not(Box::new(right_nesting(*g))),
        Formula::And(a, b) => and_chain(right_nesting(*a), right_nesting(*b)),
        Formula::Or(a, b) => or_chain(right_nesting(*a), right_nesting(*b)),
    }
}

proof fn lemma_and_chain(x: Formula, y: Formula)
    requires
        right_nested(x),
        right_nested(y),
    ensures
        right_nested(and_chain(x, y)),
        and_chain(x, y) is And,
        forall|m: Chaining| #[trigger] spec_print(and_chain(x, y), m) == spec_print(
            Formula::And(Box::new(x), Box::new(y)),
            m,
        ),
        forall|a: spec_fn(usize) -> bool| #[trigger] eval(and_chain(x, y), a) == (eval(x, a) && eval(y, a)),
    decreases x,
{
    match x {
        Formula::And(x1, x2) => {
            lemma_and_chain(*x2, y);
            assert forall|m: Chaining| #[trigger] spec_print(and_chain(x, y), m) == spec_print(
                Formula::And(Box::new(x), Box::new(y)),
                m,
            ) by {
                let c = Chaining::Conj;
                let amp = seq![' ', '&', ' '];
                assert(spec_print(and_chain(*x2, y), c) == spec_print(Formula::And(Box::new(*x2), Box::new(y)), c));
                assert(spec_print(and_chain(*x2, y), c) == spec_print(*x2, c) + amp + spec_print(y, c));
                assert(spec_print(*x1, c) + amp + (spec_print(*x2, c) + amp + spec_print(y, c)) =~= (
                spec_print(*x1, c) + amp + spec_print(*x2, c)) + amp + spec_print(y, c));
                assert(spec_print(x, c) == spec_print(*x1, c) + amp + spec_print(*x2, c));
                let inner = spec_print(*x1, c) + amp + spec_print(and_chain(*x2, y), c);
                let inner2 = spec_print(x, c) + amp + spec_print(y, c);
                assert(inner =~= inner2);
            }
            assert forall|a: spec_fn(usize) -> bool| #[trigger] eval(and_chain(x, y), a) == (eval(x, a) && eval(y, a)) by {
                assert(eval(and_chain(*x2, y), a) == (eval(*x2, a) && eval(y, a)));
            }
        },
        _ => {},
    }
}

proof fn lemma_or_chain(x: Formula, y: Formula)
    requires
        right_nested(x),
        right_nested(y),
    ensures
        right_nested(or_chain(x, y)),
        or_chain(x, y) is Or,
        forall|m: Chaining| #[trigger] spec_print(or_chain(x, y), m) == spec_print(
            Formula::Or(Box::new(x), Box::new(y)),
            m,
        ),
        forall|a: spec_fn(usize) -> bool| #[trigger] eval(or_chain(x, y), a) == (eval(x, a) || eval(y, a)),
    decreases x,
{
    match x {
        Formula::Or(x1, x2) => {
            lemma_or_chain(*x2, y);
            assert forall|m: Chaining| #[trigger] spec_print(or_chain(x, y), m) == spec_print(
                Formula::Or(Box::new(x), Box::new(y)),
                m,
            ) by {
                let d = Chaining::Disj;
                let bar = seq![' ', '|', ' '];
                assert(spec_print(or_chain(*x2, y), d) == spec_print(Formula::Or(Box::new(*x2), Box::new(y)), d));
                assert(spec_print(or_chain(*x2, y), d) == spec_print(*x2, d) + bar + spec_print(y, d));
                assert(spec_print(*x1, d) + bar + (spec_print(*x2, d) + bar + spec_print(y, d)) =~= (
                spec_print(*x1, d) + bar + spec_print(*x2, d)) + bar + spec_print(y, d));
                assert(spec_print(x, d) == spec_print(*x1, d) + bar + spec_print(*x2, d));
                let inner = spec_print(*x1, d) + bar + spec_print(or_chain(*x2, y), d);
                let inner2 = spec_print(x, d) + bar + spec_print(y, d);
                assert(inner =~= inner2);
            }
            assert forall|a: spec_fn(usize) -> bool| #[trigger] eval(or_chain(x, y), a) == (eval(x, a) || eval(y, a)) by {
                assert(eval(or_chain(*x2, y), a) == (eval(*x2, a) || eval(y, a)));
            }
        },
        _ => {},
    }
}

/// Nesting the chains of a formula to the right changes neither its
/// textual form nor its truth value, keeps variables, negations,
/// conjunctions and disjunctions what they are, and leaves right-nested
/// formulas as they are.
pub proof fn lemma_right_nesting(f: Formula)
    ensures
        right_nested(right_nesting(f)),
        forall|m: Chaining| #[trigger] spec_print(right_nesting(f), m) == spec_print(f, m),
        forall|a: spec_fn(usize) -> bool| #[trigger] eval(right_nesting(f), a) == eval(f, a),
        right_nesting(f) is Var <==> f is Var,
        right_nesting(f) is Not <==> f is Not,
        right_nesting(f) is And <==> f is And,
        right_nesting(f) is Or <==> f is Or,
        right_nested(f) ==> right_nesting(f) == f,
    decreases f,
{
    match f {
        Formula::Var(_) => {},
        Formula::Not(g) => {
            lemma_right_nesting(*g);
            assert forall|m: Chaining| #[trigger] spec_print(right_nesting(f), m) == spec_print(f, m) by {
                assert(spec_print(right_nesting(*g), m) == spec_print(*g, m));
            }
            assert forall|x: spec_fn(usize) -> bool| #[trigger] eval(right_nesting(f), x) == eval(f, x) by {
                assert(eval(right_nesting(*g), x) == eval(*g, x));
            }
        },
        Formula::And(a, b) => {
            lemma_right_nesting(*a);
            lemma_right_nesting(*b);
            lemma_and_chain(right_nesting(*a), right_nesting(*b));
            assert forall|m: Chaining| #[trigger] spec_print(right_nesting(f), m) == spec_print(f, m) by {
                let c = Chaining::Conj;
                assert(spec_print(right_nesting(*a), c) == spec_print(*a, c));
                assert(spec_print(right_nesting(*b), c) == spec_print(*b, c));
            }
            assert forall|x: spec_fn(usize) -> bool| #[trigger] eval(right_nesting(f), x) == eval(f, x) by {
                assert(eval(right_nesting(*a), x) == eval(*a, x));
                assert(eval(right_nesting(*b), x) == eval(*b, x));
            }
        },
        Formula::Or(a, b) => {
            lemma_right_nesting(*a);
            lemma_right_nesting(*b);
            lemma_or_chain(right_nesting(*a), right_nesting(*b));
            assert forall|m: Chaining| #[trigger] spec_print(right_nesting(f), m) == spec_print(f, m) by {
                let d = Chaining::Disj;
                assert(spec_print(right_nesting(*a), d) == spec_print(*a, d));
                assert(spec_print(right_nesting(*b), d) == spec_print(*b, d));
            }
            assert forall|x: spec_fn(usize) -> bool| #[trigger] eval(right_nesting(f), x) == eval(f, x) by {
                assert(eval(right_nesting(*a), x) == eval(*a, x));
                assert(eval(right_nesting(*b), x) == eval(*b, x));
            }
        },
    }
}

/// The textual form of any formula reads back as the formula with its
/// chains nested to the right: the same formula where it is
/// right-nested, and in any case one with the same truth value under
/// every assignment and the same textual form. In particular, printing
/// a parsed formula and parsing the text again gives a formula that
/// prints as the same text.
pub proof fn lemma_print_reads_back(f: Formula)
    ensures
        spec_parse_formula(spec_print(f, Chaining::Any)) == Ok::<Formula, Seq<char>>(right_nesting(f)),
        forall|a: spec_fn(usize) -> bool| #[trigger] eval(right_nesting(f), a) == eval(f, a),
        spec_print(right_nesting(f), Chaining::Any) == spec_print(f, Chaining::Any),
        right_nested(f) ==> right_nesting(f) == f,
{
    lemma_right_nesting(f);
    lemma_parse_print_roundtrip(right_nesting(f));
}

} // verus!
