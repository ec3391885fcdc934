//! Views onto tasks: a named formula over tags, and conversions between
//! formulas and their conjunctive normal form (CNF).

use vstd::prelude::*;

use crate::chars::chars_of;
use crate::formula::eval;
use crate::formula::parse_formula;
use crate::formula::spec_parse_formula;
use crate::formula::spec_print;
use crate::formula::Chaining;
use crate::formula::Formula;
use crate::db::Item;
use crate::tasks::Task;
use crate::tasks::TaskEntries;
use crate::tasks::Tasks;

verus! {

/// A literal: a tag, possibly negated.
#[derive(Clone, Copy, Debug, PartialEq, Eq, Structural)]
pub enum TagLit {
    Pos(usize),
    Neg(usize),
}

impl TagLit {
    /// The tag of the literal.
    pub open spec fn name_spec(&self) -> usize {
        match *self {
            TagLit::Pos(t) => t,
            TagLit::Neg(t) => t,
        }
    }

    /// Retrieve the tag of the literal.
    pub fn name(&self) -> (res: usize)
        ensures
            res == self.name_spec(),
    {
        match self {
            TagLit::Pos(t) => *t,
            TagLit::Neg(t) => *t,
        }
    }
}

/// The formula a literal stands for.
pub open spec fn lit_formula(lit: TagLit) -> Formula {
    match lit {
        TagLit::Pos(t) => Formula::Var(t),
        TagLit::Neg(t) => Formula::Not(Box::new(Formula::Var(t))),
    }
}

/// Convert a literal into a formula.
pub fn formula_of_lit(lit: &TagLit) -> (res: Formula)
    ensures
        res == lit_formula(*lit),
{
    match lit {
        TagLit::Pos(t) => Formula::Var(*t),
        TagLit::Neg(t) => Formula::Not(Box::new(Formula::Var(*t))),
    }
}

/// Whether a literal holds under an assignment.
pub open spec fn lit_holds(lit: TagLit, assignment: spec_fn(usize) -> bool) -> bool {
    match lit {
        TagLit::Pos(t) => assignment(t),
        TagLit::Neg(t) => !assignment(t),
    }
}

/// Whether a disjunction of literals holds under an assignment.
pub open spec fn clause_holds(clause: Seq<TagLit>, assignment: spec_fn(usize) -> bool) -> bool {
    exists|j: int| 0 <= j < clause.len() && #[trigger] lit_holds(clause[j], assignment)
}

/// Whether a conjunction of disjunctions holds under an assignment.
pub open spec fn cnf_holds(cnf: Seq<Seq<TagLit>>, assignment: spec_fn(usize) -> bool) -> bool {
    forall|i: int| 0 <= i < cnf.len() ==> #[trigger] clause_holds(cnf[i], assignment)
}

/// The clauses held by a vector of clause vectors.
pub open spec fn clauses(cnf: Seq<Vec<TagLit>>) -> Seq<Seq<TagLit>> {
    cnf.map_values(|clause: Vec<TagLit>| clause@)
}

/// Every clause of `a` joined with every clause of `b`, in order.
pub open spec fn product(a: Seq<Seq<TagLit>>, b: Seq<Seq<TagLit>>) -> Seq<Seq<TagLit>>
    decreases a.len(),
{
    if a.len() == 0 {
        Seq::empty()
    } else {
        product(a.drop_last(), b) + b.map_values(|bx: Seq<TagLit>| a.last() + bx)
    }
}

/// A measure that the rewriting into CNF decreases.
pub open spec fn cnf_measure(f: Formula) -> nat
    decreases f,
{
    match f {
        Formula::Var(_) => 1,
        Formula::Not(a) => 2 * cnf_measure(*a) + 1,
        Formula::And(a, b) => cnf_measure(*a) + cnf_measure(*b) + 2,
        Formula::Or(a, b) => cnf_measure(*a) + cnf_measure(*b) + 2,
    }
}

/// The CNF of a formula: negations are pushed down to the variables by
/// De Morgan's laws, dropping double negations, conjunctions join the
/// clauses of their operands and disjunctions distribute over them.
pub open spec fn cnf_of(f: Formula) -> Seq<Seq<TagLit>>
    decreases cnf_measure(f),
{
    match f {
        Formula::Var(a) => seq![seq![TagLit::Pos(a)]],
        Formula::Not(a) => match *a {
            Formula::Var(b) => seq![seq![TagLit::Neg(b)]],
            Formula::Not(b) => {
                proof {
                    assert(cnf_measure(*a) == 2 * cnf_measure(*b) + 1);
                }
                cnf_of(*b)
            },
            Formula::And(b, c) => {
                proof {
                    assert(cnf_measure(*a) == cnf_measure(*b) + cnf_measure(*c) + 2);
                    let g = Formula::Or(Box::new(Formula::Not(b)), Box::new(Formula::Not(c)));
                    assert(cnf_measure(Formula::Not(b)) == 2 * cnf_measure(*b) + 1);
                    assert(cnf_measure(Formula::Not(c)) == 2 * cnf_measure(*c) + 1);
                    assert(cnf_measure(g) == 2 * cnf_measure(*b) + 2 * cnf_measure(*c) + 4);
                }
                cnf_of(Formula::Or(Box::new(Formula::Not(b)), Box::new(Formula::Not(c))))
            },
            Formula::Or(b, c) => {
                proof {
                    assert(cnf_measure(*a) == cnf_measure(*b) + cnf_measure(*c) + 2);
                    let g = Formula::And(Box::new(Formula::Not(b)), Box::new(Formula::Not(c)));
                    assert(cnf_measure(Formula::Not(b)) == 2 * cnf_measure(*b) + 1);
                    assert(cnf_measure(Formula::Not(c)) == 2 * cnf_measure(*c) + 1);
                    assert(cnf_measure(g) == 2 * cnf_measure(*b) + 2 * cnf_measure(*c) + 4);
                }
                cnf_of(Formula::And(Box::new(Formula::Not(b)), Box::new(Formula::Not(c))))
            },
        },
        Formula::And(a, b) => cnf_of(*a) + cnf_of(*b),
        Formula::Or(a, b) => product(cnf_of(*a), cnf_of(*b)),
    }
}

/// Join two clauses.
fn join_clauses(a: &Vec<TagLit>, b: &Vec<TagLit>) -> (res: Vec<TagLit>)
    ensures
        res@ == a@ + b@,
{
    let mut res: Vec<TagLit> = Vec::new();
    let mut i: usize = 0;
    while i < a.len()
        invariant
            i <= a@.len(),
            res@ == a@.take(i as int),
        decreases a@.len() - i,
    {
        res.push(a[i]);
        i += 1;
        assert(res@ =~= a@.take(i as int));
    }
    let mut j: usize = 0;
    while j < b.len()
        invariant
            i == a@.len(),
            j <= b@.len(),
            res@ == a@ + b@.take(j as int),
        decreases b@.len() - j,
    {
        res.push(b[j]);
        j += 1;
        assert(res@ =~= a@ + b@.take(j as int));
    }
    assert(b@.take(j as int) =~= b@);
    res
}

/// Join every clause of `a` with every clause of `b`.
fn distribute(a: &Vec<Vec<TagLit>>, b: &Vec<Vec<TagLit>>) -> (res: Vec<Vec<TagLit>>)
    ensures
        clauses(res@) == product(clauses(a@), clauses(b@)),
{
    let mut c: Vec<Vec<TagLit>> = Vec::new();
    let mut i: usize = 0;
    while i < a.len()
        invariant
            i <= a@.len(),
            clauses(c@) == product(clauses(a@).take(i as int), clauses(b@)),
        decreases a@.len() - i,
    {
        let ghost before = clauses(c@);
        let mut j: usize = 0;
        while j < b.len()
            invariant
                i < a@.len(),
                j <= b@.len(),
                clauses(c@) == before + clauses(b@).take(j as int).map_values(
                    |bx: Seq<TagLit>| a@[i as int]@ + bx,
                ),
            decreases b@.len() - j,
        {
            let ghost prev = c@;
            let joined = join_clauses(&a[i], &b[j]);
            c.push(joined);
            proof {
                assert(clauses(c@) =~= clauses(prev).push(a@[i as int]@ + b@[j as int]@));
                assert(clauses(b@).take(j + 1).map_values(|bx: Seq<TagLit>| a@[i as int]@ + bx)
                    =~= clauses(b@).take(j as int).map_values(|bx: Seq<TagLit>| a@[i as int]@ + bx).push(
                    a@[i as int]@ + b@[j as int]@,
                ));
            }
            j += 1;
        }
        proof {
            assert(clauses(b@).take(j as int) =~= clauses(b@));
            let ta = clauses(a@).take(i + 1);
            assert(ta.drop_last() =~= clauses(a@).take(i as int));
            assert(ta.last() == a@[i as int]@);
        }
        i += 1;
    }
    proof {
        assert(clauses(a@).take(i as int) =~= clauses(a@));
    }
    c
}

/// The CNF made of a single literal.
fn unit_clause(lit: TagLit) -> (res: Vec<Vec<TagLit>>)
    ensures
        clauses(res@) == seq![seq![lit]],
{
    let mut clause: Vec<TagLit> = Vec::new();
    clause.push(lit);
    let mut res: Vec<Vec<TagLit>> = Vec::new();
    res.push(clause);
    proof {
        assert(clauses(res@) =~= seq![seq![lit]]);
    }
    res
}

/// Rewrite a formula into its CNF.
fn rewrite(formula: Formula) -> (res: Vec<Vec<TagLit>>)
    ensures
        clauses(res@) == cnf_of(formula),
    decreases cnf_measure(formula),
{
    match formula {
        Formula::Var(a) => unit_clause(TagLit::Pos(a)),
        Formula::Not(a) => match *a {
            Formula::Var(b) => unit_clause(TagLit::Neg(b)),
            Formula::Not(b) => {
                proof {
                    assert(cnf_measure(*a) == 2 * cnf_measure(*b) + 1);
                }
                rewrite(*b)
            },
            Formula::And(b, c) => {
                let g = Formula::Or(Box::new(Formula::Not(b)), Box::new(Formula::Not(c)));
                proof {
                    assert(cnf_measure(*a) == cnf_measure(*b) + cnf_measure(*c) + 2);
                    assert(cnf_measure(Formula::Not(b)) == 2 * cnf_measure(*b) + 1);
                    assert(cnf_measure(Formula::Not(c)) == 2 * cnf_measure(*c) + 1);
                    assert(cnf_measure(g) == 2 * cnf_measure(*b) + 2 * cnf_measure(*c) + 4);
                }
                rewrite(g)
            },
            Formula::Or(b, c) => {
                let g = Formula::And(Box::new(Formula::Not(b)), Box::new(Formula::Not(c)));
                proof {
                    assert(cnf_measure(*a) == cnf_measure(*b) + cnf_measure(*c) + 2);
                    assert(cnf_measure(Formula::Not(b)) == 2 * cnf_measure(*b) + 1);
                    assert(cnf_measure(Formula::Not(c)) == 2 * cnf_measure(*c) + 1);
                    assert(cnf_measure(g) == 2 * cnf_measure(*b) + 2 * cnf_measure(*c) + 4);
                }
                rewrite(g)
            },
        },
        Formula::And(a, b) => {
            let mut a = rewrite(*a);
            let mut b = rewrite(*b);
            let ghost ca = clauses(a@);
            let ghost cb = clauses(b@);
            a.append(&mut b);
            proof {
                assert(clauses(a@) =~= ca + cb);
            }
            a
        },
        Formula::Or(a, b) => {
            let a = rewrite(*a);
            let b = rewrite(*b);
            distribute(&a, &b)
        },
    }
}


/// Whether the tag `tag` occurs in a formula.
pub open spec fn has_tag(f: Formula, tag: usize) -> bool
    decreases f,
{
    match f {
        Formula::Var(a) => a == tag,
        Formula::Not(a) => has_tag(*a, tag),
        Formula::And(a, b) => has_tag(*a, tag) || has_tag(*b, tag),
        Formula::Or(a, b) => has_tag(*a, tag) || has_tag(*b, tag),
    }
}

/// Check whether the tag with value zero occurs in a formula.
fn has_tag_zero(f: &Formula) -> (res: bool)
    ensures
        res == has_tag(*f, 0),
    decreases f,
{
    match f {
        Formula::Var(a) => *a == 0,
        Formula::Not(a) => has_tag_zero(a),
        Formula::And(a, b) => has_tag_zero(a) || has_tag_zero(b),
        Formula::Or(a, b) => has_tag_zero(a) || has_tag_zero(b),
    }
}

/// Convert a formula into an equivalent CNF: a conjunction (the outer
/// vector) of disjunctions (the inner vectors) of literals. If the tag
/// with value zero occurs in the formula, there is none.
pub fn formula_to_cnf(formula: Formula) -> (res: Option<Vec<Vec<TagLit>>>)
    ensures
        res is None <==> has_tag(formula, 0),
        res matches Some(cnf) ==> clauses(cnf@) == cnf_of(formula) && forall|assignment: spec_fn(usize) -> bool|
            #[trigger] cnf_holds(clauses(cnf@), assignment) == eval(formula, assignment),
{
    if has_tag_zero(&formula) {
        return None;
    }
    let ghost f = formula;
    let cnf = rewrite(formula);
    proof {
        assert forall|assignment: spec_fn(usize) -> bool| #[trigger] cnf_holds(clauses(cnf@), assignment) == eval(f, assignment) by {
            lemma_cnf_of_eval(f, assignment);
        }
    }
    Some(cnf)
}

/// A disjunction of the literals of a non-empty clause, nested to the
/// right.
pub open spec fn or_chain(clause: Seq<TagLit>) -> Formula
    decreases clause.len(),
{
    if clause.len() <= 1 {
        lit_formula(clause[0])
    } else {
        Formula::Or(Box::new(lit_formula(clause[0])), Box::new(or_chain(clause.drop_first())))
    }
}

/// The conjunction of the disjunctions of the non-empty clauses of `cnf`,
/// nested to the right, if there is any such clause.
pub open spec fn cnf_formula(cnf: Seq<Seq<TagLit>>) -> Option<Formula>
    decreases cnf.len(),
{
    if cnf.len() == 0 {
        None
    } else {
        let rest = cnf_formula(cnf.drop_first());
        if cnf[0].len() == 0 {
            rest
        } else {
            match rest {
                Some(f) => Some(Formula::And(Box::new(or_chain(cnf[0])), Box::new(f))),
                None => Some(or_chain(cnf[0])),
            }
        }
    }
}

/// Convert a formula in CNF into a [`Formula`] object; empty clauses are
/// skipped, and there is none if no clause is left.
pub fn cnf_to_formula(cnf: &Vec<Vec<TagLit>>) -> (res: Option<Formula>)
    ensures
        res == cnf_formula(clauses(cnf@)),
{
    let ghost all = clauses(cnf@);
    let mut formula: Option<Formula> = None;
    let mut i: usize = cnf.len();
    proof {
        assert(all.subrange(i as int, all.len() as int) =~= Seq::<Seq<TagLit>>::empty());
    }
    while i > 0
        invariant
            all == clauses(cnf@),
            i <= cnf@.len(),
            formula == cnf_formula(all.subrange(i as int, all.len() as int)),
        decreases i,
    {
        i -= 1;
        let ors_vec = &cnf[i];
        let ghost tail = all.subrange(i as int, all.len() as int);
        proof {
            assert(tail.drop_first() =~= all.subrange(i + 1, all.len() as int));
            assert(tail[0] == ors_vec@);
        }
        let n = ors_vec.len();
        if n > 0 {
            let mut ors = formula_of_lit(&ors_vec[n - 1]);
            let mut k: usize = n - 1;
            proof {
                assert(ors_vec@.subrange(k as int, n as int).len() == 1);
                assert(ors_vec@.subrange(k as int, n as int)[0] == ors_vec@[k as int]);
            }
            while k > 0
                invariant
                    n == ors_vec@.len(),
                    k < n,
                    ors == or_chain(ors_vec@.subrange(k as int, n as int)),
                decreases k,
            {
                k -= 1;
                let lit = formula_of_lit(&ors_vec[k]);
                proof {
                    let c = ors_vec@.subrange(k as int, n as int);
                    assert(c.drop_first() =~= ors_vec@.subrange(k + 1, n as int));
                    assert(c[0] == ors_vec@[k as int]);
                }
                ors = Formula::Or(Box::new(lit), Box::new(ors));
            }
            proof {
                assert(ors_vec@.subrange(0, n as int) =~= ors_vec@);
            }
            formula = match formula {
                Some(f) => Some(Formula::And(Box::new(ors), Box::new(f))),
                None => Some(ors),
            };
        }
    }
    proof {
        assert(all.subrange(0, all.len() as int) =~= all);
    }
    formula
}

proof fn lemma_clause_concat(x: Seq<TagLit>, y: Seq<TagLit>, assignment: spec_fn(usize) -> bool)
    ensures
        clause_holds(x + y, assignment) == (clause_holds(x, assignment) || clause_holds(y, assignment)),
{
    let xy = x + y;
    if clause_holds(xy, assignment) {
        let j = choose|j: int| 0 <= j < xy.len() && #[trigger] lit_holds(xy[j], assignment);
        if j < x.len() {
            assert(xy[j] == x[j]);
        } else {
            assert(xy[j] == y[j - x.len()]);
        }
    }
    if clause_holds(x, assignment) {
        let j = choose|j: int| 0 <= j < x.len() && #[trigger] lit_holds(x[j], assignment);
        assert(xy[j] == x[j]);
    }
    if clause_holds(y, assignment) {
        let j = choose|j: int| 0 <= j < y.len() && #[trigger] lit_holds(y[j], assignment);
        assert(xy[x.len() + j] == y[j]);
    }
}

proof fn lemma_cnf_concat(x: Seq<Seq<TagLit>>, y: Seq<Seq<TagLit>>, assignment: spec_fn(usize) -> bool)
    ensures
        cnf_holds(x + y, assignment) == (cnf_holds(x, assignment) && cnf_holds(y, assignment)),
{
    let xy = x + y;
    if cnf_holds(x, assignment) && cnf_holds(y, assignment) {
        assert forall|i: int| 0 <= i < xy.len() implies #[trigger] clause_holds(xy[i], assignment) by {
            if i < x.len() {
                assert(xy[i] == x[i]);
            } else {
                assert(xy[i] == y[i - x.len()]);
            }
        }
    }
    if cnf_holds(xy, assignment) {
        assert forall|i: int| 0 <= i < x.len() implies #[trigger] clause_holds(x[i], assignment) by {
            assert(xy[i] == x[i]);
        }
        assert forall|i: int| 0 <= i < y.len() implies #[trigger] clause_holds(y[i], assignment) by {
            assert(xy[x.len() + i] == y[i]);
        }
    }
}

/// Joining a clause with every clause of `b` gives a CNF that holds
/// exactly where the clause or `b` holds.
proof fn lemma_join_each(ax: Seq<TagLit>, b: Seq<Seq<TagLit>>, assignment: spec_fn(usize) -> bool)
    ensures
        cnf_holds(b.map_values(|bx: Seq<TagLit>| ax + bx), assignment) == (clause_holds(ax, assignment)
            || cnf_holds(b, assignment)),
{
    let m = b.map_values(|bx: Seq<TagLit>| ax + bx);
    assert forall|i: int| 0 <= i < b.len() implies #[trigger] clause_holds(m[i], assignment) == (clause_holds(
        ax,
        assignment,
    ) || clause_holds(b[i], assignment)) by {
        lemma_clause_concat(ax, b[i], assignment);
    }
    if cnf_holds(m, assignment) && !clause_holds(ax, assignment) {
        assert forall|i: int| 0 <= i < b.len() implies #[trigger] clause_holds(b[i], assignment) by {
            assert(clause_holds(m[i], assignment));
        }
    }
    if clause_holds(ax, assignment) || cnf_holds(b, assignment) {
        assert forall|i: int| 0 <= i < m.len() implies #[trigger] clause_holds(m[i], assignment) by {
            if !clause_holds(ax, assignment) {
                assert(clause_holds(b[i], assignment));
            }
        }
    }
}

/// Distributing a disjunction over two CNFs preserves its meaning.
proof fn lemma_product(a: Seq<Seq<TagLit>>, b: Seq<Seq<TagLit>>, assignment: spec_fn(usize) -> bool)
    ensures
        cnf_holds(product(a, b), assignment) == (cnf_holds(a, assignment) || cnf_holds(b, assignment)),
    decreases a.len(),
{
    if a.len() > 0 {
        lemma_product(a.drop_last(), b, assignment);
        lemma_join_each(a.last(), b, assignment);
        lemma_cnf_concat(
            product(a.drop_last(), b),
            b.map_values(|bx: Seq<TagLit>| a.last() + bx),
            assignment,
        );
        assert(a =~= a.drop_last() + seq![a.last()]);
        lemma_cnf_concat(a.drop_last(), seq![a.last()], assignment);
    }
}

/// The CNF of a formula holds exactly where the formula holds.
proof fn lemma_cnf_of_eval(f: Formula, assignment: spec_fn(usize) -> bool)
    ensures
        cnf_holds(cnf_of(f), assignment) == eval(f, assignment),
    decreases cnf_measure(f),
{
    match f {
        Formula::Var(a) => {
            let c = cnf_of(f);
            assert(lit_holds(c[0][0], assignment) == assignment(a));
            assert(clause_holds(c[0], assignment) == assignment(a));
            assert(cnf_holds(c, assignment) == clause_holds(c[0], assignment));
            assert(eval(f, assignment) == assignment(a));
        },
        Formula::Not(a) => match *a {
            Formula::Var(b) => {
                let c = cnf_of(f);
                assert(eval(*a, assignment) == assignment(b));
                assert(lit_holds(c[0][0], assignment) == !assignment(b));
                assert(clause_holds(c[0], assignment) == !assignment(b));
                assert(cnf_holds(c, assignment) == clause_holds(c[0], assignment));
            },
            Formula::Not(b) => {
                assert(cnf_measure(*a) == 2 * cnf_measure(*b) + 1);
                lemma_cnf_of_eval(*b, assignment);
                assert(eval(*a, assignment) == !eval(*b, assignment));
            },
            Formula::And(b, c) => {
                let g = Formula::Or(Box::new(Formula::Not(b)), Box::new(Formula::Not(c)));
                assert(cnf_measure(*a) == cnf_measure(*b) + cnf_measure(*c) + 2);
                assert(cnf_measure(Formula::Not(b)) == 2 * cnf_measure(*b) + 1);
                assert(cnf_measure(Formula::Not(c)) == 2 * cnf_measure(*c) + 1);
                lemma_cnf_of_eval(g, assignment);
                assert(eval(Formula::Not(b), assignment) == !eval(*b, assignment));
                assert(eval(Formula::Not(c), assignment) == !eval(*c, assignment));
                assert(eval(*a, assignment) == (eval(*b, assignment) && eval(*c, assignment)));
            },
            Formula::Or(b, c) => {
                let g = Formula::And(Box::new(Formula::Not(b)), Box::new(Formula::Not(c)));
                assert(cnf_measure(*a) == cnf_measure(*b) + cnf_measure(*c) + 2);
                assert(cnf_measure(Formula::Not(b)) == 2 * cnf_measure(*b) + 1);
                assert(cnf_measure(Formula::Not(c)) == 2 * cnf_measure(*c) + 1);
                lemma_cnf_of_eval(g, assignment);
                assert(eval(Formula::Not(b), assignment) == !eval(*b, assignment));
                assert(eval(Formula::Not(c), assignment) == !eval(*c, assignment));
                assert(eval(*a, assignment) == (eval(*b, assignment) || eval(*c, assignment)));
            },
        },
        Formula::And(a, b) => {
            lemma_cnf_of_eval(*a, assignment);
            lemma_cnf_of_eval(*b, assignment);
            lemma_cnf_concat(cnf_of(*a), cnf_of(*b), assignment);
        },
        Formula::Or(a, b) => {
            lemma_cnf_of_eval(*a, assignment);
            lemma_cnf_of_eval(*b, assignment);
            lemma_product(cnf_of(*a), cnf_of(*b), assignment);
        },
    }
}

proof fn lemma_or_chain_eval(clause: Seq<TagLit>, assignment: spec_fn(usize) -> bool)
    requires
        clause.len() > 0,
    ensures
        eval(or_chain(clause), assignment) == clause_holds(clause, assignment),
    decreases clause.len(),
{
    let l = lit_formula(clause[0]);
    assert(eval(l, assignment) == lit_holds(clause[0], assignment)) by {
        match clause[0] {
            TagLit::Pos(t) => {},
            TagLit::Neg(t) => {
                assert(eval(Formula::Var(t), assignment) == assignment(t));
            },
        }
    }
    if clause.len() == 1 {
        if clause_holds(clause, assignment) {
            let j = choose|j: int| 0 <= j < clause.len() && #[trigger] lit_holds(clause[j], assignment);
            assert(j == 0);
        }
    } else {
        let rest = clause.drop_first();
        lemma_or_chain_eval(rest, assignment);
        assert(clause =~= seq![clause[0]] + rest);
        lemma_clause_concat(seq![clause[0]], rest, assignment);
        if clause_holds(seq![clause[0]], assignment) {
            let j = choose|j: int| 0 <= j < 1 && #[trigger] lit_holds(seq![clause[0]][j], assignment);
            assert(j == 0);
        }
        assert(lit_holds(seq![clause[0]][0], assignment) == lit_holds(clause[0], assignment));
    }
}

/// The formula made of a CNF whose clauses are all non-empty holds
/// exactly where the CNF holds.
pub proof fn lemma_cnf_formula_eval(cnf: Seq<Seq<TagLit>>, assignment: spec_fn(usize) -> bool)
    requires
        cnf.len() > 0,
        forall|i: int| 0 <= i < cnf.len() ==> #[trigger] cnf[i].len() > 0,
    ensures
        cnf_formula(cnf) matches Some(f) && eval(f, assignment) == cnf_holds(cnf, assignment),
    decreases cnf.len(),
{
    lemma_or_chain_eval(cnf[0], assignment);
    let rest = cnf.drop_first();
    assert(cnf =~= seq![cnf[0]] + rest);
    lemma_cnf_concat(seq![cnf[0]], rest, assignment);
    assert(cnf_holds(seq![cnf[0]], assignment) == clause_holds(cnf[0], assignment)) by {
        assert(seq![cnf[0]][0] == cnf[0]);
    }
    if rest.len() > 0 {
        assert forall|i: int| 0 <= i < rest.len() implies #[trigger] rest[i].len() > 0 by {
            assert(rest[i] == cnf[i + 1]);
        }
        lemma_cnf_formula_eval(rest, assignment);
    } else {
        assert(cnf_holds(rest, assignment));
    }
}

proof fn lemma_product_nonempty(a: Seq<Seq<TagLit>>, b: Seq<Seq<TagLit>>)
    requires
        a.len() > 0,
        b.len() > 0,
        forall|i: int| 0 <= i < a.len() ==> #[trigger] a[i].len() > 0,
        forall|i: int| 0 <= i < b.len() ==> #[trigger] b[i].len() > 0,
    ensures
        product(a, b).len() > 0,
        forall|i: int| 0 <= i < product(a, b).len() ==> #[trigger] product(a, b)[i].len() > 0,
    decreases a.len(),
{
    let m = b.map_values(|bx: Seq<TagLit>| a.last() + bx);
    assert(a.last() == a[a.len() - 1]);
    if a.len() > 1 {
        lemma_product_nonempty(a.drop_last(), b);
        let p = product(a.drop_last(), b);
        assert forall|i: int| 0 <= i < product(a, b).len() implies #[trigger] product(a, b)[i].len() > 0 by {
            if i < p.len() {
                assert(product(a, b)[i] == p[i]);
            } else {
                assert(product(a, b)[i] == m[i - p.len()]);
                assert(b[i - p.len()].len() > 0);
            }
        }
    } else {
        assert(product(a.drop_last(), b) =~= Seq::<Seq<TagLit>>::empty());
        assert forall|i: int| 0 <= i < product(a, b).len() implies #[trigger] product(a, b)[i].len() > 0 by {
            assert(product(a, b)[i] == m[i]);
            assert(b[i].len() > 0);
        }
    }
}

/// The CNF of a formula is non-empty and has no empty clause.
pub proof fn lemma_cnf_of_nonempty(f: Formula)
    ensures
        cnf_of(f).len() > 0,
        forall|i: int| 0 <= i < cnf_of(f).len() ==> #[trigger] cnf_of(f)[i].len() > 0,
    decreases cnf_measure(f),
{
    match f {
        Formula::Var(a) => {},
        Formula::Not(a) => match *a {
            Formula::Var(b) => {},
            Formula::Not(b) => {
                assert(cnf_measure(*a) == 2 * cnf_measure(*b) + 1);
                lemma_cnf_of_nonempty(*b);
            },
            Formula::And(b, c) => {
                let g = Formula::Or(Box::new(Formula::Not(b)), Box::new(Formula::Not(c)));
                assert(cnf_measure(*a) == cnf_measure(*b) + cnf_measure(*c) + 2);
                assert(cnf_measure(Formula::Not(b)) == 2 * cnf_measure(*b) + 1);
                assert(cnf_measure(Formula::Not(c)) == 2 * cnf_measure(*c) + 1);
                lemma_cnf_of_nonempty(g);
            },
            Formula::Or(b, c) => {
                let g = Formula::And(Box::new(Formula::Not(b)), Box::new(Formula::Not(c)));
                assert(cnf_measure(*a) == cnf_measure(*b) + cnf_measure(*c) + 2);
                assert(cnf_measure(Formula::Not(b)) == 2 * cnf_measure(*b) + 1);
                assert(cnf_measure(Formula::Not(c)) == 2 * cnf_measure(*c) + 1);
                lemma_cnf_of_nonempty(g);
            },
        },
        Formula::And(a, b) => {
            lemma_cnf_of_nonempty(*a);
            lemma_cnf_of_nonempty(*b);
            let x = cnf_of(*a);
            let y = cnf_of(*b);
            assert forall|i: int| 0 <= i < cnf_of(f).len() implies #[trigger] cnf_of(f)[i].len() > 0 by {
                if i < x.len() {
                    assert(cnf_of(f)[i] == x[i]);
                } else {
                    assert(cnf_of(f)[i] == y[i - x.len()]);
                }
            }
        },
        Formula::Or(a, b) => {
            lemma_cnf_of_nonempty(*a);
            lemma_cnf_of_nonempty(*b);
            lemma_product_nonempty(cnf_of(*a), cnf_of(*b));
        },
    }
}

/// Converting a formula into CNF and back gives an equivalent formula.
pub proof fn lemma_cnf_roundtrip(f: Formula, assignment: spec_fn(usize) -> bool)
    ensures
        cnf_formula(cnf_of(f)) matches Some(g) && eval(g, assignment) == eval(f, assignment),
{
    lemma_cnf_of_nonempty(f);
    lemma_cnf_formula_eval(cnf_of(f), assignment);
    lemma_cnf_of_eval(f, assignment);
}

/// The characters of a string.
pub open spec fn text_of(s: &String) -> Seq<char> {
    s@
}

/// A formula together with its textual form, which is the source of
/// truth: two pairs are equal when their texts are.
#[derive(Debug)]
pub struct FormulaPair {
    /// The textual representation of the formula.
    pub string: String,
    /// The parsed formula.
    pub formula: Option<Formula>,
}

impl Clone for FormulaPair {
    fn clone(&self) -> (res: FormulaPair)
        ensures
            res.string@ == self.string@,
            res.formula == self.formula,
    {
        let formula = match &self.formula {
            Some(f) => Some(f.clone()),
            None => None,
        };
        FormulaPair { string: self.string.clone(), formula }
    }
}

impl Default for FormulaPair {
    fn default() -> (res: FormulaPair)
        ensures
            res.string@ == Seq::<char>::empty(),
            res.formula is None,
    {
        FormulaPair { string: String::new(), formula: None }
    }
}

impl PartialEq for FormulaPair {
    fn eq(&self, other: &FormulaPair) -> (res: bool) {
        self.string == other.string
    }
}

impl vstd::std_specs::cmp::PartialEqSpecImpl for FormulaPair {
    open spec fn obeys_eq_spec() -> bool {
        true
    }

    open spec fn eq_spec(&self, other: &FormulaPair) -> bool {
        self.string@ == other.string@
    }
}

impl Eq for FormulaPair {
}

impl FormulaPair {
    /// Pair a formula with its textual form.
    pub fn from_formula(other: Formula) -> (res: FormulaPair)
        ensures
            res.string@ == spec_print(other, Chaining::Any),
            res.formula == Some(other),
    {
        let string = other.to_string();
        FormulaPair { string, formula: Some(other) }
    }

    /// The pair for the text `string`, as it is read back from a
    /// configuration: an empty text stands for no formula, any other
    /// text for the formula it parses to; `None` where it parses to
    /// none.
    pub fn from_text(string: String) -> (res: Option<FormulaPair>)
        ensures
            string@.len() == 0 ==> (res matches Some(p) && p.string@ == string@ && p.formula is None),
            string@.len() > 0 ==> (res is Some <==> spec_parse_formula(string@) is Ok),
            string@.len() > 0 ==> (res matches Some(p) ==> p.string@ == string@ && p.formula == Some(
                spec_parse_formula(string@)->Ok_0,
            )),
    {
        if chars_of(string.as_str()).len() == 0 {
            return Some(FormulaPair { string, formula: None });
        }
        let parsed = match parse_formula(string.as_str()) {
            Ok(f) => Some(f),
            Err(_) => None,
        };
        match parsed {
            Some(f) => Some(FormulaPair { string, formula: Some(f) }),
            None => None,
        }
    }
}

/// The assignment under which exactly the tags with the identifiers in
/// `tags` hold.
pub open spec fn tag_assignment(tags: Seq<usize>) -> spec_fn(usize) -> bool {
    |t: usize| tags.contains(t)
}

/// Check whether `tags` holds the identifier `t`.
pub(crate) fn holds_tag(tags: &Vec<usize>, t: usize) -> (res: bool)
    ensures
        res == tags@.contains(t),
{
    let mut i: usize = 0;
    while i < tags.len()
        invariant
            i <= tags@.len(),
            forall|j: int| 0 <= j < i ==> tags@[j] != t,
        decreases tags@.len() - i,
    {
        if tags[i] == t {
            return true;
        }
        i += 1;
    }
    false
}

/// Check whether a task with the tags `tags` satisfies the CNF `cnf`:
/// every clause has a literal that holds.
pub fn matches_cnf(cnf: &Vec<Vec<TagLit>>, tags: &Vec<usize>) -> (res: bool)
    ensures
        res == cnf_holds(clauses(cnf@), tag_assignment(tags@)),
{
    let mut i: usize = 0;
    while i < cnf.len()
        invariant
            i <= cnf@.len(),
            forall|j: int| 0 <= j < i ==> #[trigger] clause_holds(clauses(cnf@)[j], tag_assignment(tags@)),
        decreases cnf@.len() - i,
    {
        if !crate::query::Filter::matches(&cnf[i], tags) {
            assert(!clause_holds(clauses(cnf@)[i as int], tag_assignment(tags@)));
            return false;
        }
        i += 1;
    }
    true
}

/// Whether the task `task` satisfies the CNF `cnf`.
pub open spec fn task_matches(task: Task, cnf: Seq<Seq<TagLit>>) -> bool {
    cnf_holds(cnf, tag_assignment(task@.2))
}

/// The identities of the entries whose tasks satisfy `cnf`, in order.
pub open spec fn query_result(entries: TaskEntries, cnf: Seq<Seq<TagLit>>) -> Seq<u64> {
    entries.filter(|e: (Item<Task>, ())| task_matches(e.0.spec_value(), cnf)).map_values(
        |e: (Item<Task>, ())| e.0.key(),
    )
}

/// Retrieve the identities of the tasks that satisfy the CNF `cnf`, in
/// the order of the tasks.
pub fn query_tasks(tasks: &Tasks, cnf: &Vec<Vec<TagLit>>) -> (res: Vec<u64>)
    ensures
        res@ == query_result(tasks.entries(), clauses(cnf@)),
{
    let items = tasks.iter();
    let ghost entries = tasks.entries();
    let ghost c = clauses(cnf@);
    let mut res: Vec<u64> = Vec::new();
    let mut i: usize = 0;
    while i < items.len()
        invariant
            i <= items@.len(),
            items@.len() == entries.len(),
            forall|j: int| 0 <= j < entries.len() ==> *#[trigger] items@[j] == entries[j].0,
            c == clauses(cnf@),
            res@ == query_result(entries.take(i as int), c),
        decreases items@.len() - i,
    {
        let item = items[i];
        let tags = item.value().tag_id_values();
        let ok = matches_cnf(cnf, &tags);
        proof {
            let pred = |e: (Item<Task>, ())| task_matches(e.0.spec_value(), c);
            let next = entries.take(i + 1);
            assert(next.drop_last() =~= entries.take(i as int));
            assert(next.last() == entries[i as int]);
            reveal(Seq::filter);
            assert(next.filter(pred) == if pred(next.last()) {
                entries.take(i as int).filter(pred).push(next.last())
            } else {
                entries.take(i as int).filter(pred)
            });
        }
        if ok {
            res.push(item.identity());
            proof {
                let pred = |e: (Item<Task>, ())| task_matches(e.0.spec_value(), c);
                let f = entries.take(i as int).filter(pred);
                assert(f.push(entries[i as int]).map_values(|e: (Item<Task>, ())| e.0.key()) =~= f.map_values(
                    |e: (Item<Task>, ())| e.0.key(),
                ).push(entries[i as int].0.key()));
            }
        }
        i += 1;
    }
    proof {
        assert(entries.take(entries.len() as int) =~= entries);
    }
    res
}

} // verus!
