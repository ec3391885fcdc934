//! Queries: tasks filtered by a conjunction of disjunctions of tags,
//! each of which must be present or absent.

use vstd::prelude::*;

use crate::tags::Tag;
use crate::tags::Templates;
use crate::tasks::Tasks;
use crate::view::clause_holds;
use crate::view::cnf_holds;
use crate::view::holds_tag;
use crate::view::lit_holds;
use crate::view::query_result;
use crate::view::tag_assignment;
use crate::view::TagLit;

verus! {

/// A filter of tasks by their tags: a conjunction (the outer vector) of
/// disjunctions (the inner vectors) of literals.
pub struct Filter {
    lits: Vec<Vec<TagLit>>,
}

impl Filter {
    /// The disjunctions of the filter.
    pub closed spec fn clauses(&self) -> Seq<Seq<TagLit>> {
        crate::view::clauses(self.lits@)
    }

    /// Create a filter from its disjunctions.
    pub fn new(lits: Vec<Vec<TagLit>>) -> (res: Filter)
        ensures
            res.clauses() == crate::view::clauses(lits@),
    {
        Filter { lits }
    }

    /// Check whether one of the literals `lits` holds for a task with the
    /// tags `avail_tags`: a positive one whose tag is among them, or a
    /// negative one whose tag is not.
    pub fn matches(lits: &Vec<TagLit>, avail_tags: &Vec<usize>) -> (res: bool)
        ensures
            res == clause_holds(lits@, tag_assignment(avail_tags@)),
    {
        let mut i: usize = 0;
        while i < lits.len()
            invariant
                i <= lits@.len(),
                forall|j: int| 0 <= j < i ==> !lit_holds(#[trigger] lits@[j], tag_assignment(avail_tags@)),
            decreases lits@.len() - i,
        {
            let lit = lits[i];
            let must_exist = match lit {
                TagLit::Pos(_) => true,
                TagLit::Neg(_) => false,
            };
            if holds_tag(avail_tags, lit.name()) == must_exist {
                assert(lit_holds(lits@[i as int], tag_assignment(avail_tags@)));
                return true;
            }
            i += 1;
        }
        false
    }

    /// Check whether a task with the tags `avail_tags` satisfies the
    /// filter: each of its disjunctions holds.
    pub fn matched_by(&self, avail_tags: &Vec<usize>) -> (res: bool)
        ensures
            res == cnf_holds(self.clauses(), tag_assignment(avail_tags@)),
    {
        crate::view::matches_cnf(&self.lits, avail_tags)
    }
}

/// The disjunctions after adding `lit` to the last one, or as the first
/// one where there is none.
pub open spec fn or_added(lits: Seq<Seq<TagLit>>, lit: TagLit) -> Seq<Seq<TagLit>> {
    if lits.len() == 0 {
        seq![seq![lit]]
    } else {
        lits.update(lits.len() - 1, lits.last().push(lit))
    }
}

/// A builder of a query: tags are added to a conjunction of
/// disjunctions. An added conjunction always starts a new disjunction,
/// so `or(1).and(2).or(3).and(4)` stands for `1 & (2 | 3) & 4`.
pub struct QueryBuilder {
    lits: Vec<Vec<TagLit>>,
}

impl QueryBuilder {
    /// The disjunctions built so far.
    pub closed spec fn clauses(&self) -> Seq<Seq<TagLit>> {
        crate::view::clauses(self.lits@)
    }

    /// Create a builder without any tags.
    pub fn new() -> (res: QueryBuilder)
        ensures
            res.clauses() == Seq::<Seq<TagLit>>::empty(),
    {
        let res = QueryBuilder { lits: Vec::new() };
        assert(res.clauses() =~= Seq::<Seq<TagLit>>::empty());
        res
    }

    fn and_lit(self, lit: TagLit) -> (res: QueryBuilder)
        ensures
            res.clauses() == self.clauses().push(seq![lit]),
    {
        let mut lits = self.lits;
        let ghost before = lits@;
        let mut clause: Vec<TagLit> = Vec::new();
        clause.push(lit);
        lits.push(clause);
        proof {
            assert(crate::view::clauses(lits@) =~= crate::view::clauses(before).push(seq![lit]));
        }
        QueryBuilder { lits }
    }

    fn or_lit(self, lit: TagLit) -> (res: QueryBuilder)
        ensures
            res.clauses() == or_added(self.clauses(), lit),
    {
        let mut lits = self.lits;
        let ghost before = lits@;
        let n = lits.len();
        if n == 0 {
            let mut clause: Vec<TagLit> = Vec::new();
            clause.push(lit);
            lits.push(clause);
            proof {
                assert(crate::view::clauses(lits@) =~= seq![seq![lit]]);
            }
        } else {
            let mut last = lits.pop().unwrap();
            last.push(lit);
            lits.push(last);
            proof {
                assert(crate::view::clauses(lits@) =~= crate::view::clauses(before).update(
                    n - 1,
                    crate::view::clauses(before).last().push(lit),
                ));
            }
        }
        QueryBuilder { lits }
    }

    /// Add a disjunction holding just `tag`.
    pub fn and(self, tag: &Tag) -> (res: QueryBuilder)
        ensures
            res.clauses() == self.clauses().push(seq![TagLit::Pos(tag.id())]),
    {
        self.and_lit(TagLit::Pos(tag.id_value()))
    }

    /// Add a disjunction holding just the negation of `tag`.
    pub fn and_not(self, tag: &Tag) -> (res: QueryBuilder)
        ensures
            res.clauses() == self.clauses().push(seq![TagLit::Neg(tag.id())]),
    {
        self.and_lit(TagLit::Neg(tag.id_value()))
    }

    /// Add `tag` to the last disjunction.
    pub fn or(self, tag: &Tag) -> (res: QueryBuilder)
        ensures
            res.clauses() == or_added(self.clauses(), TagLit::Pos(tag.id())),
    {
        self.or_lit(TagLit::Pos(tag.id_value()))
    }

    /// Add the negation of `tag` to the last disjunction.
    pub fn or_not(self, tag: &Tag) -> (res: QueryBuilder)
        ensures
            res.clauses() == or_added(self.clauses(), TagLit::Neg(tag.id())),
    {
        self.or_lit(TagLit::Neg(tag.id_value()))
    }

    /// Build the query with the name `name`.
    pub fn build(self, name: String) -> (res: Query)
        ensures
            res.clauses() == self.clauses(),
            res.spec_name() == name@,
    {
        Query { name, lits: self.lits }
    }
}

/// Whether every literal of `lits` names one of the templates `known`.
pub open spec fn all_known(lits: Seq<Seq<TagLit>>, known: Map<usize, Seq<char>>) -> bool {
    forall|i: int, j: int|
        0 <= i < lits.len() && 0 <= j < lits[i].len() ==> known.contains_key(#[trigger] lits[i][j].name_spec())
}

/// Whether `bad` is the first tag identifier of `lits`, in order, that
/// names none of the templates `known`.
pub open spec fn first_unknown(lits: Seq<Seq<TagLit>>, known: Map<usize, Seq<char>>, bad: usize) -> bool {
    exists|i: int, j: int|
        #![trigger lits[i][j]]
        0 <= i < lits.len() && 0 <= j < lits[i].len() && lits[i][j].name_spec() == bad && !known.contains_key(bad)
            && all_known(lits.take(i), known) && forall|k: int|
            0 <= k < j ==> known.contains_key(#[trigger] lits[i][k].name_spec())
}

/// A named filter of tasks by their tags.
pub struct Query {
    name: String,
    lits: Vec<Vec<TagLit>>,
}

impl Query {
    /// The disjunctions of the query.
    pub closed spec fn clauses(&self) -> Seq<Seq<TagLit>> {
        crate::view::clauses(self.lits@)
    }

    /// The name of the query.
    pub closed spec fn spec_name(&self) -> Seq<char> {
        self.name@
    }

    /// Create a query named `name` from its disjunctions of literals,
    /// whose tags must name templates of `templates`; the first tag
    /// that names none is the error.
    pub fn with_serde(name: String, lits: Vec<Vec<TagLit>>, templates: &Templates) -> (res: Result<Query, usize>)
        requires
            templates.wf(),
        ensures
            res is Ok <==> all_known(crate::view::clauses(lits@), templates@),
            res matches Ok(q) ==> q.clauses() == crate::view::clauses(lits@) && q.spec_name() == name@,
            res matches Err(bad) ==> first_unknown(crate::view::clauses(lits@), templates@, bad),
    {
        let ghost c = crate::view::clauses(lits@);
        let mut i: usize = 0;
        while i < lits.len()
            invariant
                templates.wf(),
                c == crate::view::clauses(lits@),
                i <= lits@.len(),
                all_known(c.take(i as int), templates@),
            decreases lits@.len() - i,
        {
            let clause = &lits[i];
            let mut j: usize = 0;
            while j < clause.len()
                invariant
                    templates.wf(),
                    c == crate::view::clauses(lits@),
                    i < lits@.len(),
                    *clause == lits@[i as int],
                    j <= clause@.len(),
                    all_known(c.take(i as int), templates@),
                    forall|k: int| 0 <= k < j ==> templates@.contains_key(#[trigger] c[i as int][k].name_spec()),
                decreases clause@.len() - j,
            {
                let id = clause[j].name();
                match templates.instantiate(id) {
                    Some(_) => {},
                    None => {
                        proof {
                            assert(c[i as int][j as int] == clause@[j as int]);
                            assert(first_unknown(c, templates@, id));
                        }
                        return Err(id);
                    },
                }
                j += 1;
            }
            proof {
                assert forall|a: int, b: int|
                    0 <= a < c.take(i + 1).len() && 0 <= b < c.take(i + 1)[a].len() implies templates@.contains_key(
                    #[trigger] c.take(i + 1)[a][b].name_spec(),
                ) by {
                    if a < i {
                        assert(c.take(i + 1)[a] == c.take(i as int)[a]);
                    }
                }
            }
            i += 1;
        }
        proof {
            assert(c.take(lits@.len() as int) =~= c);
        }
        Ok(Query { name, lits })
    }

    /// Retrieve the identities of the tasks of `tasks` that satisfy the
    /// query, in order.
    pub fn iter(&self, tasks: &Tasks) -> (res: Vec<u64>)
        ensures
            res@ == query_result(tasks.entries(), self.clauses()),
    {
        crate::view::query_tasks(tasks, &self.lits)
    }

    /// Check whether no task of `tasks` satisfies the query.
    pub fn is_empty(&self, tasks: &Tasks) -> (res: bool)
        ensures
            res == (query_result(tasks.entries(), self.clauses()).len() == 0),
    {
        self.iter(tasks).len() == 0
    }

    /// Retrieve the query's name.
    pub fn name(&self) -> (res: &str)
        ensures
            res@ == self.spec_name(),
    {
        self.name.as_str()
    }

    /// Retrieve the query's disjunctions.
    pub fn lits(&self) -> (res: &Vec<Vec<TagLit>>)
        ensures
            crate::view::clauses(res@) == self.clauses(),
    {
        &self.lits
    }
}

} // verus!
