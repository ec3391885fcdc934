//! Tag templates, the tags instantiated from them, and the collection
//! of templates known to a task set.

use std::collections::BTreeMap;
use std::rc::Rc;

use vstd::prelude::*;
use vstd::std_specs::cmp::OrdSpec;
use vstd::std_specs::iter::IteratorSpec;

use crate::db::rc_clone;
use crate::id::AllocId;
use crate::id::Id;

verus! {

broadcast use {
    vstd::std_specs::btree::group_btree_axioms,
    vstd::laws_cmp::group_laws_cmp,
    vstd::string::group_string_axioms,
};

/// The space of template identifiers.
#[derive(Debug)]
pub struct TemplateSpace;

/// The template of a tag: its identifier and its name.
#[derive(Debug)]
pub struct Template {
    id: Id<TemplateSpace>,
    name: String,
}

impl Template {
    /// The identifier of the template.
    pub closed spec fn id(&self) -> usize {
        self.id.value()
    }

    /// The name of the template.
    pub closed spec fn spec_name(&self) -> Seq<char> {
        self.name@
    }

    /// Create a tag template with the given identifier and name.
    pub fn new(id: Id<TemplateSpace>, name: String) -> (res: Self)
        ensures
            res.id() == id.value(),
            res.spec_name() == name@,
    {
        Template { id, name }
    }

    /// Retrieve the identifier of the template.
    pub fn id_value(&self) -> (res: usize)
        ensures
            res == self.id(),
            res > 0,
    {
        self.id.get()
    }

    /// Retrieve the template's name.
    pub fn name(&self) -> (res: &str)
        ensures
            res@ == self.spec_name(),
    {
        self.name.as_str()
    }
}

/// Templates are the same where their identifiers are.
impl PartialEq for Template {
    fn eq(&self, other: &Template) -> (res: bool) {
        self.id_value() == other.id_value()
    }
}

impl vstd::std_specs::cmp::PartialEqSpecImpl for Template {
    open spec fn obeys_eq_spec() -> bool {
        true
    }

    open spec fn eq_spec(&self, other: &Template) -> bool {
        self.id() == other.id()
    }
}

impl Eq for Template {
}

/// A tag, as it is set on a task, instantiated from a shared template.
#[derive(Debug)]
pub struct Tag {
    template: Rc<Template>,
}

impl Tag {
    /// The identifier of the tag's template.
    pub open spec fn id(&self) -> usize {
        self.spec_template().id()
    }

    /// The tag's template.
    pub closed spec fn spec_template(&self) -> Template {
        *self.template
    }

    /// Create a tag referencing `template`.
    pub fn new(template: Rc<Template>) -> (res: Self)
        ensures
            res.spec_template() == *template,
    {
        Tag { template }
    }

    /// Retrieve the tag's name.
    pub fn name(&self) -> (res: &str)
        ensures
            res@ == self.spec_template().spec_name(),
    {
        self.template.name()
    }

    /// Retrieve the identifier of the tag's template.
    pub fn id_value(&self) -> (res: usize)
        ensures
            res == self.id(),
            res > 0,
    {
        self.template.id_value()
    }

    /// Retrieve the tag's template.
    pub fn template(&self) -> (res: Rc<Template>)
        ensures
            *res == self.spec_template(),
    {
        rc_clone(&self.template)
    }
}

impl Clone for Tag {
    fn clone(&self) -> (res: Self)
        ensures
            res == *self,
    {
        Tag { template: rc_clone(&self.template) }
    }
}

/// Tags are the same where their templates are.
impl PartialEq for Tag {
    fn eq(&self, other: &Tag) -> (res: bool) {
        self.id_value() == other.id_value()
    }
}

impl vstd::std_specs::cmp::PartialEqSpecImpl for Tag {
    open spec fn obeys_eq_spec() -> bool {
        true
    }

    open spec fn eq_spec(&self, other: &Tag) -> bool {
        self.id() == other.id()
    }
}

impl Eq for Tag {
}

/// Whether the identifier at position `j` of `ids` cannot be reserved
/// after those before it: it is zero or it occurs earlier.
pub open spec fn bad_id_at(ids: Seq<usize>, j: int) -> bool {
    ids[j] == 0 || exists|k: int| 0 <= k < j && ids[k] == ids[j]
}

/// Whether every identifier of `ids` can be reserved in turn.
pub open spec fn all_ids_ok(ids: Seq<usize>) -> bool {
    forall|j: int| 0 <= j < ids.len() ==> !#[trigger] bad_id_at(ids, j)
}

/// Whether `id` is the first identifier of `ids` that cannot be
/// reserved.
pub open spec fn is_first_bad_id(ids: Seq<usize>, id: usize) -> bool {
    exists|j: int|
        0 <= j < ids.len() && #[trigger] bad_id_at(ids, j) && id == ids[j] && forall|k: int|
            0 <= k < j ==> !#[trigger] bad_id_at(ids, k)
}

/// The templates described by `(identifier, name)` pairs.
pub open spec fn templates_of(entries: Seq<(usize, Seq<char>)>) -> Map<usize, Seq<char>>
    decreases entries.len(),
{
    if entries.len() == 0 {
        Map::empty()
    } else {
        templates_of(entries.drop_last()).insert(entries.last().0, entries.last().1)
    }
}

/// The identifiers of `(identifier, name)` pairs.
pub open spec fn ids_of(entries: Seq<(usize, String)>) -> Seq<usize> {
    entries.map_values(|e: (usize, String)| e.0)
}

/// The `(identifier, name)` pairs as plain values.
pub open spec fn entries_view(entries: Seq<(usize, String)>) -> Seq<(usize, Seq<char>)> {
    entries.map_values(|e: (usize, String)| (e.0, e.1@))
}

/// The tag templates known to a set of tasks, by identifier.
#[derive(Debug)]
pub struct Templates {
    templates: BTreeMap<usize, Rc<Template>>,
}

impl View for Templates {
    type V = Map<usize, Seq<char>>;

    /// The names of the templates by identifier.
    closed spec fn view(&self) -> Map<usize, Seq<char>> {
        Map::new(
            |k: usize| self.templates@.contains_key(k),
            |k: usize| self.templates@[k].spec_name(),
        )
    }
}

impl Templates {
    /// Each template is kept under its own, positive, identifier.
    pub closed spec fn wf(&self) -> bool {
        forall|k: usize| #[trigger]
            self.templates@.contains_key(k) ==> k > 0 && self.templates@[k].id() == k
    }

    /// Create an empty collection of templates.
    pub fn new() -> (res: Self)
        ensures
            res.wf(),
            res@ == Map::<usize, Seq<char>>::empty(),
    {
        let res = Templates { templates: BTreeMap::new() };
        assert(res@ =~= Map::<usize, Seq<char>>::empty());
        res
    }

    /// Create the templates described by `(identifier, name)` pairs. The
    /// first identifier that is zero or occurs a second time is the
    /// error.
    pub fn with_serde(templates: Vec<(usize, String)>) -> (res: Result<Self, usize>)
        ensures
            res is Ok <==> all_ids_ok(ids_of(templates@)),
            res matches Ok(t) ==> t.wf() && t@ == templates_of(entries_view(templates@)),
            res matches Err(id) ==> is_first_bad_id(ids_of(templates@), id),
    {
        let ghost ids = ids_of(templates@);
        let ghost entries = entries_view(templates@);
        let mut map: BTreeMap<usize, Rc<Template>> = BTreeMap::new();
        let mut i: usize = 0;
        while i < templates.len()
            invariant
                i <= templates@.len(),
                ids == ids_of(templates@),
                entries == entries_view(templates@),
                forall|j: int| 0 <= j < i ==> !#[trigger] bad_id_at(ids, j),
                forall|k: usize| #[trigger]
                    map@.contains_key(k) ==> k > 0 && map@[k].id() == k,
                map@.dom() == Set::new(|k: usize| exists|j: int| 0 <= j < i && ids[j] == k),
                forall|k: usize| #[trigger]
                    map@.contains_key(k) ==> map@[k].spec_name() == templates_of(entries.take(i as int))[k],
                templates_of(entries.take(i as int)).dom() == map@.dom(),
            decreases templates@.len() - i,
        {
            let id = templates[i].0;
            let reserved = map.try_reserve_id(id);
            match reserved {
                None => {
                    proof {
                        assert(bad_id_at(ids, i as int)) by {
                            assert(ids[i as int] == id);
                            if id != 0 {
                                assert(map@.dom().contains(id));
                            }
                        }
                    }
                    return Err(id);
                },
                Some(tid) => {
                    let name = templates[i].1.clone();
                    let template = Rc::new(Template::new(tid, name));
                    let _previous = map.insert(id, template);
                    proof {
                        assert(ids[i as int] == id);
                        assert(!bad_id_at(ids, i as int)) by {
                            assert forall|k: int| 0 <= k < i implies ids[k] != ids[i as int] by {
                                assert(map@.dom().contains(ids[k])) by {
                                    let _ = ids[k];
                                }
                            }
                        }
                        let next = entries.take(i + 1);
                        assert(next.drop_last() =~= entries.take(i as int));
                        assert(next.last() == entries[i as int]);
                        assert(entries[i as int] == (id, templates@[i as int].1@));
                        assert(map@.dom() =~= Set::new(|k: usize| exists|j: int| 0 <= j < i + 1 && ids[j] == k)) by {
                            assert forall|k: usize| #[trigger] map@.dom().contains(k) implies exists|j: int|
                                0 <= j < i + 1 && ids[j] == k by {
                                if k == id {
                                    assert(ids[i as int] == k);
                                }
                            }
                        }
                        assert(templates_of(next).dom() =~= map@.dom());
                    }
                },
            }
            i += 1;
        }
        let res = Templates { templates: map };
        proof {
            assert(entries.take(templates@.len() as int) =~= entries);
            assert(res@ =~= templates_of(entries));
        }
        Ok(res)
    }

    /// Instantiate a tag from the template with identifier `id`, if
    /// there is one.
    pub fn instantiate(&self, id: usize) -> (res: Option<Tag>)
        requires
            self.wf(),
        ensures
            res is Some <==> self@.contains_key(id),
            res matches Some(tag) ==> tag.id() == id && tag.spec_template().spec_name()
                == self@[id],
    {
        match self.templates.get(&id) {
            Some(template) => Some(Tag::new(rc_clone(template))),
            None => None,
        }
    }

    /// Instantiate a tag from the template named `name` with the least
    /// identifier.
    pub fn instantiate_from_name(&self, name: &str) -> (res: Tag)
        requires
            self.wf(),
            exists|k: usize| #[trigger] self@.contains_key(k) && self@[k] == name@,
        ensures
            self@.contains_key(res.id()),
            res.spec_template().spec_name() == name@,
            forall|k: usize| #[trigger] self@.contains_key(k) && k < res.id() ==> self@[k] != name@,
    {
        let target = name.to_string();
        let all = self.iter();
        let mut i: usize = 0;
        while i < all.len()
            invariant
                i <= all@.len(),
                target@ == name@,
                forall|a: int, b: int| 0 <= a < b < all@.len() ==> all@[a].id() < all@[b].id(),
                forall|a: int| 0 <= a < all@.len() ==> #[trigger] self@.contains_key(all@[a].id())
                    && self@[all@[a].id()] == all@[a].spec_name(),
                forall|k: usize| #[trigger] self@.contains_key(k) ==> exists|a: int|
                    0 <= a < all@.len() && all@[a].id() == k,
                forall|a: int| 0 <= a < i ==> (#[trigger] all@[a]).spec_name() != name@,
            decreases all@.len() - i,
        {
            if all[i].name == target {
                proof {
                    assert forall|k: usize| #[trigger] self@.contains_key(k) && k < all@[i as int].id()
                        implies self@[k] != name@ by {
                        let a = choose|a: int| 0 <= a < all@.len() && all@[a].id() == k;
                        if a >= i {
                            if a > i {
                                assert(all@[i as int].id() < all@[a].id());
                            }
                        }
                    }
                }
                return Tag::new(rc_clone(&all[i]));
            }
            i += 1;
        }
        proof {
            let k = choose|k: usize| #[trigger] self@.contains_key(k) && self@[k] == name@;
            let a = choose|a: int| 0 <= a < all@.len() && all@[a].id() == k;
            assert(all@[a].spec_name() != name@);
        }
        Tag::new(rc_clone(&all[0]))
    }

    /// The identifiers and names of the templates, in the order of their
    /// identifiers.
    pub fn to_serde(&self) -> (res: Vec<(usize, String)>)
        requires
            self.wf(),
        ensures
            forall|i: int, j: int| 0 <= i < j < res@.len() ==> res@[i].0 < res@[j].0,
            forall|i: int| 0 <= i < res@.len() ==> #[trigger] self@.contains_key(res@[i].0)
                && self@[res@[i].0] == res@[i].1@,
            forall|k: usize| #[trigger] self@.contains_key(k) ==> exists|i: int|
                0 <= i < res@.len() && res@[i].0 == k,
    {
        let all = self.iter();
        let mut res: Vec<(usize, String)> = Vec::new();
        let mut i: usize = 0;
        while i < all.len()
            invariant
                i <= all@.len(),
                res@.len() == i,
                forall|j: int| 0 <= j < i ==> (#[trigger] res@[j]).0 == all@[j].id() && res@[j].1@
                    == all@[j].spec_name(),
            decreases all@.len() - i,
        {
            res.push((all[i].id_value(), all[i].name.clone()));
            i += 1;
        }
        proof {
            assert forall|k: usize| #[trigger] self@.contains_key(k) implies exists|i: int|
                0 <= i < res@.len() && res@[i].0 == k by {
                let a = choose|a: int| 0 <= a < all@.len() && all@[a].id() == k;
                assert(res@[a].0 == k);
            }
        }
        res
    }

    /// Retrieve the templates in the order of their identifiers.
    pub fn iter(&self) -> (res: Vec<Rc<Template>>)
        requires
            self.wf(),
        ensures
            forall|i: int, j: int| 0 <= i < j < res@.len() ==> res@[i].id() < res@[j].id(),
            forall|i: int| 0 <= i < res@.len() ==> #[trigger] self@.contains_key(res@[i].id())
                && self@[res@[i].id()] == res@[i].spec_name(),
            forall|k: usize| #[trigger] self@.contains_key(k) ==> exists|i: int|
                0 <= i < res@.len() && res@[i].id() == k,
    {
        let values = self.templates.values();
        let ghost keys = choose|key_seq: Seq<usize>|
            {
                &&& vstd::std_specs::btree::increasing_seq(key_seq)
                &&& key_seq.to_set() == self.templates@.dom()
                &&& key_seq.no_duplicates()
                &&& IteratorSpec::remaining(&values) == key_seq.map(|i: int, k| &self.templates@[k])
            };
        let mut res: Vec<Rc<Template>> = Vec::new();
        for template in it: values
            invariant
                self.wf(),
                it.seq() == keys.map(|i: int, k| &self.templates@[k]),
                vstd::std_specs::btree::increasing_seq(keys),
                keys.to_set() == self.templates@.dom(),
                res@.len() == it.index(),
                forall|j: int| 0 <= j < res@.len() ==> *#[trigger] res@[j] == self.templates@[keys[j]],
        {
            res.push(rc_clone(template));
        }
        proof {
            assert(res@.len() == keys.len());
            assert forall|i: int, j: int| 0 <= i < j < res@.len() implies res@[i].id() < res@[j].id() by {
                assert(keys[i].cmp_spec(&keys[j]) is Less);
                assert(self.templates@.contains_key(keys[i])) by {
                    assert(keys.to_set().contains(keys[i]));
                }
                assert(self.templates@.contains_key(keys[j])) by {
                    assert(keys.to_set().contains(keys[j]));
                }
            }
            assert forall|i: int| 0 <= i < res@.len() implies #[trigger] self@.contains_key(res@[i].id())
                && self@[res@[i].id()] == res@[i].spec_name() by {
                assert(keys.to_set().contains(keys[i]));
            }
            assert forall|k: usize| #[trigger] self@.contains_key(k) implies exists|i: int|
                0 <= i < res@.len() && res@[i].id() == k by {
                assert(keys.to_set().contains(k));
                let i = choose|i: int| 0 <= i < keys.len() && keys[i] == k;
                assert(res@[i].id() == k);
            }
        }
        res
    }
}

} // verus!
