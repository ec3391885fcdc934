//! Tasks with their tags, and an ordered, undoable set of them.

use std::rc::Rc;

use vstd::prelude::*;

use crate::db::lemma_identities_distinct;
use crate::db::rc_clone;
use crate::db::Db;
use crate::db::Item;
use crate::ops::after_exec;
use crate::ops::after_redo;
use crate::ops::after_undo;
use crate::ops::Op;
use crate::ops::Ops;
use crate::tags::Tag;
use crate::tags::Templates;

verus! {

/// A random version 4 UUID as a number (`Uuid::new_v4` and
/// `Uuid::as_u128`). Nothing is stated of it: it comes from the
/// operating system's source of random numbers.
#[verifier::external_body]
fn new_task_id() -> (res: u128) {
    uuid::Uuid::new_v4().as_u128()
}

/// The identifiers of `tags`, in order.
pub open spec fn ids_of_tags(tags: Seq<Tag>) -> Seq<usize> {
    tags.map_values(|t: Tag| t.id())
}

/// Whether `ids` is strictly increasing.
pub open spec fn strictly_increasing(ids: Seq<usize>) -> bool {
    forall|i: int, j: int| 0 <= i < j < ids.len() ==> ids[i] < ids[j]
}

/// A task: an identifier, a summary and a set of tags, kept in the order
/// of their identifiers.
#[derive(Debug)]
pub struct Task {
    id: u128,
    summary: String,
    tags: Vec<Tag>,
    templates: Rc<Templates>,
}

impl View for Task {
    type V = (u128, Seq<char>, Seq<usize>);

    /// The task's identifier, summary and tag identifiers.
    open spec fn view(&self) -> (u128, Seq<char>, Seq<usize>) {
        (self.spec_id(), self.spec_summary(), self.tag_ids())
    }
}

impl Task {
    /// The task's identifier.
    pub closed spec fn spec_id(&self) -> u128 {
        self.id
    }

    /// The task's summary.
    pub closed spec fn spec_summary(&self) -> Seq<char> {
        self.summary@
    }

    /// The task's tags, in the order of their identifiers.
    pub closed spec fn spec_tags(&self) -> Seq<Tag> {
        self.tags@
    }

    /// The identifiers of the task's tags, in increasing order.
    pub open spec fn tag_ids(&self) -> Seq<usize> {
        ids_of_tags(self.spec_tags())
    }

    /// The task's tags are ordered by their identifiers, and no tag
    /// occurs twice.
    pub open spec fn wf(&self) -> bool {
        strictly_increasing(self.tag_ids())
    }

    /// The templates the task's tags come from.
    pub closed spec fn spec_templates(&self) -> Templates {
        *self.templates
    }

    /// The position at which a tag with identifier `id` belongs among the
    /// task's tags, and whether such a tag is there.
    fn tag_position(&self, id: usize) -> (res: (usize, bool))
        requires
            self.wf(),
        ensures
            res.0 <= self.tag_ids().len(),
            forall|i: int| 0 <= i < res.0 ==> self.tag_ids()[i] < id,
            forall|i: int| res.0 < i < self.tag_ids().len() ==> self.tag_ids()[i] > id,
            res.0 < self.tag_ids().len() ==> self.tag_ids()[res.0 as int] >= id,
            res.1 <==> res.0 < self.tag_ids().len() && self.tag_ids()[res.0 as int] == id,
            res.1 <==> self.tag_ids().contains(id),
    {
        let mut i: usize = 0;
        while i < self.tags.len()
            invariant
                i <= self.tags@.len(),
                self.wf(),
                forall|j: int| 0 <= j < i ==> self.tag_ids()[j] < id,
            decreases self.tags@.len() - i,
        {
            let tag_id = self.tags[i].id_value();
            if tag_id >= id {
                let found = tag_id == id;
                proof {
                    assert(self.tag_ids()[i as int] == tag_id);
                    if !found {
                        assert(!self.tag_ids().contains(id)) by {
                            if self.tag_ids().contains(id) {
                                let k = choose|k: int| 0 <= k < self.tag_ids().len() && self.tag_ids()[k] == id;
                                if k > i {
                                    assert(self.tag_ids()[i as int] < self.tag_ids()[k]);
                                }
                            }
                        }
                    }
                }
                return (i, found);
            }
            i += 1;
        }
        proof {
            assert(!self.tag_ids().contains(id)) by {
                if self.tag_ids().contains(id) {
                    let k = choose|k: int| 0 <= k < self.tag_ids().len() && self.tag_ids()[k] == id;
                    assert(self.tag_ids()[k] < id);
                }
            }
        }
        (i, false)
    }

    /// Ensure that `tag` is set on the task, returning whether it was
    /// not set before.
    pub fn set_tag(&mut self, tag: Tag) -> (res: bool)
        requires
            old(self).wf(),
        ensures
            final(self).wf(),
            res == !old(self).tag_ids().contains(tag.id()),
            final(self).tag_ids().to_set() == old(self).tag_ids().to_set().insert(tag.id()),
            res ==> final(self).spec_tags().to_set() == old(self).spec_tags().to_set().insert(tag),
            !res ==> final(self).spec_tags() == old(self).spec_tags(),
            final(self).spec_id() == old(self).spec_id(),
            final(self).spec_summary() == old(self).spec_summary(),
            final(self).spec_templates() == old(self).spec_templates(),
    {
        let id = tag.id_value();
        let (pos, found) = self.tag_position(id);
        if found {
            proof {
                assert(old(self).tag_ids().to_set().insert(tag.id()) =~= old(self).tag_ids().to_set());
            }
            false
        } else {
            self.tags.insert(pos, tag);
            proof {
                let before = old(self).tag_ids();
                let after = self.tag_ids();
                assert(after =~= before.insert(pos as int, id));
                assert(after.to_set() =~= before.to_set().insert(id)) by {
                    assert forall|x: usize| after.to_set().contains(x) implies before.to_set().insert(id).contains(x) by {
                        let k = choose|k: int| 0 <= k < after.len() && after[k] == x;
                        if k < pos {
                            assert(before[k] == x);
                        } else if k > pos {
                            assert(before[k - 1] == x);
                        }
                    }
                    assert forall|x: usize| before.to_set().insert(id).contains(x) implies after.to_set().contains(x) by {
                        if x == id {
                            assert(after[pos as int] == x);
                        } else {
                            let k = choose|k: int| 0 <= k < before.len() && before[k] == x;
                            if k < pos {
                                assert(after[k] == x);
                            } else {
                                assert(after[k + 1] == x);
                            }
                        }
                    }
                }
                assert(self.tags@ =~= old(self).tags@.insert(pos as int, tag));
                assert(self.tags@.to_set() =~= old(self).tags@.to_set().insert(tag)) by {
                    assert forall|x: Tag| self.tags@.to_set().contains(x) implies old(self).tags@.to_set().insert(tag).contains(x) by {
                        let k = choose|k: int| 0 <= k < self.tags@.len() && self.tags@[k] == x;
                        if k < pos {
                            assert(old(self).tags@[k] == x);
                        } else if k > pos {
                            assert(old(self).tags@[k - 1] == x);
                        }
                    }
                    assert forall|x: Tag| old(self).tags@.to_set().insert(tag).contains(x) implies self.tags@.to_set().contains(x) by {
                        if x == tag {
                            assert(self.tags@[pos as int] == x);
                        } else {
                            let k = choose|k: int| 0 <= k < old(self).tags@.len() && old(self).tags@[k] == x;
                            if k < pos {
                                assert(self.tags@[k] == x);
                            } else {
                                assert(self.tags@[k + 1] == x);
                            }
                        }
                    }
                }
                assert forall|i: int, j: int| 0 <= i < j < after.len() implies after[i] < after[j] by {
                    if j < pos {
                    } else if j == pos {
                    } else if i < pos {
                        assert(after[j] == before[j - 1]);
                    } else if i == pos {
                        assert(after[j] == before[j - 1]);
                    } else {
                        assert(after[j] == before[j - 1]);
                        assert(after[i] == before[i - 1]);
                    }
                }
            }
            true
        }
    }

    /// Ensure that `tag` is not set on the task, returning whether it was
    /// set before.
    pub fn unset_tag(&mut self, tag: &Tag) -> (res: bool)
        requires
            old(self).wf(),
        ensures
            final(self).wf(),
            res == old(self).tag_ids().contains(tag.id()),
            final(self).tag_ids().to_set() == old(self).tag_ids().to_set().remove(tag.id()),
            final(self).spec_id() == old(self).spec_id(),
            final(self).spec_summary() == old(self).spec_summary(),
            final(self).spec_templates() == old(self).spec_templates(),
    {
        let id = tag.id_value();
        let (pos, found) = self.tag_position(id);
        if !found {
            proof {
                assert(old(self).tag_ids().to_set().remove(tag.id()) =~= old(self).tag_ids().to_set());
            }
            false
        } else {
            let _removed = self.tags.remove(pos);
            proof {
                let before = old(self).tag_ids();
                let after = self.tag_ids();
                assert(after =~= before.remove(pos as int));
                assert(after.to_set() =~= before.to_set().remove(id)) by {
                    assert forall|x: usize| after.to_set().contains(x) implies before.to_set().remove(id).contains(x) by {
                        let k = choose|k: int| 0 <= k < after.len() && after[k] == x;
                        if k < pos {
                            assert(before[k] == x);
                        } else {
                            assert(before[k + 1] == x);
                            assert(before[pos as int] < before[k + 1]);
                        }
                    }
                    assert forall|x: usize| before.to_set().remove(id).contains(x) implies after.to_set().contains(x) by {
                        let k = choose|k: int| 0 <= k < before.len() && before[k] == x;
                        if k < pos {
                            assert(after[k] == x);
                        } else {
                            assert(k != pos);
                            assert(after[k - 1] == x);
                        }
                    }
                }
                assert forall|i: int, j: int| 0 <= i < j < after.len() implies after[i] < after[j] by {
                    let a = if i < pos { i } else { i + 1 };
                    let b = if j < pos { j } else { j + 1 };
                    assert(after[i] == before[a]);
                    assert(after[j] == before[b]);
                }
            }
            true
        }
    }

    /// Check whether `tag` is set on the task.
    pub fn has_tag(&self, tag: &Tag) -> (res: bool)
        requires
            self.wf(),
        ensures
            res == self.tag_ids().contains(tag.id()),
    {
        let (_pos, found) = self.tag_position(tag.id_value());
        found
    }

    /// Set the tags of the task to `tags`.
    pub fn set_tags(&mut self, tags: Vec<Tag>)
        ensures
            final(self).wf(),
            final(self).tag_ids().to_set() == ids_of_tags(tags@).to_set(),
            final(self).spec_id() == old(self).spec_id(),
            final(self).spec_summary() == old(self).spec_summary(),
            final(self).spec_templates() == old(self).spec_templates(),
    {
        self.tags = Vec::new();
        let mut i: usize = 0;
        while i < tags.len()
            invariant
                i <= tags@.len(),
                self.wf(),
                self.tag_ids().to_set() == ids_of_tags(tags@.take(i as int)).to_set(),
                self.spec_id() == old(self).spec_id(),
                self.spec_summary() == old(self).spec_summary(),
                self.spec_templates() == old(self).spec_templates(),
            decreases tags@.len() - i,
        {
            let _inserted = self.set_tag(tags[i].clone());
            proof {
                assert(ids_of_tags(tags@.take(i + 1)) =~= ids_of_tags(tags@.take(i as int)).push(tags@[i as int].id()));
                ids_of_tags(tags@.take(i as int)).lemma_push_to_set_commute(tags@[i as int].id());
            }
            i += 1;
        }
        proof {
            assert(tags@.take(tags@.len() as int) =~= tags@);
        }
    }

    /// Create a task with `summary` and the set of tags `tags`, from the
    /// templates `templates`, with a random identifier.
    pub fn with_summary_and_tags(summary: String, tags: Vec<Tag>, templates: Rc<Templates>) -> (res: Self)
        ensures
            res.wf(),
            res.spec_summary() == summary@,
            res.tag_ids().to_set() == ids_of_tags(tags@).to_set(),
            res.spec_templates() == *templates,
    {
        let mut task = Task { id: new_task_id(), summary, tags: Vec::new(), templates };
        task.set_tags(tags);
        task
    }

    /// Create a task from its identifier, its summary and the identifiers
    /// of its tags, instantiated from `templates`. The first identifier
    /// that names no template is the error.
    pub fn with_serde(id: u128, summary: String, tags: Vec<usize>, templates: Rc<Templates>) -> (res: Result<Self, usize>)
        requires
            templates.wf(),
        ensures
            res is Ok <==> forall|i: int| 0 <= i < tags@.len() ==> templates@.contains_key(#[trigger] tags@[i]),
            res matches Ok(task) ==> task.wf() && task.spec_id() == id && task.spec_summary() == summary@
                && task.tag_ids().to_set() == tags@.to_set() && task.spec_templates() == *templates,
            res matches Err(bad) ==> exists|i: int| 0 <= i < tags@.len() && tags@[i] == bad
                && !templates@.contains_key(bad) && forall|j: int| 0 <= j < i ==> templates@.contains_key(#[trigger] tags@[j]),
    {
        let mut task = Task { id, summary, tags: Vec::new(), templates: rc_clone(&templates) };
        let mut i: usize = 0;
        while i < tags.len()
            invariant
                i <= tags@.len(),
                templates.wf(),
                task.wf(),
                task.spec_id() == id,
                task.spec_summary() == summary@,
                task.spec_templates() == *templates,
                task.tag_ids().to_set() == tags@.take(i as int).to_set(),
                forall|j: int| 0 <= j < i ==> templates@.contains_key(#[trigger] tags@[j]),
            decreases tags@.len() - i,
        {
            match templates.instantiate(tags[i]) {
                Some(tag) => {
                    let _inserted = task.set_tag(tag);
                    proof {
                        assert(tags@.take(i + 1) =~= tags@.take(i as int).push(tags@[i as int]));
                        tags@.take(i as int).lemma_push_to_set_commute(tags@[i as int]);
                    }
                },
                None => {
                    return Err(tags[i]);
                },
            }
            i += 1;
        }
        proof {
            assert(tags@.take(tags@.len() as int) =~= tags@);
        }
        Ok(task)
    }

    /// Retrieve the task's identifier.
    pub fn id(&self) -> (res: u128)
        ensures
            res == self.spec_id(),
    {
        self.id
    }

    /// Retrieve the task's summary.
    pub fn summary(&self) -> (res: String)
        ensures
            res@ == self.spec_summary(),
    {
        self.summary.clone()
    }

    /// Change the task's summary.
    pub fn set_summary(&mut self, summary: String)
        ensures
            final(self).spec_summary() == summary@,
            final(self).spec_id() == old(self).spec_id(),
            final(self).spec_tags() == old(self).spec_tags(),
            final(self).spec_templates() == old(self).spec_templates(),
    {
        self.summary = summary;
    }

    /// Retrieve the task's tags, in the order of their identifiers.
    pub fn tags(&self) -> (res: Vec<Tag>)
        ensures
            res@ == self.spec_tags(),
    {
        let mut res: Vec<Tag> = Vec::new();
        let mut i: usize = 0;
        while i < self.tags.len()
            invariant
                i <= self.tags@.len(),
                res@ == self.tags@.take(i as int),
            decreases self.tags@.len() - i,
        {
            res.push(self.tags[i].clone());
            proof {
                assert(self.tags@.take(i + 1) =~= self.tags@.take(i as int).push(self.tags@[i as int]));
            }
            i += 1;
        }
        proof {
            assert(self.tags@.take(self.tags@.len() as int) =~= self.tags@);
        }
        res
    }

    /// Retrieve the templates the task's tags come from.
    pub fn templates(&self) -> (res: Rc<Templates>)
        ensures
            *res == self.spec_templates(),
    {
        rc_clone(&self.templates)
    }

    /// Retrieve the identifiers of the task's tags, in increasing order.
    pub fn tag_id_values(&self) -> (res: Vec<usize>)
        ensures
            res@ == self.tag_ids(),
    {
        let mut ids: Vec<usize> = Vec::new();
        let mut i: usize = 0;
        while i < self.tags.len()
            invariant
                i <= self.tags@.len(),
                ids@ == ids_of_tags(self.tags@.take(i as int)),
            decreases self.tags@.len() - i,
        {
            ids.push(self.tags[i].id_value());
            proof {
                assert(ids_of_tags(self.tags@.take(i + 1)) =~= ids_of_tags(self.tags@.take(i as int)).push(self.tags@[i as int].id()));
            }
            i += 1;
        }
        proof {
            assert(self.tags@.take(self.tags@.len() as int) =~= self.tags@);
        }
        ids
    }

    /// The task's identifier, summary and tag identifiers, as plain
    /// values.
    pub fn to_serde(&self) -> (res: (u128, String, Vec<usize>))
        ensures
            res.0 == self.spec_id(),
            res.1@ == self.spec_summary(),
            res.2@ == self.tag_ids(),
    {
        (self.id, self.summary.clone(), self.tag_id_values())
    }
}

impl Clone for Task {
    fn clone(&self) -> (res: Self)
        ensures
            res@ == self@,
            res.spec_tags() == self.spec_tags(),
            res.spec_templates() == self.spec_templates(),
    {
        let tags = self.tags();
        proof {
            assert(tags@ =~= self.tags@);
        }
        Task { id: self.id, summary: self.summary.clone(), tags, templates: rc_clone(&self.templates) }
    }
}

/// The entries of a database of tasks.
pub type TaskEntries = Seq<(Item<Task>, ())>;

/// The position of the item with identity `key` among `entries`.
pub open spec fn key_pos(entries: TaskEntries, key: u64) -> int {
    choose|p: int| 0 <= p < entries.len() && entries[p].0.key() == key
}

/// The entries as identities and task views, in order.
pub open spec fn entries_view(entries: TaskEntries) -> Seq<(u64, (u128, Seq<char>, Seq<usize>))> {
    entries.map_values(|e: (Item<Task>, ())| (e.0.key(), e.0.spec_value()@))
}

/// Where a task goes: before or after another task.
#[derive(Debug)]
pub enum Target {
    /// The spot before the given task.
    Before(Item<Task>),
    /// The spot after the given task.
    After(Item<Task>),
}

impl Target {
    /// The task next to the target spot.
    pub open spec fn spec_task(&self) -> Item<Task> {
        match self {
            Target::Before(task) => *task,
            Target::After(task) => *task,
        }
    }

    /// Retrieve the task next to the target spot.
    pub fn task(&self) -> (res: &Item<Task>)
        ensures
            *res == self.spec_task(),
    {
        match self {
            Target::Before(task) => task,
            Target::After(task) => task,
        }
    }

    /// The position in `entries` at which a task goes, where the task
    /// next to the spot is in `entries`.
    pub open spec fn index_in(&self, entries: TaskEntries) -> int {
        match self {
            Target::Before(task) => key_pos(entries, task.key()),
            Target::After(task) => key_pos(entries, task.key()) + 1,
        }
    }
}

impl Clone for Target {
    fn clone(&self) -> (res: Self)
        ensures
            res == *self,
    {
        match self {
            Target::Before(task) => Target::Before(task.clone()),
            Target::After(task) => Target::After(task.clone()),
        }
    }
}

/// An operation on a database of tasks, recording what it needs to be
/// undone.
#[derive(Debug)]
pub enum TaskOp {
    /// Add a task, after another one or at the end.
    Add { task: Item<Task>, after: Option<Item<Task>> },
    /// Remove a task; the position it was removed from is recorded.
    Remove { task: Item<Task>, position: Option<usize> },
    /// Replace the value of a task; the value before is recorded.
    Update { updated: (Item<Task>, Task), before: Option<Task> },
    /// Move a task next to another one; the position it was moved from
    /// is recorded.
    Move { task: Item<Task>, to: Target, position: Option<usize> },
}

/// The identities of the items in `entries` stay distinct.
proof fn lemma_key_pos(db: &Db<Task, ()>, p: int)
    requires
        db.wf(),
        0 <= p < db@.len(),
    ensures
        key_pos(db@, db@[p].0.key()) == p,
{
    lemma_identities_distinct(db);
}

/// The position of the item with the identity of `item`, if it is in
/// `db`.
fn find_index(db: &mut Db<Task, ()>, item: &Item<Task>) -> (res: Option<usize>)
    requires
        old(db).wf(),
    ensures
        final(db).wf(),
        final(db)@ == old(db)@,
        final(db).fresh_key() == old(db).fresh_key(),
        res is Some <==> old(db).contains_key(item.key()),
        res matches Some(p) ==> p < old(db)@.len() && p == key_pos(old(db)@, item.key())
            && old(db)@[p as int].0.key() == item.key(),
{
    let found = db.find(item);
    match found {
        Some(entry) => {
            let p = entry.index();
            proof {
                assert(entry.valid() && entry.items() == old(db)@);
                lemma_key_pos(old(db), p as int);
            }
            Some(p)
        },
        None => None,
    }
}

impl TaskOp {
    /// An operation adding `task` after `after`, or at the end.
    pub fn add(task: Item<Task>, after: Option<Item<Task>>) -> (res: Self)
        ensures
            res == (TaskOp::Add { task, after }),
    {
        TaskOp::Add { task, after }
    }

    /// An operation removing `task`.
    pub fn remove(task: Item<Task>) -> (res: Self)
        ensures
            res == (TaskOp::Remove { task, position: None }),
    {
        TaskOp::Remove { task, position: None }
    }

    /// An operation replacing the value of `task` with `updated`.
    pub fn update(task: Item<Task>, updated: Task) -> (res: Self)
        ensures
            res == (TaskOp::Update { updated: (task, updated), before: None }),
    {
        TaskOp::Update { updated: (task, updated), before: None }
    }

    /// An operation moving `task` to `to`.
    pub fn move_(task: Item<Task>, to: Target) -> (res: Self)
        ensures
            res == (TaskOp::Move { task, to, position: None }),
    {
        TaskOp::Move { task, to, position: None }
    }

    /// Whether executing the operation on `db` takes effect: the tasks it
    /// refers to are there, and a task to add is not.
    pub open spec fn exec_ok(self, db: Db<Task, ()>) -> bool {
        match self {
            TaskOp::Add { task, after } => !db.contains_key(task.key()) && (after matches Some(a)
                ==> db.contains_key(a.key())),
            TaskOp::Remove { task, .. } => db.contains_key(task.key()),
            TaskOp::Update { updated, .. } => db.contains_key(updated.0.key()),
            TaskOp::Move { task, to, .. } => db.contains_key(task.key()) && db.contains_key(
                to.spec_task().key(),
            ) && task.key() != to.spec_task().key(),
        }
    }
}

/// The database did not change.
pub open spec fn unchanged(db: Db<Task, ()>, new_db: Db<Task, ()>) -> bool {
    new_db@ == db@ && new_db.fresh_key() == db.fresh_key()
}

/// What executing `op` on `db` does.
pub open spec fn exec_effect(op: TaskOp, db: Db<Task, ()>, post: TaskOp, new_db: Db<Task, ()>, result: Option<Item<Task>>) -> bool {
    &&& new_db.wf()
    &&& !op.exec_ok(db) ==> post == op && unchanged(db, new_db) && result is None
    &&& op.exec_ok(db) ==> match op {
        TaskOp::Add { task, after } => {
            let index = match after {
                Some(a) => key_pos(db@, a.key()) + 1,
                None => db@.len() as int,
            };
            &&& post == op
            &&& new_db@ == db@.insert(index, (task, ()))
            &&& new_db.fresh_key() == db.fresh_key_after(task.key())
            &&& result == Some(task)
        },
        TaskOp::Remove { task, .. } => {
            let p = key_pos(db@, task.key());
            &&& post == (TaskOp::Remove { task: db@[p].0, position: Some(p as usize) })
            &&& new_db@ == db@.remove(p)
            &&& new_db.fresh_key() == db.fresh_key()
            &&& result is None
        },
        TaskOp::Update { updated, .. } => {
            let p = key_pos(db@, updated.0.key());
            &&& post matches TaskOp::Update { updated: u, before: Some(b) } && u == updated && b@
                == db@[p].0.spec_value()@
            &&& new_db@.len() == db@.len()
            &&& forall|i: int| 0 <= i < db@.len() && i != p ==> new_db@[i] == db@[i]
            &&& new_db@[p].0.key() == updated.0.key()
            &&& new_db@[p].0.spec_value()@ == updated.1@
            &&& new_db.fresh_key() == db.fresh_key_after(updated.0.key())
            &&& result == Some(new_db@[p].0)
        },
        TaskOp::Move { task, to, .. } => {
            let p = key_pos(db@, task.key());
            let rest = db@.remove(p);
            &&& post == (TaskOp::Move { task, to, position: Some(p as usize) })
            &&& new_db@ == rest.insert(to.index_in(rest), db@[p])
            &&& new_db.fresh_key() == db.fresh_key_after(task.key())
            &&& result == Some(db@[p].0)
        },
    }
}


/// Add `task` after `after`, or at the end, unless it is present or
/// `after` is not.
fn exec_add(task: &Item<Task>, after: &Option<Item<Task>>, db: &mut Db<Task, ()>) -> (result: Option<Item<Task>>)
    requires
        old(db).wf(),
        old(db).has_room(),
    ensures
        exec_effect(TaskOp::Add { task: *task, after: *after }, *old(db), (TaskOp::Add { task: *task, after: *after }), *final(db), result),
{
    if find_index(db, task).is_some() {
        return None;
    }
    let index = match after {
        Some(a) => match find_index(db, a) {
            Some(p) => p + 1,
            None => {
                return None;
            },
        },
        None => db.len(),
    };
    let _entry = db.try_insert_with_aux(index, task.clone(), ());
    Some(task.clone())
}

/// Remove `task`, if present, recording the removed item and its
/// position.
fn exec_remove(task: &mut Item<Task>, position: &mut Option<usize>, db: &mut Db<Task, ()>) -> (result: Option<Item<Task>>)
    requires
        old(db).wf(),
        old(db).has_room(),
    ensures
        exec_effect(
            (TaskOp::Remove { task: *old(task), position: *old(position) }),
            *old(db),
            (TaskOp::Remove { task: *final(task), position: *final(position) }),
            *final(db),
            result,
        ),
{
    match find_index(db, task) {
        Some(p) => {
            let (removed, _aux) = db.remove(p);
            *task = removed;
            *position = Some(p);
            None
        },
        None => None,
    }
}

/// Replace the value of the task `updated.0`, if present, with
/// `updated.1`, recording the value before.
fn exec_update(updated: &(Item<Task>, Task), before: &mut Option<Task>, db: &mut Db<Task, ()>) -> (result: Option<Item<Task>>)
    requires
        old(db).wf(),
        old(db).has_room(),
    ensures
        exec_effect(
            (TaskOp::Update { updated: *updated, before: *old(before) }),
            *old(db),
            (TaskOp::Update { updated: *updated, before: *final(before) }),
            *final(db),
            result,
        ),
{
                match find_index(db, &updated.0) {
                    Some(p) => {
                        proof {
                            lemma_identities_distinct(db);
                        }
                        let (current, _aux) = db.remove(p);
                        proof {
                            assert(!db.contains_key(current.key())) by {
                                if db.contains_key(current.key()) {
                                    let r = choose|r: int| 0 <= r < db@.len() && #[trigger] db@[r].0.key() == current.key();
                                    if r < p {
                                        assert(old(db)@[r].0.key() == current.key());
                                    } else {
                                        assert(old(db)@[r + 1].0.key() == current.key());
                                    }
                                }
                            }
                        }
                        let value = Item::new(current.identity(), updated.1.clone());
                        let _entry = db.try_insert_with_aux(p, value.clone(), ());
                        *before = Some(current.value().clone());
                        proof {
                            assert(db@ == old(db)@.remove(p as int).insert(p as int, (value, ())));
                            assert forall|i: int| 0 <= i < old(db)@.len() && i != p implies db@[i] == old(db)@[i] by {
                                if i < p {
                                } else {
                                }
                            }
                        }
                        Some(value)
                    },
                    None => None,
                }
            }

/// Move `task` to `to`, where both are present and differ, recording the
/// position it was moved from.
fn exec_move(task: &Item<Task>, to: &Target, position: &mut Option<usize>, db: &mut Db<Task, ()>) -> (result: Option<Item<Task>>)
    requires
        old(db).wf(),
        old(db).has_room(),
    ensures
        exec_effect(
            (TaskOp::Move { task: *task, to: *to, position: *old(position) }),
            *old(db),
            (TaskOp::Move { task: *task, to: *to, position: *final(position) }),
            *final(db),
            result,
        ),
{
                let p = match find_index(db, task) {
                    Some(p) => p,
                    None => {
                        return None;
                    },
                };
                if task.identity() == to.task().identity() {
                    return None;
                }
                if find_index(db, to.task()).is_none() {
                    return None;
                }
                proof {
                    lemma_identities_distinct(db);
                }
                let ghost r = key_pos(db@, to.spec_task().key());
                let (removed, _aux) = db.remove(p);
                proof {
                    let r2 = if r < p { r } else { r - 1 };
                    assert(db@[r2].0.key() == to.spec_task().key());
                    assert(db.contains_key(to.spec_task().key()));
                    assert(!db.contains_key(removed.key())) by {
                        if db.contains_key(removed.key()) {
                            let k = choose|k: int| 0 <= k < db@.len() && #[trigger] db@[k].0.key() == removed.key();
                            if k < p {
                                assert(old(db)@[k].0.key() == removed.key());
                            } else {
                                assert(old(db)@[k + 1].0.key() == removed.key());
                            }
                        }
                    }
                }
                let q = match find_index(db, to.task()) {
                    Some(q) => q,
                    None => {
                        return None;
                    },
                };
                let index = match to {
                    Target::Before(_) => q,
                    Target::After(_) => q + 1,
                };
                *position = Some(p);
                let ghost rest = db@;
                let _entry = db.try_insert_with_aux(index, removed.clone(), ());
                proof {
                    assert(old(db)@[p as int] == (removed, ()));
                }
                Some(removed)
            }

impl TaskOp {
    /// Execute the operation on `db`.
    fn exec_on(&mut self, db: &mut Db<Task, ()>) -> (result: Option<Item<Task>>)
        requires
            old(db).wf(),
            old(db).has_room(),
        ensures
            exec_effect(*old(self), *old(db), *final(self), *final(db), result),
    {
        match self {
            TaskOp::Add { task, after } => exec_add(task, after, db),
            TaskOp::Remove { task, position } => exec_remove(task, position, db),
            TaskOp::Update { updated, before } => exec_update(updated, before, db),
            TaskOp::Move { task, to, position } => exec_move(task, to, position, db),
        }
    }
}

impl TaskOp {
    /// Whether undoing the operation on `db` takes effect: it was
    /// executed, and the tasks it refers to are in the places it left
    /// them.
    pub open spec fn undo_ok(self, db: Db<Task, ()>) -> bool {
        match self {
            TaskOp::Add { task, .. } => db.contains_key(task.key()),
            TaskOp::Remove { task, position } => position matches Some(p) && !db.contains_key(task.key())
                && p <= db@.len(),
            TaskOp::Update { updated, before } => before is Some && db.contains_key(updated.0.key()),
            TaskOp::Move { task, position, .. } => position matches Some(p) && db.contains_key(task.key())
                && p < db@.len(),
        }
    }
}

/// What undoing `op` on `db` does.
pub open spec fn undo_effect(op: TaskOp, db: Db<Task, ()>, post: TaskOp, new_db: Db<Task, ()>, result: Option<Item<Task>>) -> bool {
    &&& new_db.wf()
    &&& post == op
    &&& !op.undo_ok(db) ==> unchanged(db, new_db) && result is None
    &&& op.undo_ok(db) ==> match op {
        TaskOp::Add { task, .. } => {
            &&& new_db@ == db@.remove(key_pos(db@, task.key()))
            &&& new_db.fresh_key() == db.fresh_key()
            &&& result is None
        },
        TaskOp::Remove { task, position } => {
            &&& new_db@ == db@.insert(position.unwrap() as int, (task, ()))
            &&& new_db.fresh_key() == db.fresh_key_after(task.key())
            &&& result == Some(task)
        },
        TaskOp::Update { updated, before } => {
            let p = key_pos(db@, updated.0.key());
            &&& new_db@.len() == db@.len()
            &&& forall|i: int| 0 <= i < db@.len() && i != p ==> new_db@[i] == db@[i]
            &&& new_db@[p].0.key() == updated.0.key()
            &&& new_db@[p].0.spec_value()@ == before.unwrap()@
            &&& new_db.fresh_key() == db.fresh_key_after(updated.0.key())
            &&& result == Some(new_db@[p].0)
        },
        TaskOp::Move { task, position, .. } => {
            let p = key_pos(db@, task.key());
            let rest = db@.remove(p);
            &&& new_db@ == rest.insert(position.unwrap() as int, db@[p])
            &&& new_db.fresh_key() == db.fresh_key_after(task.key())
            &&& result == Some(db@[p].0)
        },
    }
}

/// Remove the added `task`, if present.
fn undo_add(task: &Item<Task>, db: &mut Db<Task, ()>)
    requires
        old(db).wf(),
    ensures
        final(db).wf(),
        old(db).contains_key(task.key()) ==> final(db)@ == old(db)@.remove(key_pos(old(db)@, task.key()))
            && final(db).fresh_key() == old(db).fresh_key(),
        !old(db).contains_key(task.key()) ==> unchanged(*old(db), *final(db)),
{
    match find_index(db, task) {
        Some(p) => {
            let _removed = db.remove(p);
        },
        None => {},
    }
}

/// Put the removed `task` back at `position`, where it is absent and the
/// position exists.
fn undo_remove(task: &Item<Task>, position: &Option<usize>, db: &mut Db<Task, ()>) -> (result: Option<Item<Task>>)
    requires
        old(db).wf(),
        old(db).has_room(),
    ensures
        undo_effect(
            (TaskOp::Remove { task: *task, position: *position }),
            *old(db),
            (TaskOp::Remove { task: *task, position: *position }),
            *final(db),
            result,
        ),
{
    let p = match position {
        Some(p) => *p,
        None => {
            return None;
        },
    };
    if p > db.len() || find_index(db, task).is_some() {
        return None;
    }
    let _entry = db.try_insert_with_aux(p, task.clone(), ());
    Some(task.clone())
}

/// Put the value before back into the updated task, where it is present.
fn undo_update(updated: &(Item<Task>, Task), before: &Option<Task>, db: &mut Db<Task, ()>) -> (result: Option<Item<Task>>)
    requires
        old(db).wf(),
        old(db).has_room(),
    ensures
        undo_effect(
            (TaskOp::Update { updated: *updated, before: *before }),
            *old(db),
            (TaskOp::Update { updated: *updated, before: *before }),
            *final(db),
            result,
        ),
{
    let value = match before {
        Some(b) => b,
        None => {
            return None;
        },
    };
    let p = match find_index(db, &updated.0) {
        Some(p) => p,
        None => {
            return None;
        },
    };
    proof {
        lemma_identities_distinct(db);
    }
    let (current, _aux) = db.remove(p);
    proof {
        assert(!db.contains_key(current.key())) by {
            if db.contains_key(current.key()) {
                let r = choose|r: int| 0 <= r < db@.len() && #[trigger] db@[r].0.key() == current.key();
                if r < p {
                    assert(old(db)@[r].0.key() == current.key());
                } else {
                    assert(old(db)@[r + 1].0.key() == current.key());
                }
            }
        }
    }
    let restored = Item::new(current.identity(), value.clone());
    let _entry = db.try_insert_with_aux(p, restored.clone(), ());
    proof {
        assert(db@ == old(db)@.remove(p as int).insert(p as int, (restored, ())));
        assert forall|i: int| 0 <= i < old(db)@.len() && i != p implies db@[i] == old(db)@[i] by {
            if i < p {
            } else {
            }
        }
    }
    Some(restored)
}

/// Move `task` back to `position`, where it is present and the position
/// exists.
fn undo_move(task: &Item<Task>, position: &Option<usize>, db: &mut Db<Task, ()>) -> (result: Option<Item<Task>>)
    requires
        old(db).wf(),
        old(db).has_room(),
    ensures
        final(db).wf(),
        !(position matches Some(q) && old(db).contains_key(task.key()) && q < old(db)@.len()) ==> unchanged(
            *old(db),
            *final(db),
        ) && result is None,
        (position matches Some(q) && old(db).contains_key(task.key()) && q < old(db)@.len()) ==> ({
            let p = key_pos(old(db)@, task.key());
            let rest = old(db)@.remove(p);
            &&& final(db)@ == rest.insert(position.unwrap() as int, old(db)@[p])
            &&& final(db).fresh_key() == old(db).fresh_key_after(task.key())
            &&& result == Some(old(db)@[p].0)
        }),
{
    let q = match position {
        Some(q) => *q,
        None => {
            return None;
        },
    };
    if q >= db.len() {
        return None;
    }
    let p = match find_index(db, task) {
        Some(p) => p,
        None => {
            return None;
        },
    };
    proof {
        lemma_identities_distinct(db);
    }
    let (removed, _aux) = db.remove(p);
    proof {
        assert(!db.contains_key(removed.key())) by {
            if db.contains_key(removed.key()) {
                let k = choose|k: int| 0 <= k < db@.len() && #[trigger] db@[k].0.key() == removed.key();
                if k < p {
                    assert(old(db)@[k].0.key() == removed.key());
                } else {
                    assert(old(db)@[k + 1].0.key() == removed.key());
                }
            }
        }
    }
    let _entry = db.try_insert_with_aux(q, removed.clone(), ());
    Some(removed)
}

impl TaskOp {
    /// Undo the operation on `db`.
    fn undo_on(&mut self, db: &mut Db<Task, ()>) -> (result: Option<Item<Task>>)
        requires
            old(db).wf(),
            old(db).has_room(),
        ensures
            undo_effect(*old(self), *old(db), *final(self), *final(db), result),
    {
        match &*self {
            TaskOp::Add { task, .. } => {
                undo_add(task, db);
                None
            },
            TaskOp::Remove { task, position } => undo_remove(task, position, db),
            TaskOp::Update { updated, before } => undo_update(updated, before, db),
            TaskOp::Move { task, position, .. } => undo_move(task, position, db),
        }
    }
}

impl Op<Db<Task, ()>, Option<Item<Task>>> for TaskOp {
    open spec fn applicable(data: Db<Task, ()>) -> bool {
        data.wf() && data.has_room()
    }

    open spec fn exec_post(pre: TaskOp, data: Db<Task, ()>, post: TaskOp, new_data: Db<Task, ()>, result: Option<Item<Task>>) -> bool {
        exec_effect(pre, data, post, new_data, result)
    }

    open spec fn undo_post(pre: TaskOp, data: Db<Task, ()>, post: TaskOp, new_data: Db<Task, ()>, result: Option<Item<Task>>) -> bool {
        undo_effect(pre, data, post, new_data, result)
    }

    fn exec(&mut self, data: &mut Db<Task, ()>) -> (result: Option<Item<Task>>) {
        self.exec_on(data)
    }

    fn undo(&mut self, data: &mut Db<Task, ()>) -> (result: Option<Item<Task>>) {
        self.undo_on(data)
    }
}

#[verifier::spinoff_prover]
proof fn lemma_undo_after_exec_add(
    op: TaskOp,
    db0: Db<Task, ()>,
    op1: TaskOp,
    db1: Db<Task, ()>,
    r1: Option<Item<Task>>,
    op2: TaskOp,
    db2: Db<Task, ()>,
    r2: Option<Item<Task>>,
)
    requires
        db0.wf(),
        db0.has_room(),
        op.exec_ok(db0),
        exec_effect(op, db0, op1, db1, r1),
        undo_effect(op1, db1, op2, db2, r2),
        op is Add,
    ensures
        op1.undo_ok(db1),
        entries_view(db2@) == entries_view(db0@),
{
    lemma_identities_distinct(&db0);
    lemma_identities_distinct(&db1);
    if let TaskOp::Add { task, after } = op {

                let i = match after {
                    Some(a) => key_pos(db0@, a.key()) + 1,
                    None => db0@.len() as int,
                };
                if after is Some {
                    let a = after.unwrap();
                    let w = choose|w: int| 0 <= w < db0@.len() && #[trigger] db0@[w].0.key() == a.key();
                    assert(db0@[w].0.key() == a.key());
                }
                assert(db1@[i].0.key() == task.key());
                assert(db1.contains_key(task.key()));
                assert(key_pos(db1@, task.key()) == i);
                assert(db2@ =~= db0@);
    }
}

#[verifier::spinoff_prover]
proof fn lemma_undo_after_exec_remove(
    op: TaskOp,
    db0: Db<Task, ()>,
    op1: TaskOp,
    db1: Db<Task, ()>,
    r1: Option<Item<Task>>,
    op2: TaskOp,
    db2: Db<Task, ()>,
    r2: Option<Item<Task>>,
)
    requires
        db0.wf(),
        db0.has_room(),
        op.exec_ok(db0),
        exec_effect(op, db0, op1, db1, r1),
        undo_effect(op1, db1, op2, db2, r2),
        op is Remove,
    ensures
        op1.undo_ok(db1),
        entries_view(db2@) == entries_view(db0@),
{
    lemma_identities_distinct(&db0);
    lemma_identities_distinct(&db1);
    if let TaskOp::Remove { task, .. } = op {

                let p = key_pos(db0@, task.key());
                let w = choose|w: int| 0 <= w < db0@.len() && #[trigger] db0@[w].0.key() == task.key();
                assert(db0@[w].0.key() == task.key());
                assert(!db1.contains_key(db0@[p].0.key())) by {
                    if db1.contains_key(db0@[p].0.key()) {
                        let k = choose|k: int| 0 <= k < db1@.len() && #[trigger] db1@[k].0.key() == db0@[p].0.key();
                        if k < p {
                            assert(db0@[k].0.key() == db0@[p].0.key());
                        } else {
                            assert(db0@[k + 1].0.key() == db0@[p].0.key());
                        }
                    }
                }
                assert(db0@[p] == (db0@[p].0, ()));
                assert(db2@ =~= db0@);
    }
}

#[verifier::spinoff_prover]
proof fn lemma_undo_after_exec_update(
    op: TaskOp,
    db0: Db<Task, ()>,
    op1: TaskOp,
    db1: Db<Task, ()>,
    r1: Option<Item<Task>>,
    op2: TaskOp,
    db2: Db<Task, ()>,
    r2: Option<Item<Task>>,
)
    requires
        db0.wf(),
        db0.has_room(),
        op.exec_ok(db0),
        exec_effect(op, db0, op1, db1, r1),
        undo_effect(op1, db1, op2, db2, r2),
        op is Update,
    ensures
        op1.undo_ok(db1),
        entries_view(db2@) == entries_view(db0@),
{
    lemma_identities_distinct(&db0);
    lemma_identities_distinct(&db1);
    if let TaskOp::Update { updated, .. } = op {

                let p = key_pos(db0@, updated.0.key());
                let w = choose|w: int| 0 <= w < db0@.len() && #[trigger] db0@[w].0.key() == updated.0.key();
                assert(db0@[w].0.key() == updated.0.key());
                assert(db1.contains_key(updated.0.key())) by {
                    assert(db1@[p].0.key() == updated.0.key());
                }
                assert(key_pos(db1@, updated.0.key()) == p) by {
                    assert(db1@[p].0.key() == updated.0.key());
                }
                assert(entries_view(db2@) =~= entries_view(db0@)) by {
                    assert forall|i: int| 0 <= i < db0@.len() implies entries_view(db2@)[i] == entries_view(db0@)[i] by {
                        if i != p {
                            assert(db2@[i] == db1@[i]);
                            assert(db1@[i] == db0@[i]);
                        }
                    }
                }
    }
}

#[verifier::spinoff_prover]
proof fn lemma_undo_after_exec_move(
    op: TaskOp,
    db0: Db<Task, ()>,
    op1: TaskOp,
    db1: Db<Task, ()>,
    r1: Option<Item<Task>>,
    op2: TaskOp,
    db2: Db<Task, ()>,
    r2: Option<Item<Task>>,
)
    requires
        db0.wf(),
        db0.has_room(),
        op.exec_ok(db0),
        exec_effect(op, db0, op1, db1, r1),
        undo_effect(op1, db1, op2, db2, r2),
        op is Move,
    ensures
        op1.undo_ok(db1),
        entries_view(db2@) == entries_view(db0@),
{
    lemma_identities_distinct(&db0);
    lemma_identities_distinct(&db1);
    if let TaskOp::Move { task, to, .. } = op {

                let p = key_pos(db0@, task.key());
                let w = choose|w: int| 0 <= w < db0@.len() && #[trigger] db0@[w].0.key() == task.key();
                assert(db0@[w].0.key() == task.key());
                let rest = db0@.remove(p);
                let t = to.spec_task();
                let v = choose|v: int| 0 <= v < db0@.len() && #[trigger] db0@[v].0.key() == t.key();
                assert(db0@[v].0.key() == t.key());
                let v2 = if v < p { v } else { v - 1 };
                assert(rest[v2].0.key() == t.key());
                let q = to.index_in(rest);
                assert(0 <= key_pos(rest, t.key()) < rest.len());
                assert(0 <= q <= rest.len());
                assert(db1@[q] == db0@[p]);
                assert(db1.contains_key(task.key()));
                assert(key_pos(db1@, task.key()) == q);
                assert(db1@.remove(q) =~= rest);
                assert(db2@ =~= db0@);
    }
}

/// Undoing an operation right after executing it, where the execution
/// took effect, brings the tasks back: the same tasks, with the same
/// values, in the same order.
pub proof fn lemma_undo_after_exec(
    op: TaskOp,
    db0: Db<Task, ()>,
    op1: TaskOp,
    db1: Db<Task, ()>,
    r1: Option<Item<Task>>,
    op2: TaskOp,
    db2: Db<Task, ()>,
    r2: Option<Item<Task>>,
)
    requires
        db0.wf(),
        db0.has_room(),
        op.exec_ok(db0),
        exec_effect(op, db0, op1, db1, r1),
        undo_effect(op1, db1, op2, db2, r2),
    ensures
        op1.undo_ok(db1),
        entries_view(db2@) == entries_view(db0@),
{
    lemma_identities_distinct(&db0);
    lemma_identities_distinct(&db1);
    match op {
        TaskOp::Add { .. } => lemma_undo_after_exec_add(op, db0, op1, db1, r1, op2, db2, r2),
        TaskOp::Remove { .. } => lemma_undo_after_exec_remove(op, db0, op1, db1, r1, op2, db2, r2),
        TaskOp::Update { .. } => lemma_undo_after_exec_update(op, db0, op1, db1, r1, op2, db2, r2),
        TaskOp::Move { .. } => lemma_undo_after_exec_move(op, db0, op1, db1, r1, op2, db2, r2),
    }
}

/// The entries after moving the task with identity `key` to `to`.
pub open spec fn moved(entries: TaskEntries, key: u64, to: Target) -> TaskEntries {
    let p = key_pos(entries, key);
    let rest = entries.remove(p);
    rest.insert(to.index_in(rest), entries[p])
}

/// Executing an operation adds at most one task.
pub proof fn lemma_exec_len(op: TaskOp, db: Db<Task, ()>, post: TaskOp, new_db: Db<Task, ()>, r: Option<Item<Task>>)
    requires
        db.wf(),
        exec_effect(op, db, post, new_db, r),
    ensures
        new_db@.len() <= db@.len() + 1,
{
    lemma_identities_distinct(&db);
    if op.exec_ok(db) {
        match op {
            TaskOp::Add { after, .. } => {
                if after is Some {
                    let a = after.unwrap();
                    let w = choose|w: int| 0 <= w < db@.len() && #[trigger] db@[w].0.key() == a.key();
                    assert(db@[w].0.key() == a.key());
                }
            },
            TaskOp::Remove { task, .. } => {
                let w = choose|w: int| 0 <= w < db@.len() && #[trigger] db@[w].0.key() == task.key();
                assert(db@[w].0.key() == task.key());
            },
            TaskOp::Update { .. } => {},
            TaskOp::Move { task, to, .. } => {
                let w = choose|w: int| 0 <= w < db@.len() && #[trigger] db@[w].0.key() == task.key();
                assert(db@[w].0.key() == task.key());
                let p = key_pos(db@, task.key());
                let rest = db@.remove(p);
                let t = to.spec_task();
                let v = choose|v: int| 0 <= v < db@.len() && #[trigger] db@[v].0.key() == t.key();
                assert(db@[v].0.key() == t.key());
                let v2 = if v < p { v } else { v - 1 };
                assert(rest[v2].0.key() == t.key());
                assert(0 <= key_pos(rest, t.key()) < rest.len());
            },
        }
    }
}

/// Undoing an operation adds at most one task.
pub proof fn lemma_undo_len(op: TaskOp, db: Db<Task, ()>, post: TaskOp, new_db: Db<Task, ()>, r: Option<Item<Task>>)
    requires
        db.wf(),
        undo_effect(op, db, post, new_db, r),
    ensures
        new_db@.len() <= db@.len() + 1,
{
    if op.undo_ok(db) {
        match op {
            TaskOp::Add { task, .. } => {
                let w = choose|w: int| 0 <= w < db@.len() && #[trigger] db@[w].0.key() == task.key();
                assert(db@[w].0.key() == task.key());
            },
            TaskOp::Remove { .. } => {},
            TaskOp::Update { .. } => {},
            TaskOp::Move { task, .. } => {
                let w = choose|w: int| 0 <= w < db@.len() && #[trigger] db@[w].0.key() == task.key();
                assert(db@[w].0.key() == task.key());
            },
        }
    }
}

/// The number of operations on tasks that can be undone in a row.
pub const MAX_UNDO_STEP_COUNT: usize = 64;

/// The tasks of a task set as plain values: for each task, in order, its
/// identifier, its summary and the set of its tag identifiers.
pub open spec fn tasks_from(tasks: Seq<(u128, String, Vec<usize>)>) -> Seq<(u128, Seq<char>, Set<usize>)> {
    tasks.map_values(|t: (u128, String, Vec<usize>)| (t.0, t.1@, t.2@.to_set()))
}

/// Whether every tag identifier of the tasks names one of `known`.
pub open spec fn all_tags_known(tasks: Seq<(u128, String, Vec<usize>)>, known: Map<usize, Seq<char>>) -> bool {
    forall|i: int, j: int| 0 <= i < tasks.len() && 0 <= j < tasks[i].2@.len() ==> known.contains_key(
        #[trigger] tasks[i].2@[j],
    )
}

/// Whether `bad` is a tag identifier of the tasks that names none of
/// `known`.
pub open spec fn is_unknown_tag(tasks: Seq<(u128, String, Vec<usize>)>, known: Map<usize, Seq<char>>, bad: usize) -> bool {
    exists|i: int, j: int| 0 <= i < tasks.len() && 0 <= j < tasks[i].2@.len() && #[trigger] tasks[i].2@[j] == bad
        && !known.contains_key(bad)
}

/// The views of the entries as plain values, as `tasks_from` gives them.
pub open spec fn entries_plain(entries: TaskEntries) -> Seq<(u128, Seq<char>, Set<usize>)> {
    entries.map_values(|e: (Item<Task>, ())| (e.0.spec_value()@.0, e.0.spec_value()@.1, e.0.spec_value()@.2.to_set()))
}

/// An ordered set of tasks, with a record of the operations on it that
/// can be undone and redone.
pub struct Tasks {
    templates: Rc<Templates>,
    tasks: Db<Task, ()>,
    operations: Ops<TaskOp, Db<Task, ()>, Option<Item<Task>>>,
}

impl Tasks {
    /// The tasks with their identities, in order.
    pub closed spec fn entries(&self) -> TaskEntries {
        self.tasks@
    }

    /// The database of the tasks.
    pub closed spec fn db(&self) -> Db<Task, ()> {
        self.tasks
    }

    /// The record of operations, most recent first.
    pub closed spec fn history(&self) -> Seq<Option<TaskOp>> {
        self.operations@
    }

    /// The templates the tasks' tags come from.
    pub closed spec fn spec_templates(&self) -> Templates {
        *self.templates
    }

    /// The internal consistency of the task set; there is room for one
    /// more task.
    pub closed spec fn wf(&self) -> bool {
        &&& self.tasks.wf()
        &&& self.tasks.has_room()
        &&& self.operations.wf()
        &&& self.operations@.len() == MAX_UNDO_STEP_COUNT + 1
    }

    /// Whether `key` is the identity of one of the tasks.
    pub open spec fn contains(&self, key: u64) -> bool {
        exists|p: int| 0 <= p < self.entries().len() && #[trigger] self.entries()[p].0.key() == key
    }

    /// Whether the task set can grow by one task and stay consistent.
    pub open spec fn can_grow(&self) -> bool {
        self.entries().len() + 2 < u32::MAX
    }

    /// Create a task set from the identifiers, summaries and tag
    /// identifiers of its tasks, in order, with tags instantiated from
    /// `templates`. The first tag identifier that names no template is
    /// the error.
    pub fn with_serde(tasks: Vec<(u128, String, Vec<usize>)>, templates: Rc<Templates>) -> (res: Result<Self, usize>)
        requires
            templates.wf(),
            tasks@.len() + 1 < u32::MAX,
        ensures
            res is Ok <==> all_tags_known(tasks@, templates@),
            res matches Ok(t) ==> t.wf() && entries_plain(t.entries()) == tasks_from(tasks@)
                && t.spec_templates() == *templates && t.history() == Seq::new(
                (MAX_UNDO_STEP_COUNT + 1) as nat,
                |i: int| None::<TaskOp>,
            ),
            res matches Err(bad) ==> is_unknown_tag(tasks@, templates@, bad),
    {
        let mut items: Vec<(Task, ())> = Vec::new();
        let mut i: usize = 0;
        while i < tasks.len()
            invariant
                i <= tasks@.len(),
                templates.wf(),
                items@.len() == i,
                forall|a: int, j: int| 0 <= a < i && 0 <= j < tasks@[a].2@.len() ==> templates@.contains_key(
                    #[trigger] tasks@[a].2@[j],
                ),
                forall|a: int| 0 <= a < i ==> (#[trigger] items@[a]).0.wf() && items@[a].0@.0 == tasks@[a].0
                    && items@[a].0@.1 == tasks@[a].1@ && items@[a].0@.2.to_set() == tasks@[a].2@.to_set(),
            decreases tasks@.len() - i,
        {
            let (id, summary, tag_ids) = (tasks[i].0, tasks[i].1.clone(), tasks[i].2.clone());
            match Task::with_serde(id, summary, tag_ids, rc_clone(&templates)) {
                Ok(task) => {
                    items.push((task, ()));
                },
                Err(bad) => {
                    proof {
                        let k = choose|k: int| 0 <= k < tasks@[i as int].2@.len() && tasks@[i as int].2@[k] == bad
                            && !templates@.contains_key(bad);
                        assert(tasks@[i as int].2@[k] == bad);
                    }
                    return Err(bad);
                },
            }
            proof {
                assert forall|a: int, j: int| 0 <= a < i + 1 && 0 <= j < tasks@[a].2@.len() implies templates@.contains_key(
                    #[trigger] tasks@[a].2@[j],
                ) by {
                    if a == i {
                        let _ = tasks@[a].2@[j];
                    }
                }
            }
            i += 1;
        }
        let db = Db::from_iter_with_aux(items);
        let res = Tasks { templates, tasks: db, operations: Ops::new(MAX_UNDO_STEP_COUNT) };
        proof {
            assert(entries_plain(res.entries()) =~= tasks_from(tasks@));
        }
        Ok(res)
    }

    /// The identifiers, summaries and tag identifiers of the tasks, in
    /// order.
    pub fn to_serde(&self) -> (res: Vec<(u128, String, Vec<usize>)>)
        ensures
            res@.len() == self.entries().len(),
            forall|i: int| 0 <= i < res@.len() ==> (#[trigger] res@[i]).0 == self.entries()[i].0.spec_value()@.0
                && res@[i].1@ == self.entries()[i].0.spec_value()@.1 && res@[i].2@ == self.entries()[i].0.spec_value()@.2,
    {
        let items = self.tasks.iter();
        let mut res: Vec<(u128, String, Vec<usize>)> = Vec::new();
        let mut i: usize = 0;
        while i < items.len()
            invariant
                i <= items@.len(),
                items@.len() == self.entries().len(),
                forall|j: int| 0 <= j < self.entries().len() ==> *#[trigger] items@[j] == self.entries()[j].0,
                res@.len() == i,
                forall|j: int| 0 <= j < i ==> (#[trigger] res@[j]).0 == self.entries()[j].0.spec_value()@.0
                    && res@[j].1@ == self.entries()[j].0.spec_value()@.1 && res@[j].2@ == self.entries()[j].0.spec_value()@.2,
            decreases items@.len() - i,
        {
            res.push(items[i].value().to_serde());
            i += 1;
        }
        res
    }

    /// The position at which a task added after `after`, or at the end,
    /// goes.
    pub open spec fn add_position(&self, after: Option<Item<Task>>) -> int {
        match after {
            Some(a) => key_pos(self.entries(), a.key()) + 1,
            None => self.entries().len() as int,
        }
    }

    /// Add a new task with `summary` and the set of tags `tags` after the
    /// task `after`, or at the end, and record the operation.
    pub fn add(&mut self, summary: String, tags: Vec<Tag>, after: Option<Item<Task>>) -> (res: Item<Task>)
        requires
            old(self).wf(),
            old(self).can_grow(),
            old(self).db().fresh_key() < u64::MAX,
            after matches Some(a) ==> old(self).contains(a.key()),
        ensures
            final(self).wf(),
            !old(self).contains(res.key()),
            res.spec_value().wf(),
            res.spec_value()@.1 == summary@,
            res.spec_value()@.2.to_set() == ids_of_tags(tags@).to_set(),
            res.spec_value().spec_templates() == old(self).spec_templates(),
            final(self).entries() == old(self).entries().insert(old(self).add_position(after), (res, ())),
            final(self).history() == after_exec(old(self).history(), TaskOp::Add { task: res, after }),
            final(self).spec_templates() == old(self).spec_templates(),
    {
        let key = self.tasks.next_key();
        proof {
            self.tasks.lemma_fresh_key_unused();
        }
        let task = Task::with_summary_and_tags(summary, tags, rc_clone(&self.templates));
        let item = Item::new(key, task);
        let op = TaskOp::add(item.clone(), after);
        let ghost op_v = op;
        let _result = self.operations.exec(op, &mut self.tasks);
        proof {
            let done = choose|done: TaskOp| #[trigger] TaskOp::exec_post(op_v, old(self).tasks, done, self.tasks, _result)
                && self.operations@ == after_exec(old(self).operations@, done);
            assert(op_v.exec_ok(old(self).tasks));
            assert(done == op_v);
        }
        item
    }

    /// Execute `op`, which adds no task, and record it.
    fn run(&mut self, op: TaskOp) -> (result: Option<Item<Task>>)
        requires
            old(self).wf(),
            !(op is Add),
        ensures
            final(self).wf(),
            final(self).spec_templates() == old(self).spec_templates(),
            exists|done: TaskOp|
                #[trigger] exec_effect(op, old(self).db(), done, final(self).db(), result)
                    && final(self).history() == after_exec(old(self).history(), done),
    {
        let ghost op_v = op;
        let ghost tasks0 = self.tasks;
        let ghost ops0 = self.operations@;
        let res = self.operations.exec(op, &mut self.tasks);
        proof {
            assert(exists|done: TaskOp| #[trigger] TaskOp::exec_post(op_v, tasks0, done, self.tasks, res)
                && self.operations@ == after_exec(ops0, done));
            let done = choose|done: TaskOp| #[trigger] TaskOp::exec_post(op_v, tasks0, done, self.tasks, res)
                && self.operations@ == after_exec(ops0, done);
            assert(exec_effect(op_v, tasks0, done, self.tasks, res));
            match op_v {
                TaskOp::Add { .. } => {},
                TaskOp::Remove { task, .. } => {
                    if op_v.exec_ok(tasks0) {
                        let w = choose|w: int| 0 <= w < tasks0@.len() && #[trigger] tasks0@[w].0.key() == task.key();
                        assert(tasks0@[w].0.key() == task.key());
                    }
                },
                TaskOp::Update { .. } => {},
                TaskOp::Move { task, to, .. } => {
                    if op_v.exec_ok(tasks0) {
                        let w = choose|w: int| 0 <= w < tasks0@.len() && #[trigger] tasks0@[w].0.key() == task.key();
                        assert(tasks0@[w].0.key() == task.key());
                        let p = key_pos(tasks0@, task.key());
                        let rest = tasks0@.remove(p);
                        let t = to.spec_task();
                        let v = choose|v: int| 0 <= v < tasks0@.len() && #[trigger] tasks0@[v].0.key() == t.key();
                        assert(tasks0@[v].0.key() == t.key());
                        lemma_identities_distinct(&tasks0);
                        let v2 = if v < p { v } else { v - 1 };
                        assert(rest[v2].0.key() == t.key());
                        assert(0 <= key_pos(rest, t.key()) < rest.len());
                        assert(self.tasks@ == rest.insert(to.index_in(rest), tasks0@[p]));
                    }
                },
            }
            assert(self.tasks@.len() <= tasks0@.len());
            assert(exec_effect(op_v, old(self).db(), done, self.db(), res) && self.history() == after_exec(
                old(self).history(),
                done,
            ));
        }
        res
    }

    /// Remove the task `task` and record the operation.
    pub fn remove(&mut self, task: Item<Task>)
        requires
            old(self).wf(),
            old(self).contains(task.key()),
        ensures
            final(self).wf(),
            final(self).entries() == old(self).entries().remove(key_pos(old(self).entries(), task.key())),
            final(self).history() == after_exec(
                old(self).history(),
                TaskOp::Remove {
                    task: old(self).entries()[key_pos(old(self).entries(), task.key())].0,
                    position: Some(key_pos(old(self).entries(), task.key()) as usize),
                },
            ),
            final(self).spec_templates() == old(self).spec_templates(),
    {
        let _result = self.run(TaskOp::remove(task));
    }

    /// Replace the value of the task `task` with `updated` and record the
    /// operation. Nothing changes where the task is not in the set.
    pub fn update(&mut self, task: Item<Task>, updated: Task)
        requires
            old(self).wf(),
        ensures
            final(self).wf(),
            !old(self).contains(task.key()) ==> final(self).entries() == old(self).entries(),
            old(self).contains(task.key()) ==> ({
                let p = key_pos(old(self).entries(), task.key());
                &&& final(self).entries().len() == old(self).entries().len()
                &&& forall|i: int| 0 <= i < old(self).entries().len() && i != p ==> final(self).entries()[i]
                    == old(self).entries()[i]
                &&& final(self).entries()[p].0.key() == task.key()
                &&& final(self).entries()[p].0.spec_value()@ == updated@
            }),
            exists|done: TaskOp, r: Option<Item<Task>>|
                #[trigger] exec_effect(
                    (TaskOp::Update { updated: (task, updated), before: None }),
                    old(self).db(),
                    done,
                    final(self).db(),
                    r,
                ) && final(self).history() == after_exec(old(self).history(), done),
            final(self).spec_templates() == old(self).spec_templates(),
    {
        let _result = self.run(TaskOp::update(task, updated));
    }

    /// Move the task `to_move` before the task `other` and record the
    /// operation; nothing happens where the two are the same task.
    pub fn move_before(&mut self, to_move: Item<Task>, other: Item<Task>)
        requires
            old(self).wf(),
            to_move.key() != other.key() ==> old(self).contains(to_move.key()) && old(self).contains(other.key()),
        ensures
            final(self).wf(),
            to_move.key() == other.key() ==> final(self).entries() == old(self).entries() && final(self).history()
                == old(self).history(),
            to_move.key() != other.key() ==> final(self).entries() == moved(
                old(self).entries(),
                to_move.key(),
                Target::Before(other),
            ) && final(self).history() == after_exec(
                old(self).history(),
                TaskOp::Move { task: to_move, to: Target::Before(other), position: Some(key_pos(old(self).entries(), to_move.key()) as usize) },
            ),
            final(self).spec_templates() == old(self).spec_templates(),
    {
        if to_move.identity() != other.identity() {
            let _result = self.run(TaskOp::move_(to_move, Target::Before(other)));
        }
    }

    /// Move the task `to_move` after the task `other` and record the
    /// operation; nothing happens where the two are the same task.
    pub fn move_after(&mut self, to_move: Item<Task>, other: Item<Task>)
        requires
            old(self).wf(),
            to_move.key() != other.key() ==> old(self).contains(to_move.key()) && old(self).contains(other.key()),
        ensures
            final(self).wf(),
            to_move.key() == other.key() ==> final(self).entries() == old(self).entries() && final(self).history()
                == old(self).history(),
            to_move.key() != other.key() ==> final(self).entries() == moved(
                old(self).entries(),
                to_move.key(),
                Target::After(other),
            ) && final(self).history() == after_exec(
                old(self).history(),
                TaskOp::Move { task: to_move, to: Target::After(other), position: Some(key_pos(old(self).entries(), to_move.key()) as usize) },
            ),
            final(self).spec_templates() == old(self).spec_templates(),
    {
        if to_move.identity() != other.identity() {
            let _result = self.run(TaskOp::move_(to_move, Target::After(other)));
        }
    }

    /// Undo the most recent operation, returning its result, or `None`
    /// if there is nothing to undo.
    pub fn undo(&mut self) -> (res: Option<Option<Item<Task>>>)
        requires
            old(self).wf(),
            old(self).can_grow(),
        ensures
            final(self).wf(),
            final(self).spec_templates() == old(self).spec_templates(),
            old(self).history()[0] is None ==> res is None && final(self).entries() == old(self).entries()
                && final(self).history() == old(self).history(),
            old(self).history()[0] matches Some(op) ==> res matches Some(r) && final(self).history().last() matches Some(
                undone,
            ) && undo_effect(op, old(self).db(), undone, final(self).db(), r) && final(self).history()
                == after_undo(old(self).history(), undone),
    {
        let res = self.operations.undo(&mut self.tasks);
        proof {
            if old(self).operations@[0] is Some {
                let op = old(self).operations@[0].unwrap();
                let undone = self.operations@.last().unwrap();
                lemma_undo_len(op, old(self).tasks, undone, self.tasks, res.unwrap());
            }
        }
        res
    }

    /// Redo the most recently undone operation, returning its result, or
    /// `None` if there is nothing to redo.
    pub fn redo(&mut self) -> (res: Option<Option<Item<Task>>>)
        requires
            old(self).wf(),
            old(self).can_grow(),
        ensures
            final(self).wf(),
            final(self).spec_templates() == old(self).spec_templates(),
            old(self).history().last() is None ==> res is None && final(self).entries() == old(self).entries()
                && final(self).history() == old(self).history(),
            old(self).history().last() matches Some(op) ==> res matches Some(r) && final(self).history()[0] matches Some(
                redone,
            ) && exec_effect(op, old(self).db(), redone, final(self).db(), r) && final(self).history()
                == after_redo(old(self).history(), redone),
    {
        let res = self.operations.redo(&mut self.tasks);
        proof {
            if old(self).operations@.last() is Some {
                let op = old(self).operations@.last().unwrap();
                let redone = self.operations@[0].unwrap();
                lemma_exec_len(op, old(self).tasks, redone, self.tasks, res.unwrap());
            }
        }
        res
    }

    /// No two tasks share an identity.
    pub proof fn lemma_identities_unique(&self)
        requires
            self.wf(),
        ensures
            forall|i: int, j: int|
                0 <= i < j < self.entries().len() ==> self.entries()[i].0.key() != self.entries()[j].0.key(),
    {
        lemma_identities_distinct(&self.tasks);
    }

    /// Check whether one more task can be added.
    pub fn can_add(&self) -> (res: bool)
        requires
            self.wf(),
        ensures
            res == (self.can_grow() && self.db().fresh_key() < u64::MAX),
    {
        let len = self.tasks.len();
        len < 4294967293 && self.tasks.next_key() < u64::MAX
    }

    /// Retrieve the task with the identity `key`, if there is one.
    pub fn find_key(&self, key: u64) -> (res: Option<Item<Task>>)
        requires
            self.wf(),
        ensures
            res is Some <==> self.contains(key),
            res matches Some(item) ==> item == self.entries()[key_pos(self.entries(), key)].0,
    {
        let items = self.tasks.iter();
        let mut i: usize = 0;
        while i < items.len()
            invariant
                self.wf(),
                i <= items@.len(),
                items@.len() == self.entries().len(),
                forall|j: int| 0 <= j < self.entries().len() ==> *#[trigger] items@[j] == self.entries()[j].0,
                forall|j: int| 0 <= j < i ==> self.entries()[j].0.key() != key,
            decreases items@.len() - i,
        {
            if items[i].identity() == key {
                proof {
                    self.lemma_identities_unique();
                    assert(self.entries()[i as int].0.key() == key);
                    assert(exists|p: int| 0 <= p < self.entries().len() && self.entries()[p].0.key() == key);
                    let q = key_pos(self.entries(), key);
                    assert(0 <= q < self.entries().len() && self.entries()[q].0.key() == key);
                    assert(q == i);
                }
                return Some(items[i].clone());
            }
            i += 1;
        }
        None
    }

    /// Retrieve the tasks in order.
    pub fn iter(&self) -> (res: Vec<&Item<Task>>)
        ensures
            res@.len() == self.entries().len(),
            forall|i: int| 0 <= i < res@.len() ==> *#[trigger] res@[i] == self.entries()[i].0,
    {
        self.tasks.iter()
    }
}

/// Entries with the same identities and task views place an identity at
/// the same position.
proof fn lemma_same_view_same_positions(a: Db<Task, ()>, b: Db<Task, ()>, key: u64)
    requires
        a.wf(),
        b.wf(),
        entries_view(a@) == entries_view(b@),
        a.contains_key(key),
    ensures
        b.contains_key(key),
        key_pos(a@, key) == key_pos(b@, key),
        0 <= key_pos(a@, key) < a@.len(),
{
    lemma_identities_distinct(&a);
    lemma_identities_distinct(&b);
    assert(a@.len() == b@.len()) by {
        assert(entries_view(a@).len() == a@.len());
        assert(entries_view(b@).len() == b@.len());
    }
    let w = choose|w: int| 0 <= w < a@.len() && #[trigger] a@[w].0.key() == key;
    assert(a@[w].0.key() == key);
    assert(entries_view(a@)[w] == entries_view(b@)[w]);
    assert(b@[w].0.key() == key);
}

/// Where two databases hold the same identities and task views, so do
/// they after the same change of positions.
proof fn lemma_view_of_insert(a: TaskEntries, b: TaskEntries, i: int, x: (Item<Task>, ()), y: (Item<Task>, ()))
    requires
        entries_view(a) == entries_view(b),
        0 <= i <= a.len(),
        x.0.key() == y.0.key(),
        x.0.spec_value()@ == y.0.spec_value()@,
    ensures
        entries_view(a.insert(i, x)) == entries_view(b.insert(i, y)),
{
    assert(a.len() == b.len()) by {
        assert(entries_view(a).len() == a.len());
        assert(entries_view(b).len() == b.len());
    }
    assert forall|j: int| 0 <= j < a.len() + 1 implies entries_view(a.insert(i, x))[j] == entries_view(
        b.insert(i, y),
    )[j] by {
        if j < i {
            assert(entries_view(a)[j] == entries_view(b)[j]);
        } else if j > i {
            assert(entries_view(a)[j - 1] == entries_view(b)[j - 1]);
        }
    }
    assert(entries_view(a.insert(i, x)) =~= entries_view(b.insert(i, y)));
}

/// Redoing an operation right after undoing it, where its execution
/// took effect, brings the tasks back to what the execution made them.
pub proof fn lemma_redo_after_undo(
    op: TaskOp,
    db0: Db<Task, ()>,
    op1: TaskOp,
    db1: Db<Task, ()>,
    r1: Option<Item<Task>>,
    op2: TaskOp,
    db2: Db<Task, ()>,
    r2: Option<Item<Task>>,
    op3: TaskOp,
    db3: Db<Task, ()>,
    r3: Option<Item<Task>>,
)
    requires
        db0.wf(),
        db0.has_room(),
        op.exec_ok(db0),
        exec_effect(op, db0, op1, db1, r1),
        undo_effect(op1, db1, op2, db2, r2),
        exec_effect(op2, db2, op3, db3, r3),
    ensures
        op2.exec_ok(db2),
        entries_view(db3@) == entries_view(db1@),
{
    lemma_undo_after_exec(op, db0, op1, db1, r1, op2, db2, r2);
    assert(op2 == op1);
    match op {
        TaskOp::Add { task, after } => {
            if after is Some {
                lemma_same_view_same_positions(db0, db2, after.unwrap().key());
            }
            assert(!db2.contains_key(task.key())) by {
                if db2.contains_key(task.key()) {
                    lemma_same_view_same_positions(db2, db0, task.key());
                }
            }
            let i = match after {
                Some(a) => key_pos(db0@, a.key()) + 1,
                None => db0@.len() as int,
            };
            assert(entries_view(db0@).len() == entries_view(db2@).len());
            lemma_view_of_insert(db2@, db0@, i, (task, ()), (task, ()));
        },
        TaskOp::Remove { task, .. } => {
            lemma_same_view_same_positions(db0, db2, task.key());
            let p = key_pos(db0@, task.key());
            assert(entries_view(db0@).len() == entries_view(db2@).len());
            assert(entries_view(db3@) =~= entries_view(db1@)) by {
                assert forall|j: int| 0 <= j < db1@.len() implies entries_view(db3@)[j] == entries_view(db1@)[j] by {
                    if j < p {
                        assert(entries_view(db2@)[j] == entries_view(db0@)[j]);
                    } else {
                        assert(entries_view(db2@)[j + 1] == entries_view(db0@)[j + 1]);
                    }
                }
            }
        },
        TaskOp::Update { updated, .. } => {
            lemma_same_view_same_positions(db0, db2, updated.0.key());
            let p = key_pos(db0@, updated.0.key());
            assert(entries_view(db0@).len() == entries_view(db2@).len());
            assert(entries_view(db3@) =~= entries_view(db1@)) by {
                assert forall|j: int| 0 <= j < db1@.len() implies entries_view(db3@)[j] == entries_view(db1@)[j] by {
                    if j != p {
                        assert(entries_view(db2@)[j] == entries_view(db0@)[j]);
                    }
                }
            }
        },
        TaskOp::Move { task, to, .. } => {
            lemma_same_view_same_positions(db0, db2, task.key());
            lemma_same_view_same_positions(db0, db2, to.spec_task().key());
            assert(db2.contains_key(to.spec_task().key()));
            let p = key_pos(db0@, task.key());
            let rest0 = db0@.remove(p);
            let rest2 = db2@.remove(p);
            assert(entries_view(db0@).len() == entries_view(db2@).len());
            assert(entries_view(rest0) =~= entries_view(rest2)) by {
                assert forall|j: int| 0 <= j < rest0.len() implies entries_view(rest0)[j] == entries_view(rest2)[j] by {
                    if j < p {
                        assert(entries_view(db0@)[j] == entries_view(db2@)[j]);
                    } else {
                        assert(entries_view(db0@)[j + 1] == entries_view(db2@)[j + 1]);
                    }
                }
            }
            let t = to.spec_task();
            lemma_identities_distinct(&db0);
            lemma_identities_distinct(&db2);
            let v = key_pos(db0@, t.key());
            let v2 = if v < p { v } else { v - 1 };
            assert(rest0[v2].0.key() == t.key());
            assert(rest2[v2].0.key() == t.key()) by {
                assert(entries_view(rest0)[v2] == entries_view(rest2)[v2]);
            }
            assert(key_pos(rest0, t.key()) == v2) by {
                let c = key_pos(rest0, t.key());
                let c0 = if c < p { c } else { c + 1 };
                assert(db0@[c0].0.key() == t.key());
            }
            assert(key_pos(rest2, t.key()) == v2) by {
                let c = key_pos(rest2, t.key());
                let c0 = if c < p { c } else { c + 1 };
                assert(db2@[c0].0.key() == t.key());
            }
            assert(to.index_in(rest0) == to.index_in(rest2));
            assert(entries_view(db0@)[p] == entries_view(db2@)[p]);
            lemma_view_of_insert(rest2, rest0, to.index_in(rest0), db2@[p], db0@[p]);
        },
    }
}

/// Undoing right after an operation on a task set that took effect
/// brings its tasks back: the same tasks, with the same values, in the
/// same order.
pub proof fn lemma_tasks_undo_after_exec(
    t0: Tasks,
    op: TaskOp,
    done: TaskOp,
    r1: Option<Item<Task>>,
    t1: Tasks,
    undone: TaskOp,
    r2: Option<Item<Task>>,
    t2: Tasks,
)
    requires
        t0.wf(),
        op.exec_ok(t0.db()),
        exec_effect(op, t0.db(), done, t1.db(), r1),
        t1.history() == after_exec(t0.history(), done),
        t1.history()[0] matches Some(front) && undo_effect(front, t1.db(), undone, t2.db(), r2),
    ensures
        entries_view(t2.entries()) == entries_view(t0.entries()),
{
    assert(t1.history()[0] == Some(done));
    lemma_undo_after_exec(op, t0.db(), done, t1.db(), r1, undone, t2.db(), r2);
}

/// Redoing right after undoing an operation on a task set that took
/// effect brings its tasks back to what the operation made them.
pub proof fn lemma_tasks_redo_after_undo(
    t0: Tasks,
    op: TaskOp,
    done: TaskOp,
    r1: Option<Item<Task>>,
    t1: Tasks,
    undone: TaskOp,
    r2: Option<Item<Task>>,
    t2: Tasks,
    redone: TaskOp,
    r3: Option<Item<Task>>,
    t3: Tasks,
)
    requires
        t0.wf(),
        op.exec_ok(t0.db()),
        exec_effect(op, t0.db(), done, t1.db(), r1),
        t1.history() == after_exec(t0.history(), done),
        t1.history()[0] matches Some(front) && undo_effect(front, t1.db(), undone, t2.db(), r2),
        t2.history() == after_undo(t1.history(), undone),
        t2.history().last() matches Some(back) && exec_effect(back, t2.db(), redone, t3.db(), r3),
    ensures
        entries_view(t3.entries()) == entries_view(t1.entries()),
{
    assert(t1.history()[0] == Some(done));
    assert(t2.history().last() == Some(undone));
    lemma_redo_after_undo(op, t0.db(), done, t1.db(), r1, undone, t2.db(), r2, redone, t3.db(), r3);
}

/// Two strictly increasing sequences with the same elements are the
/// same sequence.
pub proof fn lemma_increasing_by_set(a: Seq<usize>, b: Seq<usize>)
    requires
        strictly_increasing(a),
        strictly_increasing(b),
        a.to_set() == b.to_set(),
    ensures
        a == b,
    decreases a.len(),
{
    if a.len() == 0 {
        if b.len() > 0 {
            assert(b.to_set().contains(b[0]));
        }
        assert(a =~= b);
    } else if b.len() == 0 {
        assert(a.to_set().contains(a[0]));
    } else {
        assert(b.to_set().contains(a[0])) by {
            assert(a.to_set().contains(a[0]));
        }
        assert(a.to_set().contains(b[0])) by {
            assert(b.to_set().contains(b[0]));
        }
        let i = choose|i: int| 0 <= i < a.len() && a[i] == b[0];
        let j = choose|j: int| 0 <= j < b.len() && b[j] == a[0];
        if i > 0 {
            assert(a[0] < a[i]);
        }
        if j > 0 {
            assert(b[0] < b[j]);
        }
        assert(a[0] == b[0]);
        let a1 = a.drop_first();
        let b1 = b.drop_first();
        assert(a1.to_set() =~= b1.to_set()) by {
            assert forall|x: usize| a1.to_set().contains(x) implies b1.to_set().contains(x) by {
                let k = choose|k: int| 0 <= k < a1.len() && a1[k] == x;
                assert(a[k + 1] == x);
                assert(a.to_set().contains(x));
                let m = choose|m: int| 0 <= m < b.len() && b[m] == x;
                assert(a[0] < a[k + 1]);
                assert(m != 0);
                assert(b1[m - 1] == x);
            }
            assert forall|x: usize| b1.to_set().contains(x) implies a1.to_set().contains(x) by {
                let k = choose|k: int| 0 <= k < b1.len() && b1[k] == x;
                assert(b[k + 1] == x);
                assert(b.to_set().contains(x));
                let m = choose|m: int| 0 <= m < a.len() && a[m] == x;
                assert(b[0] < b[k + 1]);
                assert(m != 0);
                assert(a1[m - 1] == x);
            }
        }
        lemma_increasing_by_set(a1, b1);
        assert(a.len() == b.len()) by {
            assert(a1.len() == b1.len());
        }
        assert(a =~= b) by {
            assert forall|k: int| 0 <= k < a.len() implies a[k] == b[k] by {
                if k > 0 {
                    assert(a[k] == a1[k - 1]);
                    assert(b[k] == b1[k - 1]);
                }
            }
        }
    }
}

/// The tags of a task are determined by the set of their identifiers:
/// two tasks with the same set have their tags in the same order.
pub proof fn lemma_tags_determined_by_set(t0: Task, t1: Task)
    requires
        t0.wf(),
        t1.wf(),
        t0.tag_ids().to_set() == t1.tag_ids().to_set(),
    ensures
        t0.tag_ids() == t1.tag_ids(),
{
    lemma_increasing_by_set(t0.tag_ids(), t1.tag_ids());
}

/// Setting a tag that a task does not have and unsetting it again
/// brings back the task's tags.
pub proof fn lemma_set_unset_tag(t0: Task, t1: Task, t2: Task, id: usize)
    requires
        t0.wf(),
        t1.wf(),
        t2.wf(),
        !t0.tag_ids().contains(id),
        t1.tag_ids().to_set() == t0.tag_ids().to_set().insert(id),
        t2.tag_ids().to_set() == t1.tag_ids().to_set().remove(id),
    ensures
        t2.tag_ids() == t0.tag_ids(),
{
    assert(t2.tag_ids().to_set() =~= t0.tag_ids().to_set()) by {
        assert(!t0.tag_ids().to_set().contains(id));
    }
    lemma_tags_determined_by_set(t2, t0);
}

/// With distinct identities, the task with the identity of the one at
/// position `p` is found at `p`.
pub(crate) proof fn lemma_key_pos_at(e: TaskEntries, p: int)
    requires
        0 <= p < e.len(),
        forall|i: int, j: int| 0 <= i < j < e.len() ==> e[i].0.key() != e[j].0.key(),
    ensures
        key_pos(e, e[p].0.key()) == p,
{
    let k = e[p].0.key();
    assert(e[p].0.key() == k);
    assert(exists|q: int| 0 <= q < e.len() && #[trigger] e[q].0.key() == k);
    let q = key_pos(e, k);
    assert(0 <= q < e.len() && e[q].0.key() == k);
    if q < p {
        assert(e[q].0.key() != e[p].0.key());
    } else if q > p {
        assert(e[p].0.key() != e[q].0.key());
    }
}

/// Moving the task at position `p` after the task that follows it swaps
/// the two and leaves the other tasks where they are.
pub proof fn lemma_move_after_next(tasks: &Tasks, p: int)
    requires
        tasks.wf(),
        0 <= p,
        p + 1 < tasks.entries().len(),
    ensures
        ({
            let e = tasks.entries();
            moved(e, e[p].0.key(), Target::After(e[p + 1].0)) == e.update(p, e[p + 1]).update(p + 1, e[p])
        }),
{
    let e = tasks.entries();
    tasks.lemma_identities_unique();
    lemma_key_pos_at(e, p);
    let rest = e.remove(p);
    assert forall|i: int, j: int| 0 <= i < j < rest.len() implies rest[i].0.key() != rest[j].0.key() by {
        let a = if i < p { i } else { i + 1 };
        let b = if j < p { j } else { j + 1 };
        assert(rest[i] == e[a] && rest[j] == e[b]);
    }
    assert(rest[p] == e[p + 1]);
    lemma_key_pos_at(rest, p);
    assert(moved(e, e[p].0.key(), Target::After(e[p + 1].0)) =~= e.update(p, e[p + 1]).update(p + 1, e[p]));
}

/// Moving the task at position `p` before the task that precedes it
/// swaps the two and leaves the other tasks where they are.
pub proof fn lemma_move_before_previous(tasks: &Tasks, p: int)
    requires
        tasks.wf(),
        0 < p < tasks.entries().len(),
    ensures
        ({
            let e = tasks.entries();
            moved(e, e[p].0.key(), Target::Before(e[p - 1].0)) == e.update(p, e[p - 1]).update(p - 1, e[p])
        }),
{
    let e = tasks.entries();
    tasks.lemma_identities_unique();
    lemma_key_pos_at(e, p);
    let rest = e.remove(p);
    assert forall|i: int, j: int| 0 <= i < j < rest.len() implies rest[i].0.key() != rest[j].0.key() by {
        let a = if i < p { i } else { i + 1 };
        let b = if j < p { j } else { j + 1 };
        assert(rest[i] == e[a] && rest[j] == e[b]);
    }
    assert(rest[p - 1] == e[p - 1]);
    lemma_key_pos_at(rest, p - 1);
    assert(moved(e, e[p].0.key(), Target::Before(e[p - 1].0)) =~= e.update(p, e[p - 1]).update(p - 1, e[p]));
}

/// Undoing right after removing a task, as `Tasks::remove` and
/// `Tasks::undo` describe them, puts the task back where it was: the
/// tasks are the same, in the same order.
pub proof fn lemma_undo_after_remove(t0: Tasks, key: u64, t1: Tasks, undone: TaskOp, r: Option<Option<Item<Task>>>, t2: Tasks)
    requires
        t0.wf(),
        t0.contains(key),
        t1.wf(),
        t1.entries() == t0.entries().remove(key_pos(t0.entries(), key)),
        t1.history() == after_exec(
            t0.history(),
            TaskOp::Remove {
                task: t0.entries()[key_pos(t0.entries(), key)].0,
                position: Some(key_pos(t0.entries(), key) as usize),
            },
        ),
        t1.history()[0] matches Some(op) && r matches Some(res) && undo_effect(op, t1.db(), undone, t2.db(), res),
    ensures
        t2.entries() == t0.entries(),
{
    let e0 = t0.entries();
    let p = key_pos(e0, key);
    t0.lemma_identities_unique();
    let w = choose|w: int| 0 <= w < e0.len() && #[trigger] e0[w].0.key() == key;
    assert(e0[w].0.key() == key);
    assert(0 <= p < e0.len() && e0[p].0.key() == key);
    let op = TaskOp::Remove { task: e0[p].0, position: Some(p as usize) };
    assert(t1.history()[0] == Some(op));
    assert(!t1.db().contains_key(key)) by {
        if t1.db().contains_key(key) {
            let q = choose|q: int| 0 <= q < t1.db()@.len() && #[trigger] t1.db()@[q].0.key() == key;
            let q0 = if q < p { q } else { q + 1 };
            assert(t1.entries()[q] == e0[q0]);
            assert(e0[q0].0.key() == key);
        }
    }
    assert(op.undo_ok(t1.db()));
    assert((p as usize) as int == p);
    assert(e0[p] == (e0[p].0, ()));
    assert(t2.db()@ == t1.db()@.insert(p, (e0[p].0, ())));
    assert(e0.remove(p).insert(p, e0[p]) =~= e0);
    assert(t2.entries() =~= e0);
}

/// Undoing right after moving a task, as `Tasks::move_before` and
/// `Tasks::move_after` describe it, puts the task back where it was:
/// the tasks are the same, in the same order.
pub proof fn lemma_undo_after_move(
    t0: Tasks,
    task: Item<Task>,
    to: Target,
    t1: Tasks,
    undone: TaskOp,
    r: Option<Option<Item<Task>>>,
    t2: Tasks,
)
    requires
        t0.wf(),
        t0.contains(task.key()),
        t0.contains(to.spec_task().key()),
        task.key() != to.spec_task().key(),
        t1.wf(),
        t1.entries() == moved(t0.entries(), task.key(), to),
        t1.history() == after_exec(
            t0.history(),
            TaskOp::Move { task, to, position: Some(key_pos(t0.entries(), task.key()) as usize) },
        ),
        t1.history()[0] matches Some(op) && r matches Some(res) && undo_effect(op, t1.db(), undone, t2.db(), res),
    ensures
        t2.entries() == t0.entries(),
{
    let e0 = t0.entries();
    let key = task.key();
    let p = key_pos(e0, key);
    t0.lemma_identities_unique();
    t1.lemma_identities_unique();
    let w = choose|w: int| 0 <= w < e0.len() && #[trigger] e0[w].0.key() == key;
    assert(e0[w].0.key() == key);
    assert(0 <= p < e0.len() && e0[p].0.key() == key);
    let rest = e0.remove(p);
    let t = to.spec_task();
    let v = choose|v: int| 0 <= v < e0.len() && #[trigger] e0[v].0.key() == t.key();
    assert(e0[v].0.key() == t.key());
    let v2 = if v < p { v } else { v - 1 };
    assert(rest[v2].0.key() == t.key());
    assert(exists|q: int| 0 <= q < rest.len() && rest[q].0.key() == t.key());
    let k = key_pos(rest, t.key());
    assert(0 <= k < rest.len());
    let idx = to.index_in(rest);
    assert(0 <= idx <= rest.len());
    let e1 = t1.entries();
    assert(e1 == rest.insert(idx, e0[p]));
    assert(e1[idx] == e0[p]);
    lemma_key_pos_at(e1, idx);
    let op = TaskOp::Move { task, to, position: Some(p as usize) };
    assert(t1.history()[0] == Some(op));
    assert(t1.db().contains_key(key)) by {
        assert(t1.db()@[idx].0.key() == key);
    }
    assert(op.undo_ok(t1.db()));
    assert(t1.db()@ == e1);
    assert(key_pos(t1.db()@, key) == idx);
    assert(e1.remove(idx) =~= rest);
    assert(rest.insert(p, e0[p]) =~= e0);
    assert((p as usize) as int == p);
    assert(t2.db()@ == e1.remove(idx).insert(p, e1[idx]));
    assert(t2.entries() =~= e0);
}

} // verus!
