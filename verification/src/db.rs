//! An ordered database of shared items with fast lookup by identity.
//!
//! Every item in a [`Db`] has an identity (a key handed out when the
//! item is created) and the database never holds two items with the
//! same identity. Lookups by identity go through an index sorted by
//! key whose cached positions are kept valid by replaying the log of
//! insertions and deletions made since the index was built.

use std::rc::Rc;

use vstd::prelude::*;

verus! {

/// Clone an `Rc`, producing another handle to the same value.
#[verifier::external_body]
pub(crate) fn rc_clone<T>(rc: &Rc<T>) -> (res: Rc<T>)
    ensures
        res == *rc,
{
    Rc::clone(rc)
}

/// A shared item together with its identity.
#[derive(Debug)]
pub struct Item<T> {
    key: u64,
    value: Rc<T>,
}

impl<T> Item<T> {
    /// The identity of the item.
    pub closed spec fn key(self) -> u64 {
        self.key
    }

    /// The item's value.
    pub closed spec fn spec_value(self) -> T {
        *self.value
    }

    /// Retrieve the item's value.
    pub fn value(&self) -> (res: &T)
        ensures
            *res == self.spec_value(),
    {
        &*self.value
    }

    /// Create an item with the identity `key`.
    pub(crate) fn new(key: u64, value: T) -> (res: Self)
        ensures
            res.key() == key,
            res.spec_value() == value,
    {
        Item { key, value: Rc::new(value) }
    }

    /// Retrieve the identity of the item.
    pub fn identity(&self) -> (res: u64)
        ensures
            res == self.key(),
    {
        self.key
    }

    /// Retrieve the shared handle to the item's value.
    pub fn rc(&self) -> (res: &Rc<T>)
        ensures
            **res == self.spec_value(),
    {
        &self.value
    }
}

impl<T> Clone for Item<T> {
    fn clone(&self) -> (res: Self)
        ensures
            res == *self,
    {
        Item { key: self.key, value: rc_clone(&self.value) }
    }
}

/// An insertion or a deletion at an index of the database.
#[derive(Clone, Copy, Debug)]
enum InsDel {
    Insert(u32),
    Delete(u32),
}

/// A generation number that doubles as an index into the log of
/// insertions and deletions.
#[derive(Clone, Copy, Debug)]
struct Gen(u16);

impl Gen {
    fn new(gen: usize) -> (res: Self)
        requires
            gen <= u16::MAX,
        ensures
            res.0 == gen,
    {
        Gen(gen as u16)
    }
}

/// An index that was valid at a given generation and can be adjusted
/// by replaying the operations performed since then.
#[derive(Clone, Copy, Debug)]
struct ReplayIdx {
    idx: u32,
    gen: Gen,
}

impl ReplayIdx {
    fn new(idx: usize, gen: Gen) -> (res: Self)
        requires
            idx <= u32::MAX,
        ensures
            res.idx == idx,
            res.gen == gen,
    {
        ReplayIdx { idx: idx as u32, gen }
    }

    /// Replay the operations logged since this index's generation,
    /// giving the position of the index's key now.
    fn replay(&self, ins_del: &Vec<InsDel>, Ghost(key): Ghost<u64>, Ghost(hist): Ghost<Seq<Seq<u64>>>) -> (res: usize)
        requires
            entry_ok((key, *self), ins_del@, hist),
            hist.len() == ins_del@.len() + 1,
            forall|t: int| 0 <= t <= ins_del@.len() ==> #[trigger] hist[t].len() < u32::MAX,
        ensures
            res == replay(self.idx as int, ins_del@, self.gen.0 as int, ins_del@.len() as int),
    {
        let ghost ops = ins_del@;
        let ghost gen0 = self.gen.0 as int;
        let mut idx: u32 = self.idx;
        let gen: usize = self.gen.0 as usize;
        if gen < ins_del.len() {
            let mut t: usize = gen;
            while t < ins_del.len()
                invariant
                    gen0 == gen,
                    gen0 == self.gen.0,
                    gen <= t <= ops.len(),
                    ops == ins_del@,
                    idx == replay(self.idx as int, ops, gen0, t as int),
                    entry_ok((key, *self), ops, hist),
                    hist.len() == ops.len() + 1,
                    forall|t: int| 0 <= t <= ops.len() ==> #[trigger] hist[t].len() < u32::MAX,
                decreases ops.len() - t,
            {
                let ghost next = replay(self.idx as int, ops, gen0, t + 1);
                assert(next == replay_step(idx as int, ops[t as int]));
                assert(0 <= next < hist[t + 1].len()) by {
                    let e = (key, *self);
                    assert(e.1.idx == self.idx && e.1.gen.0 == gen0);
                    assert(e.1.gen.0 <= t + 1 <= ops.len());
                    assert(replay(e.1.idx as int, ops, e.1.gen.0 as int, t + 1) == next);
                }
                match ins_del[t] {
                    InsDel::Insert(ins_idx) => {
                        if ins_idx <= idx {
                            idx = idx + 1;
                        }
                    },
                    InsDel::Delete(rem_idx) => {
                        if rem_idx <= idx {
                            idx = idx - 1;
                        }
                    },
                }
                t += 1;
            }
        }
        idx as usize
    }
}

/// How an index moves when an operation is performed: it moves up
/// behind an insertion at or before it and down behind a deletion at or
/// before it.
spec fn replay_step(idx: int, op: InsDel) -> int {
    match op {
        InsDel::Insert(i) => if i <= idx {
            idx + 1
        } else {
            idx
        },
        InsDel::Delete(i) => if i <= idx {
            idx - 1
        } else {
            idx
        },
    }
}

/// An index after replaying the operations `ops[from..to]`.
spec fn replay(idx: int, ops: Seq<InsDel>, from: int, to: int) -> int
    decreases to - from,
{
    if to <= from {
        idx
    } else {
        replay_step(replay(idx, ops, from, to - 1), ops[to - 1])
    }
}

/// Whether no key occurs twice.
spec fn distinct(keys: Seq<u64>) -> bool {
    forall|i: int, j: int| 0 <= i < keys.len() && 0 <= j < keys.len() && i != j ==> keys[i] != keys[j]
}

/// Whether `after` is `before` with the operation `op` applied.
spec fn step_ok(before: Seq<u64>, after: Seq<u64>, op: InsDel) -> bool {
    match op {
        InsDel::Insert(i) => i <= before.len() && after.len() == before.len() + 1 && after == before.insert(
            i as int,
            after[i as int],
        ),
        InsDel::Delete(i) => i < before.len() && after == before.remove(i as int),
    }
}

/// Whether the keys of the index are strictly increasing.
spec fn sorted(index: Seq<(u64, ReplayIdx)>) -> bool {
    forall|a: int, b: int| 0 <= a < b < index.len() ==> index[a].0 < index[b].0
}

/// Whether the index entry `e` locates its key at every generation
/// since the entry's own.
spec fn entry_ok(e: (u64, ReplayIdx), ops: Seq<InsDel>, hist: Seq<Seq<u64>>) -> bool {
    &&& e.1.gen.0 <= ops.len()
    &&& forall|t: int|
        #![trigger replay(e.1.idx as int, ops, e.1.gen.0 as int, t)]
        e.1.gen.0 <= t <= ops.len() ==> {
            let p = replay(e.1.idx as int, ops, e.1.gen.0 as int, t);
            0 <= p < hist[t].len() && hist[t][p] == e.0
        }
}

/// The consistency of the index and the operation log with a sequence
/// of keys, given the history of key sequences since the log started.
spec fn index_ok(
    index: Seq<(u64, ReplayIdx)>,
    ops: Seq<InsDel>,
    hist: Seq<Seq<u64>>,
    keys: Seq<u64>,
) -> bool {
    &&& hist.len() == ops.len() + 1
    &&& hist.last() == keys
    &&& ops.len() <= 4096
    &&& forall|t: int| 0 <= t < ops.len() ==> #[trigger] step_ok(hist[t], hist[t + 1], ops[t])
    &&& forall|t: int| #![trigger hist[t]] 0 <= t <= ops.len() ==> distinct(hist[t]) && hist[t].len() < u32::MAX
    &&& sorted(index)
    &&& forall|a: int| 0 <= a < index.len() ==> #[trigger] entry_ok(index[a], ops, hist)
    &&& forall|p: int| 0 <= p < keys.len() ==> #[trigger] indexed(index, keys[p])
}

/// Whether the index has an entry for the key `k`.
spec fn indexed(index: Seq<(u64, ReplayIdx)>, k: u64) -> bool {
    exists|a: int| 0 <= a < index.len() && index[a].0 == k
}

/// The keys of the items of `data`, in order.
spec fn keys_of<T, Aux>(data: Seq<(Item<T>, Aux)>) -> Seq<u64> {
    data.map_values(|e: (Item<T>, Aux)| e.0.key)
}

/// A reference to an item in a [`Db`], giving access to the item, its
/// auxiliary data and its neighbors.
pub struct Entry<'db, T, Aux> {
    data: &'db Vec<(Item<T>, Aux)>,
    index: usize,
}

impl<'db, T, Aux> Entry<'db, T, Aux> {
    /// The items of the database the entry refers into.
    pub closed spec fn items(self) -> Seq<(Item<T>, Aux)> {
        self.data@
    }

    /// The position of the entry's item.
    pub closed spec fn position(self) -> int {
        self.index as int
    }

    /// Whether the entry refers to an existing item.
    pub closed spec fn valid(self) -> bool {
        self.index < self.data@.len()
    }

    fn new(data: &'db Vec<(Item<T>, Aux)>, index: usize) -> (res: Self)
        requires
            index < data@.len(),
        ensures
            res.items() == data@,
            res.position() == index,
            res.valid(),
    {
        Entry { data, index }
    }

    /// Retrieve the entry for the following item, if any.
    pub fn next(&self) -> (res: Option<Entry<'db, T, Aux>>)
        requires
            self.valid(),
        ensures
            self.position() + 1 < self.items().len() ==> (res matches Some(e) && e.valid()
                && e.items() == self.items() && e.position() == self.position() + 1),
            self.position() + 1 >= self.items().len() ==> res is None,
    {
        let len = self.data.len();
        match self.index.checked_add(1) {
            Some(index) => if index < len {
                Some(Entry::new(self.data, index))
            } else {
                None
            },
            None => None,
        }
    }

    /// Retrieve the entry for the preceding item, if any.
    pub fn prev(&self) -> (res: Option<Entry<'db, T, Aux>>)
        requires
            self.valid(),
        ensures
            self.position() > 0 ==> (res matches Some(e) && e.valid() && e.items() == self.items()
                && e.position() == self.position() - 1),
            self.position() == 0 ==> res is None,
    {
        if self.index > 0 {
            Some(Entry::new(self.data, self.index - 1))
        } else {
            None
        }
    }

    /// Retrieve the position of the entry's item in the database.
    pub fn index(&self) -> (res: usize)
        ensures
            res == self.position(),
            self.valid() ==> res < self.items().len(),
    {
        self.index
    }

    /// Retrieve the entry's item.
    pub fn item(&self) -> (res: &'db Item<T>)
        requires
            self.valid(),
        ensures
            *res == self.items()[self.position()].0,
    {
        &self.data[self.index].0
    }
}

impl<'db, T, Aux: Copy> Entry<'db, T, Aux> {
    /// Retrieve a copy of the auxiliary data of the entry's item.
    pub fn aux(&self) -> (res: Aux)
        requires
            self.valid(),
        ensures
            res == self.items()[self.position()].1,
    {
        self.data[self.index].1
    }
}

proof fn lemma_replay_push(idx: int, ops: Seq<InsDel>, op: InsDel, from: int, t: int)
    requires
        0 <= from <= t <= ops.len(),
    ensures
        replay(idx, ops.push(op), from, t) == replay(idx, ops, from, t),
    decreases t - from,
{
    if from < t {
        lemma_replay_push(idx, ops, op, from, t - 1);
        assert(ops.push(op)[t - 1] == ops[t - 1]);
    }
}

proof fn lemma_step_insert(keys: Seq<u64>, after: Seq<u64>, i: u32, p: int)
    requires
        i <= keys.len(),
        0 <= p < keys.len(),
        after == keys.insert(i as int, after[i as int]),
        after.len() == keys.len() + 1,
    ensures
        0 <= replay_step(p, InsDel::Insert(i)) < after.len(),
        after[replay_step(p, InsDel::Insert(i))] == keys[p],
{
    if i <= p {
        assert(after[p + 1] == keys.insert(i as int, after[i as int])[p + 1]);
    } else {
        assert(after[p] == keys.insert(i as int, after[i as int])[p]);
    }
}

proof fn lemma_step_delete(keys: Seq<u64>, i: u32, p: int)
    requires
        i < keys.len(),
        0 <= p < keys.len(),
        p != i,
    ensures
        0 <= replay_step(p, InsDel::Delete(i)) < keys.len() - 1,
        keys.remove(i as int)[replay_step(p, InsDel::Delete(i))] == keys[p],
{
    if i < p {
        assert(keys.remove(i as int)[p - 1] == keys[p]);
    } else {
        assert(keys.remove(i as int)[p] == keys[p]);
    }
}

/// An index entry stays valid across an operation that does not delete
/// its key.
proof fn lemma_entry_ok_extend(
    e: (u64, ReplayIdx),
    ops: Seq<InsDel>,
    hist: Seq<Seq<u64>>,
    op: InsDel,
    after: Seq<u64>,
)
    requires
        entry_ok(e, ops, hist),
        hist.len() == ops.len() + 1,
        step_ok(hist.last(), after, op),
        match op {
            InsDel::Delete(i) => hist.last()[i as int] != e.0,
            InsDel::Insert(_) => true,
        },
    ensures
        entry_ok(e, ops.push(op), hist.push(after)),
{
    let n = ops.len() as int;
    let gen = e.1.gen.0 as int;
    let idx = e.1.idx as int;
    let ops2 = ops.push(op);
    let hist2 = hist.push(after);
    assert forall|t: int|
        #![trigger replay(idx, ops2, gen, t)]
        gen <= t <= ops2.len() implies {
            let p = replay(idx, ops2, gen, t);
            0 <= p < hist2[t].len() && hist2[t][p] == e.0
        } by {
        if t <= n {
            lemma_replay_push(idx, ops, op, gen, t);
            assert(hist2[t] == hist[t]);
            let p = replay(idx, ops, gen, t);
            assert(0 <= p < hist[t].len() && hist[t][p] == e.0);
        } else {
            lemma_replay_push(idx, ops, op, gen, n);
            let p = replay(idx, ops, gen, n);
            assert(0 <= p < hist[n].len() && hist[n][p] == e.0);
            assert(replay(idx, ops2, gen, t) == replay_step(replay(idx, ops2, gen, n), ops2[n]));
            assert(ops2[n] == op);
            assert(hist[n] == hist.last());
            match op {
                InsDel::Insert(i) => {
                    lemma_step_insert(hist.last(), after, i, p);
                },
                InsDel::Delete(i) => {
                    lemma_step_delete(hist.last(), i, p);
                },
            }
        }
    }
}

/// Inserting an entry into the index keeps every key the index had.
proof fn lemma_insert_keeps_indexed(index: Seq<(u64, ReplayIdx)>, a: int, e: (u64, ReplayIdx), k: u64)
    requires
        0 <= a <= index.len(),
        indexed(index, k),
    ensures
        indexed(index.insert(a, e), k),
{
    let b = choose|b: int| 0 <= b < index.len() && index[b].0 == k;
    if b < a {
        assert(index.insert(a, e)[b] == index[b]);
    } else {
        assert(index.insert(a, e)[b + 1] == index[b]);
    }
}

/// Removing an entry from the index keeps every other key the index had.
proof fn lemma_remove_keeps_indexed(index: Seq<(u64, ReplayIdx)>, a: int, k: u64)
    requires
        0 <= a < index.len(),
        indexed(index, k),
        index[a].0 != k,
    ensures
        indexed(index.remove(a), k),
{
    let b = choose|b: int| 0 <= b < index.len() && index[b].0 == k;
    if b < a {
        assert(index.remove(a)[b] == index[b]);
    } else {
        assert(index.remove(a)[b - 1] == index[b]);
    }
}

/// Inserting a key that does not occur keeps the keys distinct.
proof fn lemma_distinct_insert(keys: Seq<u64>, i: int, k: u64)
    requires
        distinct(keys),
        0 <= i <= keys.len(),
        !keys.contains(k),
    ensures
        distinct(keys.insert(i, k)),
{
    let after = keys.insert(i, k);
    assert forall|x: int, y: int|
        0 <= x < after.len() && 0 <= y < after.len() && x != y implies after[x] != after[y] by {
        if x != i && y != i {
            let x0 = if x < i { x } else { x - 1 };
            let y0 = if y < i { y } else { y - 1 };
            assert(after[x] == keys[x0]);
            assert(after[y] == keys[y0]);
        } else if x == i {
            let y0 = if y < i { y } else { y - 1 };
            assert(after[y] == keys[y0]);
        } else {
            let x0 = if x < i { x } else { x - 1 };
            assert(after[x] == keys[x0]);
        }
    }
}

/// Removing a key keeps the keys distinct.
proof fn lemma_distinct_remove(keys: Seq<u64>, i: int)
    requires
        distinct(keys),
        0 <= i < keys.len(),
    ensures
        distinct(keys.remove(i)),
{
    let after = keys.remove(i);
    assert forall|x: int, y: int|
        0 <= x < after.len() && 0 <= y < after.len() && x != y implies after[x] != after[y] by {
        let x0 = if x < i { x } else { x + 1 };
        let y0 = if y < i { y } else { y + 1 };
        assert(after[x] == keys[x0]);
        assert(after[y] == keys[y0]);
    }
}

/// A key in a well-formed index occurs in the current keys.
proof fn lemma_indexed_key_present(
    index: Seq<(u64, ReplayIdx)>,
    ops: Seq<InsDel>,
    hist: Seq<Seq<u64>>,
    keys: Seq<u64>,
    a: int,
)
    requires
        index_ok(index, ops, hist, keys),
        0 <= a < index.len(),
    ensures
        keys.contains(index[a].0),
{
    let e = index[a];
    assert(entry_ok(e, ops, hist));
    let t = ops.len() as int;
    let p = replay(e.1.idx as int, ops, e.1.gen.0 as int, t);
    assert(0 <= p < hist[t].len() && hist[t][p] == e.0);
    assert(keys[p] == e.0);
}

/// Every index entry stays valid across an operation that does not
/// delete any indexed key.
proof fn lemma_entries_extend(
    index: Seq<(u64, ReplayIdx)>,
    ops: Seq<InsDel>,
    hist: Seq<Seq<u64>>,
    op: InsDel,
    after: Seq<u64>,
)
    requires
        forall|a: int| 0 <= a < index.len() ==> #[trigger] entry_ok(index[a], ops, hist),
        hist.len() == ops.len() + 1,
        step_ok(hist.last(), after, op),
        match op {
            InsDel::Delete(i) => forall|a: int| 0 <= a < index.len() ==> #[trigger] index[a].0 != hist.last()[i as int],
            InsDel::Insert(_) => true,
        },
    ensures
        forall|a: int| 0 <= a < index.len() ==> #[trigger] entry_ok(index[a], ops.push(op), hist.push(after)),
{
    assert forall|a: int| 0 <= a < index.len() implies #[trigger] entry_ok(index[a], ops.push(op), hist.push(after)) by {
        assert(entry_ok(index[a], ops, hist));
        match op {
            InsDel::Delete(i) => {
                assert(index[a].0 != hist.last()[i as int]);
            },
            InsDel::Insert(_) => {},
        }
        lemma_entry_ok_extend(index[a], ops, hist, op, after);
    }
}

/// Inserting a valid entry at its sorted position keeps the index
/// sorted and its entries valid.
proof fn lemma_index_insert_entry(
    index: Seq<(u64, ReplayIdx)>,
    a: int,
    e: (u64, ReplayIdx),
    ops: Seq<InsDel>,
    hist: Seq<Seq<u64>>,
)
    requires
        sorted(index),
        0 <= a <= index.len(),
        forall|b: int| 0 <= b < a ==> index[b].0 < e.0,
        forall|b: int| a <= b < index.len() ==> index[b].0 > e.0,
        forall|b: int| 0 <= b < index.len() ==> #[trigger] entry_ok(index[b], ops, hist),
        entry_ok(e, ops, hist),
    ensures
        sorted(index.insert(a, e)),
        forall|b: int| 0 <= b < index.len() + 1 ==> #[trigger] entry_ok(index.insert(a, e)[b], ops, hist),
        indexed(index.insert(a, e), e.0),
{
    let after = index.insert(a, e);
    assert forall|x: int, y: int| 0 <= x < y < after.len() implies after[x].0 < after[y].0 by {
        if x != a { assert(after[x] == index[if x < a { x } else { x - 1 }]); }
        if y != a { assert(after[y] == index[if y < a { y } else { y - 1 }]); }
    }
    assert forall|b: int| 0 <= b < index.len() + 1 implies #[trigger] entry_ok(after[b], ops, hist) by {
        if b != a {
            assert(after[b] == index[if b < a { b } else { b - 1 }]);
        }
    }
    assert(after[a] == e);
}

/// The elements of `v` in reverse order.
fn reversed<A>(v: Vec<A>) -> (res: Vec<A>)
    ensures
        res@.len() == v@.len(),
        forall|j: int| 0 <= j < v@.len() ==> #[trigger] res@[j] == v@[v@.len() - 1 - j],
{
    let ghost orig = v@;
    let ghost n = v@.len();
    let mut v = v;
    let mut res: Vec<A> = Vec::new();
    while v.len() > 0
        invariant
            v@ == orig.take(v@.len() as int),
            res@.len() + v@.len() == n,
            n == orig.len(),
            forall|j: int| 0 <= j < res@.len() ==> #[trigger] res@[j] == orig[n - 1 - j],
        decreases v@.len(),
    {
        match v.pop() {
            Some(x) => {
                res.push(x);
            },
            None => {},
        }
    }
    res
}

/// Whether no two of `items` share an identity.
pub open spec fn identities_distinct<T>(items: Seq<Item<T>>) -> bool {
    forall|i: int, j: int| 0 <= i < j < items.len() ==> items[i].key() != items[j].key()
}

/// The identity a database hands out after taking in items with the
/// identities `keys`, one after the other, starting from 0.
pub open spec fn fresh_key_for(keys: Seq<u64>) -> u64
    decreases keys.len(),
{
    if keys.len() == 0 {
        0
    } else {
        let before = fresh_key_for(keys.drop_last());
        let k = keys.last();
        if k < before {
            before
        } else if k == u64::MAX {
            u64::MAX
        } else {
            (k + 1) as u64
        }
    }
}

/// A database of shared items, each with auxiliary data of type `Aux`,
/// kept in a well-defined order. No two items share an identity.
pub struct Db<T, Aux> {
    /// The items along with their auxiliary data, in order.
    data: Vec<(Item<T>, Aux)>,
    /// An index on the items' keys, sorted by key.
    by_key_idx: Vec<(u64, ReplayIdx)>,
    /// The insertions and deletions since the index was built.
    ins_del: Vec<InsDel>,
    /// The key the next created item receives.
    next_key: u64,
    /// The sequences of keys since the index was built, one per
    /// generation.
    history: Ghost<Seq<Seq<u64>>>,
}

impl<T, Aux> View for Db<T, Aux> {
    type V = Seq<(Item<T>, Aux)>;

    closed spec fn view(&self) -> Seq<(Item<T>, Aux)> {
        self.data@
    }
}

impl<T, Aux> Db<T, Aux> {
    /// The internal consistency of the database.
    pub closed spec fn wf(&self) -> bool {
        &&& index_ok(self.by_key_idx@, self.ins_del@, self.history@, keys_of(self.data@))
        &&& forall|p: int|
            0 <= p < self.data@.len() ==> #[trigger] self.data@[p].0.key < self.next_key
                || self.data@[p].0.key == u64::MAX
    }

    /// The identity the next item created by the database receives.
    pub closed spec fn fresh_key(&self) -> u64 {
        self.next_key
    }

    /// Whether another item can be created and added: identities are
    /// not exhausted and the number of items stays below `u32::MAX`.
    pub open spec fn can_grow(&self) -> bool {
        self.fresh_key() < u64::MAX && self.has_room()
    }

    /// Whether another existing item can be added.
    pub open spec fn has_room(&self) -> bool {
        self@.len() + 1 < u32::MAX
    }

    /// Whether an item with the identity of `item` is in the database.
    pub open spec fn contains_key(&self, k: u64) -> bool {
        exists|p: int| 0 <= p < self@.len() && #[trigger] self@[p].0.key() == k
    }

    /// Look up a key in the sorted index.
    fn find_in_index(index: &Vec<(u64, ReplayIdx)>, key: u64) -> (res: Result<usize, usize>)
        requires
            sorted(index@),
        ensures
            match res {
                Ok(a) => a < index@.len() && index@[a as int].0 == key,
                Err(a) => a <= index@.len() && (forall|b: int| 0 <= b < a ==> index@[b].0 < key)
                    && (forall|b: int| a <= b < index@.len() ==> index@[b].0 > key),
            },
    {
        let mut lo: usize = 0;
        let mut hi: usize = index.len();
        while lo < hi
            invariant
                sorted(index@),
                lo <= hi <= index@.len(),
                forall|b: int| 0 <= b < lo ==> index@[b].0 < key,
                forall|b: int| hi <= b < index@.len() ==> index@[b].0 > key,
            decreases hi - lo,
        {
            let mid = lo + (hi - lo) / 2;
            let k = index[mid].0;
            if k == key {
                return Ok(mid);
            } else if k < key {
                lo = mid + 1;
            } else {
                hi = mid;
            }
        }
        Err(lo)
    }

    /// Build an index for the items of `data`, or report the position of
    /// the first item whose key occurred before.
    fn make_key_idx(data: &Vec<(Item<T>, Aux)>) -> (res: Result<Vec<(u64, ReplayIdx)>, usize>)
        requires
            data@.len() < u32::MAX,
        ensures
            match res {
                Ok(index) => distinct(keys_of(data@)) && index_ok(
                    index@,
                    Seq::empty(),
                    seq![keys_of(data@)],
                    keys_of(data@),
                ),
                Err(j) => j < data@.len() && distinct(keys_of(data@).take(j as int)) && keys_of(
                    data@,
                ).take(j as int).contains(keys_of(data@)[j as int]),
            },
    {
        let ghost keys = keys_of(data@);
        let mut index: Vec<(u64, ReplayIdx)> = Vec::new();
        let mut i: usize = 0;
        while i < data.len()
            invariant
                i <= data@.len() < u32::MAX,
                keys == keys_of(data@),
                distinct(keys.take(i as int)),
                sorted(index@),
                forall|a: int|
                    0 <= a < index@.len() ==> {
                        let e = #[trigger] index@[a];
                        &&& e.1.gen.0 == 0
                        &&& e.1.idx < i
                        &&& keys[e.1.idx as int] == e.0
                    },
                forall|p: int| 0 <= p < i ==> #[trigger] indexed(index@, keys[p]),
            decreases data@.len() - i,
        {
            let key = data[i].0.key;
            assert(key == keys[i as int]);
            match Self::find_in_index(&index, key) {
                Ok(a) => {
                    proof {
                        let j = index@[a as int].1.idx as int;
                        assert(keys.take(i as int)[j] == key);
                    }
                    return Err(i);
                },
                Err(a) => {
                    proof {
                        assert forall|j: int| 0 <= j < i implies keys[j] != key by {
                            assert(indexed(index@, keys[j]));
                            let b = choose|b: int| 0 <= b < index@.len() && index@[b].0 == keys[j];
                        }
                        assert(!keys.take(i as int).contains(key));
                        lemma_distinct_insert(keys.take(i as int), i as int, key);
                        assert(keys.take(i as int).insert(i as int, key) =~= keys.take(i + 1));
                    }
                    let ghost old_index = index@;
                    let e = (key, ReplayIdx::new(i, Gen(0)));
                    index.insert(a, e);
                    proof {
                        assert forall|p: int| 0 <= p < i + 1 implies #[trigger] indexed(index@, keys[p]) by {
                            if p < i {
                                lemma_insert_keeps_indexed(old_index, a as int, e, keys[p]);
                            } else {
                                assert(index@[a as int] == e);
                            }
                        }
                        assert forall|x: int, y: int| 0 <= x < y < index@.len() implies index@[x].0 < index@[y].0 by {
                            let x0 = if x < a { x } else if x == a { -1 } else { x - 1 };
                            let y0 = if y < a { y } else if y == a { -1 } else { y - 1 };
                            if x0 >= 0 { assert(index@[x] == old_index[x0]); }
                            if y0 >= 0 { assert(index@[y] == old_index[y0]); }
                        }
                        assert forall|b: int| 0 <= b < index@.len() implies {
                            let e = #[trigger] index@[b];
                            &&& e.1.gen.0 == 0
                            &&& e.1.idx < i + 1
                            &&& keys[e.1.idx as int] == e.0
                        } by {
                            if b < a {
                                assert(index@[b] == old_index[b]);
                            } else if b > a {
                                assert(index@[b] == old_index[b - 1]);
                            }
                        }
                    }
                },
            }
            i += 1;
        }
        proof {
            assert(keys.take(i as int) =~= keys);
            let ops = Seq::<InsDel>::empty();
            let hist = seq![keys];
            assert forall|a: int| 0 <= a < index@.len() implies #[trigger] entry_ok(index@[a], ops, hist) by {
                let e = index@[a];
                assert forall|t: int|
                    #![trigger replay(e.1.idx as int, ops, e.1.gen.0 as int, t)]
                    e.1.gen.0 <= t <= ops.len() implies {
                        let p = replay(e.1.idx as int, ops, e.1.gen.0 as int, t);
                        0 <= p < hist[t].len() && hist[t][p] == e.0
                    } by {
                    assert(t == 0);
                }
            }
            assert(hist.last() == keys);
            assert(forall|t: int| #![trigger hist[t]] 0 <= t <= ops.len() ==> distinct(hist[t]) && hist[t].len() < u32::MAX);
        }
        Ok(index)
    }

    /// Rebuild the index from scratch once the log of insertions and
    /// deletions has grown too long.
    fn maybe_rebuild_by_key_idx(&mut self) -> (rebuilt: bool)
        requires
            distinct(keys_of(old(self).data@)),
            old(self).data@.len() < u32::MAX,
        ensures
            final(self).data@ == old(self).data@,
            final(self).next_key == old(self).next_key,
            rebuilt ==> final(self).ins_del@.len() == 0 && index_ok(
                final(self).by_key_idx@,
                final(self).ins_del@,
                final(self).history@,
                keys_of(final(self).data@),
            ),
            !rebuilt ==> *final(self) == *old(self) && old(self).ins_del@.len() < 4096,
    {
        if self.ins_del.len() >= 4096 {
            match Self::make_key_idx(&self.data) {
                Ok(index) => {
                    self.by_key_idx = index;
                },
                Err(_) => {},
            }
            self.ins_del.clear();
            proof {
                self.history@ = seq![keys_of(self.data@)];
            }
            true
        } else {
            false
        }
    }

    /// Add the item at position `idx` to the index, after it has been
    /// inserted there; `old_keys` are the keys from before the insertion.
    #[verifier::spinoff_prover]
    fn index(&mut self, idx: usize, Ghost(old_keys): Ghost<Seq<u64>>)
        requires
            index_ok(old(self).by_key_idx@, old(self).ins_del@, old(self).history@, old_keys),
            idx < old(self).data@.len() < u32::MAX,
            old(self).data@.len() == old_keys.len() + 1,
            keys_of(old(self).data@) == old_keys.insert(idx as int, keys_of(old(self).data@)[idx as int]),
            !old_keys.contains(keys_of(old(self).data@)[idx as int]),
        ensures
            final(self).data@ == old(self).data@,
            final(self).next_key == old(self).next_key,
            index_ok(
                final(self).by_key_idx@,
                final(self).ins_del@,
                final(self).history@,
                keys_of(final(self).data@),
            ),
    {
        let ghost keys = keys_of(self.data@);
        let ghost key = keys[idx as int];
        proof {
            assert(distinct(self.history@[self.ins_del@.len() as int]));
            lemma_distinct_insert(old_keys, idx as int, key);
        }
        if self.maybe_rebuild_by_key_idx() {
            return;
        }
        let ghost ops0 = self.ins_del@;
        let ghost hist0 = self.history@;
        let ghost index0 = self.by_key_idx@;
        let op = InsDel::Insert(idx as u32);
        self.ins_del.push(op);
        let gen = Gen::new(self.ins_del.len());
        let rep_idx = ReplayIdx::new(idx, gen);
        let key_x = self.data[idx].0.key;
        assert(key_x == key);
        let ghost ops1 = self.ins_del@;
        let ghost hist1 = hist0.push(keys);
        proof {
            assert(step_ok(hist0.last(), keys, op));
            lemma_entries_extend(index0, ops0, hist0, op, keys);
            let e = (key_x, rep_idx);
            assert forall|t: int|
                #![trigger replay(e.1.idx as int, ops1, e.1.gen.0 as int, t)]
                e.1.gen.0 <= t <= ops1.len() implies {
                    let p = replay(e.1.idx as int, ops1, e.1.gen.0 as int, t);
                    0 <= p < hist1[t].len() && hist1[t][p] == e.0
                } by {
                assert(t == ops1.len());
            }
            assert(entry_ok(e, ops1, hist1));
        }
        match Self::find_in_index(&self.by_key_idx, key_x) {
            Ok(a) => {
                proof {
                    lemma_indexed_key_present(index0, ops0, hist0, old_keys, a as int);
                }
            },
            Err(a) => {
                proof {
                    lemma_index_insert_entry(index0, a as int, (key_x, rep_idx), ops1, hist1);
                    assert forall|p: int| 0 <= p < keys.len() implies #[trigger] indexed(
                        index0.insert(a as int, (key_x, rep_idx)),
                        keys[p],
                    ) by {
                        if p != idx {
                            let p0 = if p < idx { p } else { p - 1 };
                            assert(keys[p] == old_keys[p0]);
                            assert(indexed(index0, old_keys[p0]));
                            lemma_insert_keeps_indexed(index0, a as int, (key_x, rep_idx), keys[p]);
                        }
                    }
                }
                self.by_key_idx.insert(a, (key_x, rep_idx));
            },
        }
        proof {
            self.history@ = hist1;
            assert forall|t: int| 0 <= t < ops1.len() implies #[trigger] step_ok(hist1[t], hist1[t + 1], ops1[t]) by {
                if t < ops0.len() {
                    assert(hist1[t] == hist0[t] && hist1[t + 1] == hist0[t + 1] && ops1[t] == ops0[t]);
                } else {
                    assert(hist1[t] == hist0.last());
                }
            }
            assert forall|t: int| #![trigger hist1[t]] 0 <= t <= ops1.len() implies distinct(hist1[t]) && hist1[t].len() < u32::MAX by {
                if t < hist0.len() {
                    assert(hist1[t] == hist0[t]);
                    assert(distinct(hist0[t]));
                }
            }
            assert(index_ok(self.by_key_idx@, self.ins_del@, self.history@, keys));
        }
    }

    /// Remove the item at position `idx` from the index, before it is
    /// removed from the data.
    #[verifier::spinoff_prover]
    fn deindex(&mut self, idx: usize)
        requires
            old(self).wf(),
            idx < old(self).data@.len(),
        ensures
            final(self).data@ == old(self).data@,
            final(self).next_key == old(self).next_key,
            index_ok(
                final(self).by_key_idx@,
                final(self).ins_del@,
                final(self).history@,
                keys_of(old(self).data@).remove(idx as int),
            ),
    {
        let ghost keys = keys_of(self.data@);
        proof {
            assert(distinct(self.history@[self.ins_del@.len() as int]));
        }
        let _rebuilt = self.maybe_rebuild_by_key_idx();
        let ghost ops0 = self.ins_del@;
        let ghost hist0 = self.history@;
        let ghost index0 = self.by_key_idx@;
        let op = InsDel::Delete(idx as u32);
        self.ins_del.push(op);
        let key = self.data[idx].0.key;
        assert(key == keys[idx as int]);
        let ghost after = keys.remove(idx as int);
        let ghost ops1 = self.ins_del@;
        let ghost hist1 = hist0.push(after);
        match Self::find_in_index(&self.by_key_idx, key) {
            Ok(a) => {
                proof {
                    let index1 = index0.remove(a as int);
                    assert forall|b: int| 0 <= b < index1.len() implies #[trigger] entry_ok(index1[b], ops0, hist0)
                        && index1[b].0 != key by {
                        let b0 = if b < a { b } else { b + 1 };
                        assert(index1[b] == index0[b0]);
                        assert(entry_ok(index0[b0], ops0, hist0));
                    }
                    assert(step_ok(hist0.last(), after, op));
                    lemma_entries_extend(index1, ops0, hist0, op, after);
                    assert forall|x: int, y: int| 0 <= x < y < index1.len() implies index1[x].0 < index1[y].0 by {
                        assert(index1[x] == index0[if x < a { x } else { x + 1 }]);
                        assert(index1[y] == index0[if y < a { y } else { y + 1 }]);
                    }
                    assert forall|p: int| 0 <= p < after.len() implies #[trigger] indexed(index1, after[p]) by {
                        let p0 = if p < idx { p } else { p + 1 };
                        assert(after[p] == keys[p0]);
                        assert(indexed(index0, keys[p0]));
                        assert(keys[p0] != key);
                        lemma_remove_keeps_indexed(index0, a as int, keys[p0]);
                    }
                }
                let _entry = self.by_key_idx.remove(a);
            },
            Err(_) => {
                proof {
                    assert(indexed(index0, keys[idx as int]));
                }
            },
        }
        proof {
            self.history@ = hist1;
            lemma_distinct_remove(keys, idx as int);
            assert forall|t: int| 0 <= t < ops1.len() implies #[trigger] step_ok(hist1[t], hist1[t + 1], ops1[t]) by {
                if t < ops0.len() {
                    assert(hist1[t] == hist0[t] && hist1[t + 1] == hist0[t + 1] && ops1[t] == ops0[t]);
                } else {
                    assert(hist1[t] == hist0.last());
                }
            }
            assert forall|t: int| #![trigger hist1[t]] 0 <= t <= ops1.len() implies distinct(hist1[t]) && hist1[t].len() < u32::MAX by {
                if t < hist0.len() {
                    assert(hist1[t] == hist0[t]);
                    assert(distinct(hist0[t]));
                }
            }
        }
    }

    /// Retrieve the entry of the item at position `index`, if any.
    pub fn get(&self, index: usize) -> (res: Option<Entry<'_, T, Aux>>)
        ensures
            index < self@.len() ==> (res matches Some(e) && e.valid() && e.items() == self@
                && e.position() == index),
            index >= self@.len() ==> res is None,
    {
        if index < self.data.len() {
            Some(Entry::new(&self.data, index))
        } else {
            None
        }
    }

    /// Retrieve the identity the next item created by the database
    /// receives.
    pub fn next_key(&self) -> (res: u64)
        ensures
            res == self.fresh_key(),
    {
        self.next_key
    }

    /// Create an item holding `value` with an identity that no item of
    /// the database has, without adding it; the identity is used up.
    pub fn new_item(&mut self, value: T) -> (res: Item<T>)
        requires
            old(self).wf(),
            old(self).fresh_key() < u64::MAX,
        ensures
            final(self).wf(),
            final(self)@ == old(self)@,
            res.key() == old(self).fresh_key(),
            res.spec_value() == value,
            !old(self).contains_key(res.key()),
            final(self).fresh_key() == old(self).fresh_key() + 1,
    {
        proof {
            self.lemma_fresh_key_unused();
        }
        let key = self.next_key;
        self.next_key = key + 1;
        Item::new(key, value)
    }

    /// No item has the identity that the next created item receives,
    /// while identities are not exhausted.
    pub proof fn lemma_fresh_key_unused(&self)
        requires
            self.wf(),
            self.fresh_key() < u64::MAX,
        ensures
            !self.contains_key(self.fresh_key()),
    {
        if self.contains_key(self.fresh_key()) {
            let p = choose|p: int| 0 <= p < self@.len() && #[trigger] self@[p].0.key() == self.fresh_key();
            assert(self.data@[p].0.key < self.next_key || self.data@[p].0.key == u64::MAX);
        }
    }

    /// Retrieve the number of items.
    pub fn len(&self) -> (res: usize)
        ensures
            res == self@.len(),
    {
        self.data.len()
    }

    /// Retrieve the entry of the last item, if any.
    pub fn last(&self) -> (res: Option<Entry<'_, T, Aux>>)
        ensures
            self@.len() > 0 ==> (res matches Some(e) && e.valid() && e.items() == self@
                && e.position() == self@.len() - 1),
            self@.len() == 0 ==> res is None,
    {
        let len = self.data.len();
        if len > 0 {
            Some(Entry::new(&self.data, len - 1))
        } else {
            None
        }
    }

    /// Insert a new item with auxiliary data `aux` at position `index`.
    /// The item receives an identity no other item of the database has.
    pub fn insert_with_aux(&mut self, index: usize, item: T, aux: Aux) -> (res: Entry<'_, T, Aux>)
        requires
            old(self).wf(),
            old(self).can_grow(),
            index <= old(self)@.len(),
        ensures
            final(self).wf(),
            final(self)@ == old(self)@.insert(index as int, final(self)@[index as int]),
            final(self)@[index as int].0.spec_value() == item,
            final(self)@[index as int].1 == aux,
            final(self)@[index as int].0.key() == old(self).fresh_key(),
            !old(self).contains_key(final(self)@[index as int].0.key()),
            final(self).fresh_key() == old(self).fresh_key() + 1,
            res.valid(),
            res.items() == final(self)@,
            res.position() == index,
    {
        let ghost old_keys = keys_of(self.data@);
        let key = self.next_key;
        self.next_key = key + 1;
        self.data.insert(index, (Item::new(key, item), aux));
        proof {
            assert(keys_of(self.data@) =~= old_keys.insert(index as int, key));
            assert(!old_keys.contains(key)) by {
                if old_keys.contains(key) {
                    let p = choose|p: int| 0 <= p < old_keys.len() && old_keys[p] == key;
                    assert(old_keys[p] == old(self).data@[p].0.key);
                }
            }
        }
        self.index(index, Ghost(old_keys));
        proof {
            assert forall|p: int| 0 <= p < self.data@.len() implies #[trigger] self.data@[p].0.key < self.next_key
                || self.data@[p].0.key == u64::MAX by {
                if p < index {
                    assert(self.data@[p] == old(self).data@[p]);
                } else if p > index {
                    assert(self.data@[p] == old(self).data@[p - 1]);
                }
            }
            assert(!old(self).contains_key(key)) by {
                if old(self).contains_key(key) {
                    let p = choose|p: int| 0 <= p < old(self)@.len() && #[trigger] old(self)@[p].0.key() == key;
                    assert(old_keys[p] == key);
                }
            }
        }
        Entry::new(&self.data, index)
    }

    /// Insert a new item at position `index`, with default auxiliary
    /// data.
    pub fn insert(&mut self, index: usize, item: T) -> (res: Entry<'_, T, Aux>)
        where
            Aux: Default,
        requires
            old(self).wf(),
            old(self).can_grow(),
            index <= old(self)@.len(),
        ensures
            final(self).wf(),
            final(self)@ == old(self)@.insert(index as int, final(self)@[index as int]),
            final(self)@[index as int].0.spec_value() == item,
            Aux::default.ensures((), final(self)@[index as int].1),
            final(self)@[index as int].0.key() == old(self).fresh_key(),
            !old(self).contains_key(final(self)@[index as int].0.key()),
            final(self).fresh_key() == old(self).fresh_key() + 1,
            res.valid(),
            res.items() == final(self)@,
            res.position() == index,
    {
        let aux = Aux::default();
        self.insert_with_aux(index, item, aux)
    }

    /// Insert a new item with auxiliary data `aux` after the last item.
    /// The item receives an identity no other item of the database has.
    pub fn push_with_aux(&mut self, item: T, aux: Aux) -> (res: Entry<'_, T, Aux>)
        requires
            old(self).wf(),
            old(self).can_grow(),
        ensures
            final(self).wf(),
            final(self)@ == old(self)@.push(final(self)@.last()),
            final(self)@.last().0.spec_value() == item,
            final(self)@.last().1 == aux,
            final(self)@.last().0.key() == old(self).fresh_key(),
            !old(self).contains_key(final(self)@.last().0.key()),
            final(self).fresh_key() == old(self).fresh_key() + 1,
            res.valid(),
            res.items() == final(self)@,
            res.position() == old(self)@.len(),
    {
        let ghost old_keys = keys_of(self.data@);
        let key = self.next_key;
        self.next_key = key + 1;
        let idx = self.data.len();
        self.data.push((Item::new(key, item), aux));
        proof {
            assert(keys_of(self.data@) =~= old_keys.insert(idx as int, key));
            assert(!old_keys.contains(key)) by {
                if old_keys.contains(key) {
                    let p = choose|p: int| 0 <= p < old_keys.len() && old_keys[p] == key;
                    assert(old_keys[p] == old(self).data@[p].0.key);
                }
            }
        }
        self.index(idx, Ghost(old_keys));
        proof {
            assert forall|p: int| 0 <= p < self.data@.len() implies #[trigger] self.data@[p].0.key < self.next_key
                || self.data@[p].0.key == u64::MAX by {
                if p < idx {
                    assert(self.data@[p] == old(self).data@[p]);
                }
            }
            assert(!old(self).contains_key(key)) by {
                if old(self).contains_key(key) {
                    let p = choose|p: int| 0 <= p < old(self)@.len() && #[trigger] old(self)@[p].0.key() == key;
                    assert(old_keys[p] == key);
                }
            }
        }
        Entry::new(&self.data, idx)
    }

    /// Insert a new item after the last item, with default auxiliary
    /// data.
    pub fn push(&mut self, item: T) -> (res: Entry<'_, T, Aux>)
        where
            Aux: Default,
        requires
            old(self).wf(),
            old(self).can_grow(),
        ensures
            final(self).wf(),
            final(self)@ == old(self)@.push(final(self)@.last()),
            final(self)@.last().0.spec_value() == item,
            Aux::default.ensures((), final(self)@.last().1),
            final(self)@.last().0.key() == old(self).fresh_key(),
            !old(self).contains_key(final(self)@.last().0.key()),
            final(self).fresh_key() == old(self).fresh_key() + 1,
            res.valid(),
            res.items() == final(self)@,
            res.position() == old(self)@.len(),
    {
        let aux = Aux::default();
        self.push_with_aux(item, aux)
    }

    /// Look up the entry of the item with the identity of `item`.
    pub fn find(&mut self, item: &Item<T>) -> (res: Option<Entry<'_, T, Aux>>)
        requires
            old(self).wf(),
        ensures
            final(self).wf(),
            final(self)@ == old(self)@,
            final(self).fresh_key() == old(self).fresh_key(),
            res is Some <==> old(self).contains_key(item.key()),
            res matches Some(e) ==> e.valid() && e.items() == final(self)@ && final(self)@[e.position()].0.key()
                == item.key(),
    {
        let key = item.key;
        let ghost keys = keys_of(self.data@);
        let ghost ops = self.ins_del@;
        let ghost hist = self.history@;
        let ghost index0 = self.by_key_idx@;
        match Self::find_in_index(&self.by_key_idx, key) {
            Ok(a) => {
                let rep_idx = self.by_key_idx[a].1;
                proof {
                    assert(entry_ok(index0[a as int], ops, hist));
                    assert(index0[a as int] == (key, rep_idx));
                }
                let data_idx = rep_idx.replay(&self.ins_del, Ghost(key), Ghost(self.history@));
                let gen = Gen::new(self.ins_del.len());
                let new_entry = (key, ReplayIdx::new(data_idx, gen));
                proof {
                    let t = ops.len() as int;
                    assert(replay(rep_idx.idx as int, ops, rep_idx.gen.0 as int, t) == data_idx);
                    assert(0 <= data_idx < hist[t].len() && hist[t][data_idx as int] == key);
                    assert(keys[data_idx as int] == key);
                    assert forall|t: int|
                        #![trigger replay(new_entry.1.idx as int, ops, new_entry.1.gen.0 as int, t)]
                        new_entry.1.gen.0 <= t <= ops.len() implies {
                            let p = replay(new_entry.1.idx as int, ops, new_entry.1.gen.0 as int, t);
                            0 <= p < hist[t].len() && hist[t][p] == new_entry.0
                        } by {
                        assert(t == ops.len());
                    }
                }
                self.by_key_idx.set(a, new_entry);
                proof {
                    let index1 = self.by_key_idx@;
                    assert(index1 =~= index0.update(a as int, new_entry));
                    assert forall|b: int| 0 <= b < index1.len() implies #[trigger] entry_ok(index1[b], ops, hist) by {
                        if b != a {
                            assert(index1[b] == index0[b]);
                        }
                    }
                    assert forall|p: int| 0 <= p < keys.len() implies #[trigger] indexed(index1, keys[p]) by {
                        assert(indexed(index0, keys[p]));
                        let b = choose|b: int| 0 <= b < index0.len() && index0[b].0 == keys[p];
                        assert(index1[b].0 == keys[p]);
                    }
                    assert(data_idx < self.data@.len());
                    assert(self@[data_idx as int].0.key() == key);
                }
                self.get(data_idx)
            },
            Err(_) => {
                proof {
                    if self.contains_key(key) {
                        let p = choose|p: int| 0 <= p < self@.len() && #[trigger] self@[p].0.key() == key;
                        assert(keys[p] == key);
                        assert(indexed(index0, keys[p]));
                    }
                }
                None
            },
        }
    }

    /// The identity the database hands out after it took in an existing
    /// item with identity `key`.
    pub open spec fn fresh_key_after(&self, key: u64) -> u64 {
        if key < self.fresh_key() {
            self.fresh_key()
        } else if key == u64::MAX {
            u64::MAX
        } else {
            (key + 1) as u64
        }
    }

    /// Add an existing item at position `index`, unless an item with
    /// its identity is present already; the item's identity is kept.
    fn add_item(&mut self, index: usize, item: Item<T>, aux: Aux)
        requires
            old(self).wf(),
            old(self).has_room(),
            !old(self).contains_key(item.key()),
            index <= old(self)@.len(),
        ensures
            final(self).wf(),
            final(self)@ == old(self)@.insert(index as int, (item, aux)),
            final(self).fresh_key() == old(self).fresh_key_after(item.key()),
    {
        let ghost old_keys = keys_of(self.data@);
        let key = item.key;
        if key >= self.next_key {
            self.next_key = if key == u64::MAX {
                u64::MAX
            } else {
                key + 1
            };
        }
        self.data.insert(index, (item, aux));
        proof {
            assert(keys_of(self.data@) =~= old_keys.insert(index as int, key));
            assert(!old_keys.contains(key)) by {
                if old_keys.contains(key) {
                    let p = choose|p: int| 0 <= p < old_keys.len() && old_keys[p] == key;
                    assert(old(self)@[p].0.key() == key);
                }
            }
        }
        self.index(index, Ghost(old_keys));
        proof {
            assert forall|p: int| 0 <= p < self.data@.len() implies #[trigger] self.data@[p].0.key < self.next_key
                || self.data@[p].0.key == u64::MAX by {
                if p < index {
                    assert(self.data@[p] == old(self).data@[p]);
                } else if p > index {
                    assert(self.data@[p] == old(self).data@[p - 1]);
                }
            }
        }
    }

    /// Try to add an existing item with auxiliary data `aux` at position
    /// `index`; this succeeds if no item with its identity is present.
    pub fn try_insert_with_aux(&mut self, index: usize, item: Item<T>, aux: Aux) -> (res: Option<
        Entry<'_, T, Aux>,
    >)
        requires
            old(self).wf(),
            old(self).has_room(),
            !old(self).contains_key(item.key()) ==> index <= old(self)@.len(),
        ensures
            final(self).wf(),
            old(self).contains_key(item.key()) ==> res is None && final(self)@ == old(self)@
                && final(self).fresh_key() == old(self).fresh_key(),
            !old(self).contains_key(item.key()) ==> (res matches Some(e) && e.valid() && e.items()
                == final(self)@ && e.position() == index) && final(self)@ == old(self)@.insert(
                index as int,
                (item, aux),
            ) && final(self).fresh_key() == old(self).fresh_key_after(item.key()),
    {
        if self.find(&item).is_some() {
            None
        } else {
            self.add_item(index, item, aux);
            self.get(index)
        }
    }

    /// Try to add an existing item at position `index`, with default
    /// auxiliary data; this succeeds if no item with its identity is
    /// present.
    pub fn try_insert(&mut self, index: usize, item: Item<T>) -> (res: Option<Entry<'_, T, Aux>>)
        where
            Aux: Default,
        requires
            old(self).wf(),
            old(self).has_room(),
            !old(self).contains_key(item.key()) ==> index <= old(self)@.len(),
        ensures
            final(self).wf(),
            old(self).contains_key(item.key()) ==> res is None && final(self)@ == old(self)@
                && final(self).fresh_key() == old(self).fresh_key(),
            !old(self).contains_key(item.key()) ==> (res matches Some(e) && e.valid() && e.items()
                == final(self)@ && e.position() == index) && final(self)@ == old(self)@.insert(
                index as int,
                (item, final(self)@[index as int].1),
            ) && Aux::default.ensures((), final(self)@[index as int].1) && final(self).fresh_key()
                == old(self).fresh_key_after(item.key()),
    {
        let aux = Aux::default();
        self.try_insert_with_aux(index, item, aux)
    }

    /// Try to add an existing item with auxiliary data `aux` after the
    /// last item; this succeeds if no item with its identity is present.
    pub fn try_push_with_aux(&mut self, item: Item<T>, aux: Aux) -> (res: Option<Entry<'_, T, Aux>>)
        requires
            old(self).wf(),
            old(self).has_room(),
        ensures
            final(self).wf(),
            old(self).contains_key(item.key()) ==> res is None && final(self)@ == old(self)@
                && final(self).fresh_key() == old(self).fresh_key(),
            !old(self).contains_key(item.key()) ==> (res matches Some(e) && e.valid() && e.items()
                == final(self)@ && e.position() == old(self)@.len()) && final(self)@ == old(self)@.push(
                (item, aux),
            ) && final(self).fresh_key() == old(self).fresh_key_after(item.key()),
    {
        if self.find(&item).is_some() {
            None
        } else {
            let idx = self.data.len();
            self.add_item(idx, item, aux);
            proof {
                assert(old(self)@.insert(idx as int, (item, aux)) =~= old(self)@.push((item, aux)));
            }
            self.last()
        }
    }

    /// Try to add an existing item after the last item, with default
    /// auxiliary data; this succeeds if no item with its identity is
    /// present.
    pub fn try_push(&mut self, item: Item<T>) -> (res: Option<Entry<'_, T, Aux>>)
        where
            Aux: Default,
        requires
            old(self).wf(),
            old(self).has_room(),
        ensures
            final(self).wf(),
            old(self).contains_key(item.key()) ==> res is None && final(self)@ == old(self)@
                && final(self).fresh_key() == old(self).fresh_key(),
            !old(self).contains_key(item.key()) ==> (res matches Some(e) && e.valid() && e.items()
                == final(self)@ && e.position() == old(self)@.len()) && final(self)@ == old(self)@.push(
                (item, final(self)@.last().1),
            ) && Aux::default.ensures((), final(self)@.last().1) && final(self).fresh_key()
                == old(self).fresh_key_after(item.key()),
    {
        let aux = Aux::default();
        self.try_push_with_aux(item, aux)
    }

    /// Remove the item at position `index`, handing it out with its
    /// auxiliary data.
    pub fn remove(&mut self, index: usize) -> (res: (Item<T>, Aux))
        requires
            old(self).wf(),
            index < old(self)@.len(),
        ensures
            final(self).wf(),
            final(self)@ == old(self)@.remove(index as int),
            final(self).fresh_key() == old(self).fresh_key(),
            res == old(self)@[index as int],
    {
        let ghost keys = keys_of(self.data@);
        self.deindex(index);
        let (item, aux) = self.data.remove(index);
        proof {
            assert(keys_of(self.data@) =~= keys.remove(index as int));
            assert forall|p: int| 0 <= p < self.data@.len() implies #[trigger] self.data@[p].0.key < self.next_key
                || self.data@[p].0.key == u64::MAX by {
                if p < index {
                    assert(self.data@[p] == old(self).data@[p]);
                } else {
                    assert(self.data@[p] == old(self).data@[p + 1]);
                }
            }
        }
        (item, aux)
    }

    /// Replace the auxiliary data of the item at position `index`.
    pub fn set_aux(&mut self, index: usize, aux: Aux)
        requires
            old(self).wf(),
            index < old(self)@.len(),
        ensures
            final(self).wf(),
            final(self)@ == old(self)@.update(index as int, (old(self)@[index as int].0, aux)),
            final(self).fresh_key() == old(self).fresh_key(),
    {
        let ghost keys = keys_of(self.data@);
        self.data[index].1 = aux;
        proof {
            assert(self.data@ =~= old(self).data@.update(index as int, (old(self)@[index as int].0, aux)));
            assert(keys_of(self.data@) =~= keys);
            assert forall|p: int| 0 <= p < self.data@.len() implies #[trigger] self.data@[p].0.key < self.next_key
                || self.data@[p].0.key == u64::MAX by {
                assert(self.data@[p].0 == old(self).data@[p].0);
            }
        }
    }

    /// Retrieve the items in order.
    pub fn iter(&self) -> (res: Vec<&Item<T>>)
        ensures
            res@.len() == self@.len(),
            forall|i: int| 0 <= i < self@.len() ==> *#[trigger] res@[i] == self@[i].0,
    {
        let mut res: Vec<&Item<T>> = Vec::new();
        let mut i: usize = 0;
        while i < self.data.len()
            invariant
                i <= self.data@.len(),
                res@.len() == i,
                forall|j: int| 0 <= j < i ==> *#[trigger] res@[j] == self.data@[j].0,
            decreases self.data@.len() - i,
        {
            res.push(&self.data[i].0);
            i += 1;
        }
        res
    }
}


impl<T, Aux> Db<T, Aux> {
    /// Create a database from items and their auxiliary data, in order.
    /// The items receive the identities 0, 1, 2 and so on.
    pub fn from_iter_with_aux(items: Vec<(T, Aux)>) -> (res: Self)
        requires
            items@.len() < u32::MAX,
        ensures
            res.wf(),
            res@.len() == items@.len(),
            res.fresh_key() == items@.len(),
            forall|i: int|
                0 <= i < items@.len() ==> (#[trigger] res@[i]).0.key() == i && res@[i].0.spec_value()
                    == items@[i].0 && res@[i].1 == items@[i].1,
    {
        let ghost orig = items@;
        let n = items.len();
        let mut rev = reversed(items);
        let mut data: Vec<(Item<T>, Aux)> = Vec::new();
        let mut key: u64 = 0;
        while rev.len() > 0
            invariant
                n == orig.len() < u32::MAX,
                data@.len() + rev@.len() == n,
                key == data@.len(),
                forall|j: int| 0 <= j < rev@.len() ==> #[trigger] rev@[j] == orig[n - 1 - j],
                forall|j: int|
                    0 <= j < data@.len() ==> (#[trigger] data@[j]).0.key == j && data@[j].0.spec_value()
                        == orig[j].0 && data@[j].1 == orig[j].1,
            decreases rev@.len(),
        {
            let ghost last = rev@.len() - 1;
            match rev.pop() {
                Some((item, aux)) => {
                    assert(orig[n - 1 - last] == (item, aux));
                    data.push((Item::new(key, item), aux));
                    key = key + 1;
                },
                None => {},
            }
        }
        proof {
            assert forall|i: int, j: int|
                0 <= i < keys_of(data@).len() && 0 <= j < keys_of(data@).len() && i != j implies keys_of(
                data@,
            )[i] != keys_of(data@)[j] by {
                assert(data@[i].0.key == i);
                assert(data@[j].0.key == j);
            }
        }
        match Self::make_key_idx(&data) {
            Ok(index) => {
                let ghost hist = seq![keys_of(data@)];
                Db { data, by_key_idx: index, ins_del: Vec::new(), next_key: key, history: Ghost(hist) }
            },
            Err(j) => {
                proof {
                    let keys = keys_of(data@);
                    let i = choose|i: int| 0 <= i < j && keys.take(j as int)[i] == keys[j as int];
                    assert(data@[i].0.key == i);
                    assert(data@[j as int].0.key == j);
                }
                let ghost hist = seq![keys_of(data@)];
                Db { data, by_key_idx: Vec::new(), ins_del: Vec::new(), next_key: key, history: Ghost(hist) }
            },
        }
    }
}

impl<T> Db<T, ()> {
    /// Create a database from items, in order. The items receive the
    /// identities 0, 1, 2 and so on.
    pub fn from_iter(items: Vec<T>) -> (res: Self)
        requires
            items@.len() < u32::MAX,
        ensures
            res.wf(),
            res@.len() == items@.len(),
            res.fresh_key() == items@.len(),
            forall|i: int|
                0 <= i < items@.len() ==> (#[trigger] res@[i]).0.key() == i && res@[i].0.spec_value()
                    == items@[i],
    {
        let ghost orig = items@;
        let n = items.len();
        let mut rev = reversed(items);
        let mut pairs: Vec<(T, ())> = Vec::new();
        while rev.len() > 0
            invariant
                n == orig.len(),
                pairs@.len() + rev@.len() == n,
                forall|j: int| 0 <= j < rev@.len() ==> #[trigger] rev@[j] == orig[n - 1 - j],
                forall|j: int| 0 <= j < pairs@.len() ==> (#[trigger] pairs@[j]).0 == orig[j],
            decreases rev@.len(),
        {
            let ghost last = rev@.len() - 1;
            match rev.pop() {
                Some(item) => {
                    assert(orig[n - 1 - last] == item);
                    pairs.push((item, ()));
                },
                None => {},
            }
        }
        Self::from_iter_with_aux(pairs)
    }

    /// Create a database from existing items, in order, keeping their
    /// identities. Fails with the first item whose identity occurred
    /// before.
    pub fn try_from_iter(items: Vec<Item<T>>) -> (res: Result<Self, Item<T>>)
        requires
            items@.len() < u32::MAX,
        ensures
            res is Ok <==> identities_distinct(items@),
            res matches Ok(db) ==> db.wf() && db@.len() == items@.len() && db.fresh_key() == fresh_key_for(
                items@.map_values(|item: Item<T>| item.key()),
            ) && forall|i: int| 0 <= i < items@.len() ==> #[trigger] db@[i] == (items@[i], ()),
            res matches Err(item) ==> exists|j: int|
                0 <= j < items@.len() && item == items@[j] && identities_distinct(items@.take(j))
                    && exists|i: int| 0 <= i < j && #[trigger] items@[i].key() == items@[j].key(),
    {
        let ghost orig = items@;
        let ghost okeys = orig.map_values(|item: Item<T>| item.key());
        let n = items.len();
        let mut rev = reversed(items);
        let mut data: Vec<(Item<T>, ())> = Vec::new();
        let mut next_key: u64 = 0;
        while rev.len() > 0
            invariant
                n == orig.len() < u32::MAX,
                okeys == orig.map_values(|item: Item<T>| item.key()),
                data@.len() + rev@.len() == n,
                forall|j: int| 0 <= j < rev@.len() ==> #[trigger] rev@[j] == orig[n - 1 - j],
                forall|j: int| 0 <= j < data@.len() ==> #[trigger] data@[j] == (orig[j], ()),
                next_key == fresh_key_for(okeys.take(data@.len() as int)),
            decreases rev@.len(),
        {
            let ghost last = rev@.len() - 1;
            let ghost k = data@.len() as int;
            match rev.pop() {
                Some(item) => {
                    assert(orig[n - 1 - last] == item);
                    let key = item.key;
                    proof {
                        assert(okeys.take(k + 1).drop_last() =~= okeys.take(k));
                        assert(okeys.take(k + 1).last() == key);
                    }
                    if key >= next_key {
                        next_key = if key == u64::MAX {
                            u64::MAX
                        } else {
                            key + 1
                        };
                    }
                    data.push((item, ()));
                },
                None => {},
            }
        }
        proof {
            assert(keys_of(data@) =~= okeys);
            assert(okeys.take(n as int) =~= okeys);
        }
        match Self::make_key_idx(&data) {
            Ok(index) => {
                let ghost hist = seq![okeys];
                let db = Db {
                    data,
                    by_key_idx: index,
                    ins_del: Vec::new(),
                    next_key,
                    history: Ghost(hist),
                };
                proof {
                    assert forall|p: int| 0 <= p < db.data@.len() implies #[trigger] db.data@[p].0.key < db.next_key
                        || db.data@[p].0.key == u64::MAX by {
                        lemma_fresh_key_for_bound(okeys, p);
                    }
                    assert(identities_distinct(orig)) by {
                        assert forall|i: int, j: int| 0 <= i < j < orig.len() implies orig[i].key() != orig[j].key() by {
                            assert(okeys[i] == orig[i].key() && okeys[j] == orig[j].key());
                        }
                    }
                }
                Ok(db)
            },
            Err(j) => {
                let item = data[j].0.clone();
                proof {
                    assert(okeys.take(j as int).contains(okeys[j as int]));
                    let i = choose|i: int| 0 <= i < j && okeys.take(j as int)[i] == okeys[j as int];
                    assert(orig[i].key() == orig[j as int].key());
                    assert(identities_distinct(orig.take(j as int))) by {
                        assert forall|a: int, b: int| 0 <= a < b < orig.take(j as int).len() implies orig.take(
                            j as int,
                        )[a].key() != orig.take(j as int)[b].key() by {
                            assert(okeys.take(j as int)[a] == orig[a].key());
                            assert(okeys.take(j as int)[b] == orig[b].key());
                        }
                    }
                    assert(!identities_distinct(orig));
                }
                Err(item)
            },
        }
    }
}

/// Every identity in `keys` is below the identity handed out after
/// them, unless it is the largest identity.
proof fn lemma_fresh_key_for_bound(keys: Seq<u64>, p: int)
    requires
        0 <= p < keys.len(),
    ensures
        keys[p] < fresh_key_for(keys) || keys[p] == u64::MAX,
    decreases keys.len(),
{
    if p < keys.len() - 1 {
        lemma_fresh_key_for_bound(keys.drop_last(), p);
    }
}

/// No two items of a well-formed database share an identity.
pub proof fn lemma_identities_distinct<T, Aux>(db: &Db<T, Aux>)
    requires
        db.wf(),
    ensures
        forall|i: int, j: int|
            0 <= i < db@.len() && 0 <= j < db@.len() && i != j ==> db@[i].0.key() != db@[j].0.key(),
{
    let keys = keys_of(db.data@);
    assert(db.history@[db.ins_del@.len() as int] == keys);
    assert forall|i: int, j: int|
        0 <= i < db@.len() && 0 <= j < db@.len() && i != j implies db@[i].0.key() != db@[j].0.key() by {
        assert(keys[i] == db@[i].0.key() && keys[j] == db@[j].0.key());
    }
}
} // verus!
