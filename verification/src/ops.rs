//! A bounded record of reversible operations that can be undone and
//! redone.
//!
//! The record is a ring of slots, the front holding the most recently
//! executed operation. Undoing an operation moves it from the front to
//! the back, redoing one moves it from the back to the front again, and
//! executing a new operation drops whatever could still be redone.

use std::marker::PhantomData;

use rbuf::RingBuf;

use vstd::prelude::*;

verus! {

/// The ring buffer type of the `rbuf` crate.
#[verifier::external_type_specification]
#[verifier::external_body]
#[verifier::reject_recursive_types(T)]
pub struct ExRingBuf<T>(RingBuf<T>);

/// The elements of a ring buffer, front first.
pub uninterp spec fn ring_slots(ring: RingBuf<Option<u64>>) -> Seq<Option<u64>>;

/// Create a ring buffer holding the elements of `elems`, the first one
/// at the front (`RingBuf::from_vec`, which panics on an empty vector).
#[verifier::external_body]
fn ring_from_vec(elems: Vec<Option<u64>>) -> (ring: RingBuf<Option<u64>>)
    requires
        elems@.len() > 0,
    ensures
        ring_slots(ring) == elems@,
{
    RingBuf::from_vec(elems)
}

/// The front element (`RingBuf::front`).
#[verifier::external_body]
fn ring_front(ring: &RingBuf<Option<u64>>) -> (res: Option<u64>)
    requires
        ring_slots(*ring).len() > 0,
    ensures
        res == ring_slots(*ring)[0],
{
    *ring.front()
}

/// The back element (`RingBuf::back`).
#[verifier::external_body]
fn ring_back(ring: &RingBuf<Option<u64>>) -> (res: Option<u64>)
    requires
        ring_slots(*ring).len() > 0,
    ensures
        res == ring_slots(*ring).last(),
{
    *ring.back()
}

/// Push `elem` to the front, which overwrites the back element
/// (`RingBuf::push_front`).
#[verifier::external_body]
fn ring_push_front(ring: &mut RingBuf<Option<u64>>, elem: Option<u64>)
    requires
        ring_slots(*old(ring)).len() > 0,
    ensures
        ring_slots(*final(ring)) == seq![elem] + ring_slots(*old(ring)).drop_last(),
{
    ring.push_front(elem)
}

/// Remove the front element, which leaves a default element at the back
/// (`RingBuf::pop_front`).
#[verifier::external_body]
fn ring_pop_front(ring: &mut RingBuf<Option<u64>>) -> (res: Option<u64>)
    requires
        ring_slots(*old(ring)).len() > 0,
    ensures
        res == ring_slots(*old(ring))[0],
        ring_slots(*final(ring)) == ring_slots(*old(ring)).drop_first().push(None),
{
    ring.pop_front()
}

/// Overwrite the back element (`RingBuf::back_mut`).
#[verifier::external_body]
fn ring_set_back(ring: &mut RingBuf<Option<u64>>, elem: Option<u64>)
    requires
        ring_slots(*old(ring)).len() > 0,
    ensures
        ring_slots(*final(ring)) == ring_slots(*old(ring)).update(
            ring_slots(*old(ring)).len() - 1,
            elem,
        ),
{
    *ring.back_mut() = elem
}

/// Take the back element out, leaving `None` in its place
/// (`RingBuf::back_mut` and `Option::take`).
#[verifier::external_body]
fn ring_take_back(ring: &mut RingBuf<Option<u64>>) -> (res: Option<u64>)
    requires
        ring_slots(*old(ring)).len() > 0,
    ensures
        res == ring_slots(*old(ring)).last(),
        ring_slots(*final(ring)) == ring_slots(*old(ring)).update(
            ring_slots(*old(ring)).len() - 1,
            None,
        ),
{
    ring.back_mut().take()
}

/// A reversible operation on data of type `D`, producing a `T`.
///
/// An implementation describes what executing and undoing do by the
/// predicates `exec_post` and `undo_post`, over the operation and the
/// data before and after the call and the result. Where it does not,
/// nothing is known of them.
pub trait Op<D, T>: Sized {
    /// Whether the operation can be executed or undone on `data`.
    open spec fn applicable(data: D) -> bool {
        true
    }

    /// What executing `pre` on `data` does: it becomes `post`, the data
    /// becomes `new_data` and `result` is returned.
    open spec fn exec_post(pre: Self, data: D, post: Self, new_data: D, result: T) -> bool {
        true
    }

    /// What undoing `pre` on `data` does.
    open spec fn undo_post(pre: Self, data: D, post: Self, new_data: D, result: T) -> bool {
        true
    }

    /// Execute the operation.
    fn exec(&mut self, data: &mut D) -> (result: T)
        requires
            Self::applicable(*old(data)),
        ensures
            Self::exec_post(*old(self), *old(data), *final(self), *final(data), result),
    ;

    /// Undo the operation.
    fn undo(&mut self, data: &mut D) -> (result: T)
        requires
            Self::applicable(*old(data)),
        ensures
            Self::undo_post(*old(self), *old(data), *final(self), *final(data), result),
    ;
}

/// The slots after `op` was executed on a record with slots `slots`: it
/// becomes the front, and the back is cleared, so that nothing undone
/// earlier can be redone anymore.
pub open spec fn after_exec<O>(slots: Seq<Option<O>>, op: O) -> Seq<Option<O>> {
    (seq![Some(op)] + slots.drop_last()).update(slots.len() - 1, None)
}

/// The slots after undoing the front operation, which became `op`: it
/// moves to the back.
pub open spec fn after_undo<O>(slots: Seq<Option<O>>, op: O) -> Seq<Option<O>> {
    slots.drop_first().push(Some(op))
}

/// The slots after redoing the back operation, which became `op`: it
/// moves to the front.
pub open spec fn after_redo<O>(slots: Seq<Option<O>>, op: O) -> Seq<Option<O>> {
    seq![Some(op)] + slots.drop_last()
}

/// A bounded record of executed operations of type `O` on data of type
/// `D`, which can be undone and redone.
pub struct Ops<O, D, T> {
    /// The slots in the order of the record, front first, each naming an
    /// element of `ops`.
    ring: RingBuf<Option<u64>>,
    /// The operations, or `None` for an empty slot.
    ops: Vec<Option<O>>,
    _phantom: PhantomData<(D, T)>,
}

impl<O, D, T> View for Ops<O, D, T> {
    type V = Seq<Option<O>>;

    /// The slots of the record, front first: the most recently executed
    /// operation first, the next one to redo last.
    closed spec fn view(&self) -> Seq<Option<O>> {
        let slots = ring_slots(self.ring);
        Seq::new(slots.len(), |i: int| self.ops@[slots[i].unwrap() as int])
    }
}

impl<O, D, T> Ops<O, D, T> {
    /// The internal consistency of the record: the ring names every
    /// element of `ops` exactly once, and at least one slot is empty.
    pub closed spec fn wf(&self) -> bool {
        let slots = ring_slots(self.ring);
        &&& slots.len() == self.ops@.len()
        &&& slots.len() > 0
        &&& forall|i: int| 0 <= i < slots.len() ==> #[trigger] slots[i] is Some
            && slots[i].unwrap() < slots.len()
        &&& forall|i: int, j: int|
            0 <= i < slots.len() && 0 <= j < slots.len() && i != j ==> #[trigger] slots[i]
                != #[trigger] slots[j]
        &&& exists|i: int| 0 <= i < self@.len() && #[trigger] self@[i] is None
    }

    /// Create a record that allows undoing up to `max_count` operations.
    pub fn new(max_count: usize) -> (res: Self)
        requires
            max_count < usize::MAX,
        ensures
            res.wf(),
            res@ == Seq::new((max_count + 1) as nat, |i: int| None::<O>),
    {
        let len = max_count + 1;
        let mut tickets: Vec<Option<u64>> = Vec::new();
        let mut ops: Vec<Option<O>> = Vec::new();
        let mut i: usize = 0;
        while i < len
            invariant
                i <= len,
                tickets@.len() == i,
                ops@.len() == i,
                forall|j: int| 0 <= j < i ==> #[trigger] tickets@[j] == Some(j as u64),
                forall|j: int| 0 <= j < i ==> #[trigger] ops@[j] is None,
            decreases len - i,
        {
            tickets.push(Some(i as u64));
            ops.push(None);
            i += 1;
        }
        let ring = ring_from_vec(tickets);
        let res = Ops { ring, ops, _phantom: PhantomData };
        proof {
            let slots = ring_slots(res.ring);
            assert(slots == tickets@);
            assert forall|i: int, j: int|
                0 <= i < slots.len() && 0 <= j < slots.len() && i != j implies #[trigger] slots[i]
                    != #[trigger] slots[j] by {
                assert(slots[i] == Some(i as u64));
                assert(slots[j] == Some(j as u64));
            }
            assert(res@ =~= Seq::new(len as nat, |i: int| None::<O>)) by {
                assert forall|k: int| 0 <= k < len implies res@[k] == None::<O> by {
                    assert(slots[k] == Some(k as u64));
                }
            }
            assert(res@[0] is None);
        }
        res
    }

    /// Execute `op` on `data` and record it as the most recent
    /// operation. What could still be redone is dropped, and so is the
    /// oldest operation if the record is full.
    pub fn exec(&mut self, op: O, data: &mut D) -> (result: T)
        where
            O: Op<D, T>,
        requires
            old(self).wf(),
            O::applicable(*old(data)),
        ensures
            final(self).wf(),
            exists|done: O|
                #[trigger] O::exec_post(op, *old(data), done, *final(data), result)
                    && final(self)@ == after_exec(old(self)@, done),
    {
        let mut op = op;
        let ghost pre_op = op;
        let ghost slots = ring_slots(self.ring);
        let ghost view = self@;
        let result = op.exec(data);
        let back = ring_back(&self.ring);
        let t = back.unwrap();
        assert(slots[slots.len() - 1] is Some && t < self.ops.len());
        self.ops.set(t as usize, Some(op));
        ring_push_front(&mut self.ring, back);
        let cleared = ring_back(&self.ring).unwrap();
        assert(cleared < self.ops.len()) by {
            let slots1 = ring_slots(self.ring);
            if slots.len() > 1 {
                assert(slots1[slots1.len() - 1] == slots[slots.len() - 2]);
            }
        }
        self.ops.set(cleared as usize, None);
        proof {
            let n = slots.len();
            let slots2 = ring_slots(self.ring);
            assert(slots2 == seq![back] + slots.drop_last());
            assert forall|i: int| 0 <= i < slots2.len() implies #[trigger] slots2[i] is Some
                && slots2[i].unwrap() < slots2.len() by {
                if i > 0 {
                    assert(slots2[i] == slots[i - 1]);
                }
            }
            assert forall|i: int, j: int|
                0 <= i < slots2.len() && 0 <= j < slots2.len() && i != j implies #[trigger] slots2[i]
                    != #[trigger] slots2[j] by {
                let a = if i == 0 { n - 1 } else { i - 1 };
                let b = if j == 0 { n - 1 } else { j - 1 };
                assert(slots2[i] == slots[a]);
                assert(slots2[j] == slots[b]);
            }
            let expected = after_exec(view, op);
            assert(self@ =~= expected) by {
                assert forall|i: int| 0 <= i < n implies self@[i] == expected[i] by {
                    assert(self@[i] == self.ops@[slots2[i].unwrap() as int]);
                    assert(slots2[n - 1] == Some(cleared));
                    if i == n - 1 {
                        assert(self.ops@[cleared as int] is None);
                    } else if i == 0 {
                        assert(slots[n - 1] != slots[n - 2]);
                        assert(slots2[0] == back);
                        assert(self.ops@[t as int] == Some(op));
                    } else {
                        assert(slots2[i] == slots[i - 1]);
                        assert(slots[i - 1] != slots[n - 1]);
                        assert(slots[i - 1] != slots[n - 2]);
                        assert(self.ops@[slots[i - 1].unwrap() as int] == old(self).ops@[slots[i - 1].unwrap() as int]);
                        assert(view[i - 1] == old(self).ops@[slots[i - 1].unwrap() as int]);
                    }
                }
            }
            assert(self@[n - 1] is None);
            assert(O::exec_post(pre_op, *old(data), op, *data, result));
        }
        result
    }

    /// Undo the most recent operation on `data`, returning its result,
    /// or `None` if there is nothing to undo. The operation moves to the
    /// back, from where it can be redone.
    pub fn undo(&mut self, data: &mut D) -> (res: Option<T>)
        where
            O: Op<D, T>,
        requires
            old(self).wf(),
            O::applicable(*old(data)),
        ensures
            final(self).wf(),
            old(self)@[0] is None ==> res is None && final(self)@ == old(self)@ && *final(data)
                == *old(data),
            old(self)@[0] matches Some(op) ==> res matches Some(r) && final(self)@.last() matches Some(
                undone,
            ) && O::undo_post(op, *old(data), undone, *final(data), r) && final(self)@ == after_undo(
                old(self)@,
                undone,
            ),
    {
        let ghost slots = ring_slots(self.ring);
        let ghost view = self@;
        let front = ring_front(&self.ring);
        let f = front.unwrap();
        assert(slots[0] is Some && f < self.ops.len());
        let fi = f as usize;
        let slot = self.ops[fi].take();
        match slot {
            None => {
                proof {
                    assert(self.ops@ =~= old(self).ops@);
                }
                None
            },
            Some(op) => {
                let mut op = op;
                let result = op.undo(data);
                self.ops.set(fi, Some(op));
                let t = ring_pop_front(&mut self.ring);
                ring_set_back(&mut self.ring, t);
                proof {
                    let n = slots.len();
                    let slots2 = ring_slots(self.ring);
                    assert(slots2 == slots.drop_first().push(front));
                    assert forall|i: int| 0 <= i < slots2.len() implies #[trigger] slots2[i] is Some
                        && slots2[i].unwrap() < slots2.len() by {
                        if i < n - 1 {
                            assert(slots2[i] == slots[i + 1]);
                        }
                    }
                    assert forall|i: int, j: int|
                        0 <= i < slots2.len() && 0 <= j < slots2.len() && i != j implies #[trigger] slots2[i]
                            != #[trigger] slots2[j] by {
                        let a = if i == n - 1 { 0 } else { i + 1 };
                        let b = if j == n - 1 { 0 } else { j + 1 };
                        assert(slots2[i] == slots[a]);
                        assert(slots2[j] == slots[b]);
                    }
                    let expected = after_undo(view, op);
                    assert(self@ =~= expected) by {
                        assert forall|i: int| 0 <= i < n implies self@[i] == expected[i] by {
                            assert(self@[i] == self.ops@[slots2[i].unwrap() as int]);
                            if i < n - 1 {
                                assert(slots2[i] == slots[i + 1]);
                                assert(slots[i + 1] != slots[0]);
                                assert(view[i + 1] == old(self).ops@[slots[i + 1].unwrap() as int]);
                            }
                        }
                    }
                    let k = choose|k: int| 0 <= k < view.len() && #[trigger] view[k] is None;
                    assert(k > 0);
                    assert(self@[k - 1] is None);
                }
                Some(result)
            },
        }
    }

    /// Redo the most recently undone operation on `data`, returning its
    /// result, or `None` if there is nothing to redo. The operation
    /// becomes the most recent one again.
    pub fn redo(&mut self, data: &mut D) -> (res: Option<T>)
        where
            O: Op<D, T>,
        requires
            old(self).wf(),
            O::applicable(*old(data)),
        ensures
            final(self).wf(),
            old(self)@.last() is None ==> res is None && final(self)@ == old(self)@ && *final(data)
                == *old(data),
            old(self)@.last() matches Some(op) ==> res matches Some(r) && final(self)@[0] matches Some(
                redone,
            ) && O::exec_post(op, *old(data), redone, *final(data), r) && final(self)@ == after_redo(
                old(self)@,
                redone,
            ),
    {
        let ghost slots = ring_slots(self.ring);
        let ghost view = self@;
        let back = ring_back(&self.ring);
        let b = back.unwrap();
        assert(slots[slots.len() - 1] is Some && b < self.ops.len());
        let bi = b as usize;
        let slot = self.ops[bi].take();
        match slot {
            None => {
                proof {
                    assert(self.ops@ =~= old(self).ops@);
                }
                None
            },
            Some(op) => {
                let mut op = op;
                let result = op.exec(data);
                self.ops.set(bi, Some(op));
                let t = ring_take_back(&mut self.ring);
                ring_push_front(&mut self.ring, t);
                proof {
                    let n = slots.len();
                    let slots2 = ring_slots(self.ring);
                    assert(slots2 =~= seq![back] + slots.drop_last());
                    assert forall|i: int| 0 <= i < slots2.len() implies #[trigger] slots2[i] is Some
                        && slots2[i].unwrap() < slots2.len() by {
                        if i > 0 {
                            assert(slots2[i] == slots[i - 1]);
                        }
                    }
                    assert forall|i: int, j: int|
                        0 <= i < slots2.len() && 0 <= j < slots2.len() && i != j implies #[trigger] slots2[i]
                            != #[trigger] slots2[j] by {
                        let a = if i == 0 { n - 1 } else { i - 1 };
                        let c = if j == 0 { n - 1 } else { j - 1 };
                        assert(slots2[i] == slots[a]);
                        assert(slots2[j] == slots[c]);
                    }
                    let expected = after_redo(view, op);
                    assert(self@ =~= expected) by {
                        assert forall|i: int| 0 <= i < n implies self@[i] == expected[i] by {
                            assert(self@[i] == self.ops@[slots2[i].unwrap() as int]);
                            if i > 0 {
                                assert(slots2[i] == slots[i - 1]);
                                assert(slots[i - 1] != slots[n - 1]);
                                assert(view[i - 1] == old(self).ops@[slots[i - 1].unwrap() as int]);
                            }
                        }
                    }
                    let k = choose|k: int| 0 <= k < view.len() && #[trigger] view[k] is None;
                    assert(k < n - 1);
                    assert(self@[k + 1] is None);
                }
                Some(result)
            },
        }
    }

    /// At least one slot of a record is always empty, so that at most
    /// `max_count` operations of a record made by `new(max_count)` can be
    /// undone in a row.
    pub proof fn lemma_empty_slot(&self)
        requires
            self.wf(),
        ensures
            exists|i: int| 0 <= i < self@.len() && #[trigger] self@[i] is None,
    {
    }
}

/// Executing an operation leaves nothing to redo.
pub proof fn lemma_exec_clears_redo<O>(slots: Seq<Option<O>>, op: O)
    requires
        slots.len() > 0,
    ensures
        after_exec(slots, op).len() == slots.len(),
        after_exec(slots, op).last() is None,
        slots.len() > 1 ==> after_exec(slots, op)[0] == Some(op),
{
}

/// Redoing an operation right after undoing it brings every slot back
/// but the front, which holds the redone operation.
pub proof fn lemma_undo_redo<O>(slots: Seq<Option<O>>, undone: O, redone: O)
    requires
        slots.len() > 0,
    ensures
        after_redo(after_undo(slots, undone), redone) == slots.update(0, Some(redone)),
{
    assert(after_redo(after_undo(slots, undone), redone) =~= slots.update(0, Some(redone)));
}

/// Undoing an operation right after redoing it brings every slot back
/// but the back, which holds the undone operation.
pub proof fn lemma_redo_undo<O>(slots: Seq<Option<O>>, redone: O, undone: O)
    requires
        slots.len() > 0,
    ensures
        after_undo(after_redo(slots, redone), undone) == slots.update(slots.len() - 1, Some(undone)),
{
    assert(after_undo(after_redo(slots, redone), undone) =~= slots.update(slots.len() - 1, Some(undone)));
}

} // verus!
