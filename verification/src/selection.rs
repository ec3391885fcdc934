//! Advancing a selection through a cyclic sequence of widgets, keeping
//! track of whether all of them have been visited once.

use vstd::prelude::*;

verus! {

/// The states a selection can be in.
#[derive(Clone, Copy, Debug, PartialEq, Eq, Structural)]
pub enum Selection {
    /// A selection started from a widget, of which only its identifier
    /// is known, not its index.
    Start(u64),
    /// The index of the widget where the selection started and the
    /// current index, in that order.
    Normalized(usize, usize),
    /// Like `Normalized`, after all widgets have been cycled through at
    /// least once.
    Cycled(usize, usize),
}

/// How far a selection has advanced from `first` to `current` among
/// `count` widgets.
pub open spec fn advanced_by(first: int, current: int, count: int) -> int {
    if current >= first {
        current - first
    } else {
        count - first + current
    }
}

/// Whether advancing from `first` over `current` by `advancements`
/// among `count` widgets can be computed without overflow.
pub open spec fn advance_ok(first: int, current: int, count: int, advancements: int) -> bool {
    &&& count > 0
    &&& (current < first ==> first <= count)
    &&& advanced_by(first, current, count) + advancements <= usize::MAX
    &&& current + advancements <= usize::MAX
}

/// The selection state after advancing from `first` over `current` by
/// `advancements` among `count` widgets.
pub open spec fn advance_spec(first: int, current: int, count: int, advancements: int) -> (Selection, int) {
    let new = (current + advancements) % count;
    if (advanced_by(first, current, count) + advancements) / count >= 1 {
        (Selection::Cycled(first as usize, new as usize), new)
    } else {
        (Selection::Normalized(first as usize, new as usize), new)
    }
}

/// The position of the first occurrence of `id` in `ids`.
pub open spec fn first_position(ids: Seq<u64>, id: u64) -> int {
    choose|i: int| 0 <= i < ids.len() && ids[i] == id && forall|j: int| 0 <= j < i ==> ids[j] != id
}

/// Whether `ids` holds `id`.
pub open spec fn holds_id(ids: Seq<u64>, id: u64) -> bool {
    exists|i: int| 0 <= i < ids.len() && ids[i] == id
}

/// Whether normalizing `sel` over `ids` by `advancements` neither fails
/// to find the start widget nor overflows.
pub open spec fn normalize_ok(sel: Selection, ids: Seq<u64>, advancements: int) -> bool {
    match sel {
        Selection::Start(id) => holds_id(ids, id) && first_position(ids, id) + advancements <= usize::MAX,
        Selection::Normalized(first, current) => advance_ok(
            first as int,
            current as int,
            ids.len() as int,
            advancements,
        ),
        Selection::Cycled(_, current) => ids.len() > 0 && current + advancements <= usize::MAX,
    }
}

/// The selection after a cycle is reset: it starts over at the current
/// index.
pub open spec fn cycle_reset(sel: Selection) -> Selection {
    match sel {
        Selection::Start(id) => Selection::Start(id),
        Selection::Normalized(_, current) => Selection::Normalized(current, current),
        Selection::Cycled(_, current) => Selection::Normalized(current, current),
    }
}

/// The selection state and current index after normalizing `sel` over
/// `ids` by `advancements`.
pub open spec fn normalize_spec(sel: Selection, ids: Seq<u64>, advancements: int) -> (Selection, int) {
    match sel {
        Selection::Start(id) => {
            let first = first_position(ids, id);
            advance_spec(first, first, ids.len() as int, advancements)
        },
        Selection::Normalized(first, current) => advance_spec(
            first as int,
            current as int,
            ids.len() as int,
            advancements,
        ),
        Selection::Cycled(first, current) => {
            let new = (current + advancements) % (ids.len() as int);
            (Selection::Cycled(first, new as usize), new)
        },
    }
}

impl Selection {
    /// Advance a selection.
    pub fn advance(first: usize, current: usize, count: usize, advancements: usize) -> (res: (
        Selection,
        usize,
    ))
        requires
            advance_ok(first as int, current as int, count as int, advancements as int),
        ensures
            (res.0, res.1 as int) == advance_spec(first as int, current as int, count as int, advancements as int),
    {
        let advanced = if current >= first {
            current - first
        } else {
            count - first + current
        };
        let cycles = (advanced + advancements) / count;
        let new = (current + advancements) % count;
        if cycles >= 1 {
            (Selection::Cycled(first, new), new)
        } else {
            (Selection::Normalized(first, new), new)
        }
    }

    /// Normalize the selection over the identifiers of the widgets and
    /// return the current index.
    pub fn normalize(&mut self, ids: &[u64], advancements: usize) -> (res: usize)
        requires
            normalize_ok(*old(self), ids@, advancements as int),
        ensures
            (*final(self), res as int) == normalize_spec(*old(self), ids@, advancements as int),
            res < ids@.len(),
    {
        let count = ids.len();
        let (state, new) = match *self {
            Selection::Start(id) => {
                let first = position(ids, id);
                Self::advance(first, first, count, advancements)
            },
            Selection::Normalized(first, current) => Self::advance(first, current, count, advancements),
            Selection::Cycled(first, current) => {
                let new = (current + advancements) % count;
                (Selection::Cycled(first, new), new)
            },
        };
        *self = state;
        new
    }

    /// Check whether the selection has cycled through all widgets once.
    pub fn has_cycled(&self) -> (res: bool)
        ensures
            res == (*self is Cycled),
    {
        match *self {
            Selection::Start(_) | Selection::Normalized(_, _) => false,
            Selection::Cycled(_, _) => true,
        }
    }

    /// Reset the cycle state of the selection: it starts over at the
    /// current index.
    pub fn reset_cycled(&mut self)
        ensures
            *final(self) == cycle_reset(*old(self)),
            *old(self) matches Selection::Normalized(_, c) ==> *final(self) == Selection::Normalized(c, c),
            *old(self) matches Selection::Cycled(_, c) ==> *final(self) == Selection::Normalized(c, c),
            *old(self) is Start ==> *final(self) == *old(self),
    {
        *self = match *self {
            Selection::Start(id) => Selection::Start(id),
            Selection::Normalized(_, current) | Selection::Cycled(_, current) => Selection::Normalized(
                current,
                current,
            ),
        }
    }
}

/// The index of the first occurrence of `id` in `ids`.
fn position(ids: &[u64], id: u64) -> (res: usize)
    requires
        holds_id(ids@, id),
    ensures
        res == first_position(ids@, id),
        res < ids@.len(),
{
    let mut i: usize = 0;
    while i < ids.len()
        invariant
            holds_id(ids@, id),
            i <= ids@.len(),
            forall|j: int| 0 <= j < i ==> ids@[j] != id,
        decreases ids@.len() - i,
    {
        if ids[i] == id {
            proof {
                let p = first_position(ids@, id);
                assert(0 <= p < ids@.len() && ids@[p] == id && forall|j: int| 0 <= j < p ==> ids@[j] != id);
                assert(p == i) by {
                    if p < i {
                    } else if p > i {
                        assert(ids@[i as int] == id);
                    }
                }
            }
            return i;
        }
        i += 1;
    }
    proof {
        let k = choose|k: int| 0 <= k < ids@.len() && ids@[k] == id;
    }
    0
}

/// Normalizing a selection that starts at a widget cycles exactly when it
/// advances by at least the number of widgets.
pub proof fn lemma_start_cycles(id: u64, ids: Seq<u64>, advancements: int)
    requires
        normalize_ok(Selection::Start(id), ids, advancements),
        advancements >= 0,
    ensures
        normalize_spec(Selection::Start(id), ids, advancements).0 is Cycled <==> advancements >= ids.len(),
        normalize_spec(Selection::Start(id), ids, advancements).1 == (first_position(ids, id) + advancements)
            % (ids.len() as int),
{
    let n = ids.len() as int;
    let p = first_position(ids, id);
    let w = choose|i: int| 0 <= i < ids.len() && ids[i] == id;
    assert(n > 0);
    assert(advanced_by(p, p, n) == 0);
    if advancements >= n {
        assert(advancements / n >= 1) by (nonlinear_arith)
            requires
                advancements >= n,
                n > 0,
        ;
    } else {
        assert(advancements / n == 0) by (nonlinear_arith)
            requires
                0 <= advancements < n,
        ;
    }
}

/// A selection that starts over at its current index `c` among `n`
/// widgets cycles exactly when it advances by at least `n`: fewer
/// advancements leave it at a widget not yet visited in this round.
pub proof fn lemma_restart_cycles(c: usize, ids: Seq<u64>, advancements: int)
    requires
        c < ids.len(),
        advancements >= 0,
        normalize_ok(Selection::Normalized(c, c), ids, advancements),
    ensures
        normalize_spec(Selection::Normalized(c, c), ids, advancements).0 is Cycled <==> advancements >= ids.len(),
        normalize_spec(Selection::Normalized(c, c), ids, advancements).1 == (c + advancements) % (ids.len() as int),
{
    let n = ids.len() as int;
    assert(advanced_by(c as int, c as int, n) == 0);
    if advancements >= n {
        assert(advancements / n >= 1) by (nonlinear_arith)
            requires
                advancements >= n,
                n > 0,
        ;
    } else {
        assert(advancements / n == 0) by (nonlinear_arith)
            requires
                0 <= advancements < n,
        ;
    }
}

/// After a reset, a selection that had started anywhere and advanced to
/// the widget `c`, cycled or not, starts over at `c`: advancing it by
/// fewer steps than there are widgets does not cycle, and by as many does.
pub proof fn lemma_reset_restarts(sel: Selection, c: usize, ids: Seq<u64>, advancements: int)
    requires
        match sel {
            Selection::Start(_) => false,
            Selection::Normalized(_, x) => x == c,
            Selection::Cycled(_, x) => x == c,
        },
        c < ids.len(),
        advancements >= 0,
        normalize_ok(Selection::Normalized(c, c), ids, advancements),
    ensures
        cycle_reset(sel) == Selection::Normalized(c, c),
        normalize_spec(cycle_reset(sel), ids, advancements).0 is Cycled <==> advancements >= ids.len(),
{
    lemma_restart_cycles(c, ids, advancements);
}

/// The state necessary to advance a selection among widgets.
#[derive(Debug, PartialEq, Eq, Structural)]
pub struct SelectionState {
    selection: Selection,
    advanced: usize,
}

impl SelectionState {
    /// The selection.
    pub closed spec fn selection(&self) -> Selection {
        self.selection
    }

    /// The number of advancements not yet normalized.
    pub closed spec fn advanced(&self) -> nat {
        self.advanced as nat
    }

    /// Create a selection state starting at the widget `current`.
    pub fn new(current: u64) -> (res: SelectionState)
        ensures
            res.selection() == Selection::Start(current),
            res.advanced() == 0,
    {
        SelectionState { selection: Selection::Start(current), advanced: 0 }
    }

    /// Advance the selection by one.
    pub fn advance(&mut self)
        requires
            old(self).advanced() < usize::MAX,
        ensures
            final(self).selection() == old(self).selection(),
            final(self).advanced() == old(self).advanced() + 1,
    {
        self.advanced = self.advanced + 1;
    }

    /// Check whether the selection got advanced.
    pub fn has_advanced(&self) -> (res: bool)
        ensures
            res == (self.advanced() > 0),
    {
        self.advanced > 0
    }

    /// Reset the cycle state of the selection.
    pub fn reset_cycled(&mut self)
        ensures
            final(self).advanced() == old(self).advanced(),
            final(self).selection() == cycle_reset(old(self).selection()),
            old(self).selection() matches Selection::Normalized(_, c) ==> final(self).selection()
                == Selection::Normalized(c, c),
            old(self).selection() matches Selection::Cycled(_, c) ==> final(self).selection()
                == Selection::Normalized(c, c),
            old(self).selection() is Start ==> final(self).selection() == old(self).selection(),
    {
        self.selection.reset_cycled()
    }

    /// Check whether the selection has cycled through all widgets once.
    pub fn has_cycled(&self) -> (res: bool)
        ensures
            res == (self.selection() is Cycled),
    {
        self.selection.has_cycled()
    }

    /// Normalize the selection over the identifiers of the widgets and
    /// return the current index.
    pub fn normalize(&mut self, ids: &[u64]) -> (res: usize)
        requires
            normalize_ok(old(self).selection(), ids@, old(self).advanced() as int),
        ensures
            (final(self).selection(), res as int) == normalize_spec(
                old(self).selection(),
                ids@,
                old(self).advanced() as int,
            ),
            final(self).advanced() == 0,
    {
        let current = self.selection.normalize(ids, self.advanced);
        self.advanced = 0;
        current
    }
}

} // verus!
