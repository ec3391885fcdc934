//! The decisions of the top-level terminal widget: which keys quit the
//! program or save the state, and what the input/output area shows
//! after saving.

use vstd::prelude::*;

use crate::in_out::InOut;
use crate::in_out::Key;

verus! {

/// What the top-level widget does with a key.
#[derive(Clone, Copy, Debug, PartialEq, Eq, Structural)]
pub enum KeyAction {
    /// Quit the program.
    Quit,
    /// Save the state.
    Save,
    /// Hand the key on to the other widgets.
    Forward,
}

/// Decide what to do with a key: `q` quits, `w` saves, and any other key
/// goes on to the other widgets.
pub fn handle_key(key: &Key) -> (res: KeyAction)
    ensures
        *key == Key::Char('q') ==> res == KeyAction::Quit,
        *key == Key::Char('w') ==> res == KeyAction::Save,
        *key != Key::Char('q') && *key != Key::Char('w') ==> res == KeyAction::Forward,
{
    match key {
        Key::Char('q') => KeyAction::Quit,
        Key::Char('w') => KeyAction::Save,
        _ => KeyAction::Forward,
    }
}

/// What the input/output area shows after saving: that the state was
/// saved, or the error that saving ran into.
pub fn save_outcome(result: Result<(), String>) -> (res: InOut)
    ensures
        result is Ok ==> res == InOut::Saved,
        result matches Err(e) ==> res == InOut::Error(e),
{
    match result {
        Ok(()) => InOut::Saved,
        Err(e) => InOut::Error(e),
    }
}

/// Which widgets are to be drawn again.
#[derive(Debug)]
pub enum ToRender {
    /// No widget.
    Nothing,
    /// The widgets with these identifiers.
    Ids(Vec<u64>),
    /// All of them.
    All,
}

/// Whether `ids` holds no identifier twice.
pub open spec fn no_duplicates(ids: Seq<u64>) -> bool {
    forall|i: int, j: int| 0 <= i < j < ids.len() ==> ids[i] != ids[j]
}

/// Check whether `ids` holds `id`.
fn contains_id(ids: &Vec<u64>, id: u64) -> (res: bool)
    ensures
        res == ids@.contains(id),
{
    let mut i: usize = 0;
    while i < ids.len()
        invariant
            i <= ids@.len(),
            forall|j: int| 0 <= j < i ==> ids@[j] != id,
        decreases ids@.len() - i,
    {
        if ids[i] == id {
            return true;
        }
        i += 1;
    }
    false
}

impl ToRender {
    /// Add the widgets `ids` to those to be drawn again: where none were
    /// to be, just those; where all are to be, still all.
    pub fn merge_with(self, ids: Vec<u64>) -> (res: ToRender)
        requires
            self matches ToRender::Ids(a) ==> no_duplicates(a@),
            no_duplicates(ids@),
        ensures
            self is Nothing ==> res == ToRender::Ids(ids),
            self is All ==> res is All,
            self matches ToRender::Ids(a) ==> (res matches ToRender::Ids(b) && b@.to_set() == a@.to_set().union(
                ids@.to_set(),
            ) && no_duplicates(b@) && b@.take(a@.len() as int) == a@),
    {
        match self {
            ToRender::Nothing => ToRender::Ids(ids),
            ToRender::All => ToRender::All,
            ToRender::Ids(a) => {
                let ghost a0 = a@;
                let mut merged = a;
                let mut i: usize = 0;
                while i < ids.len()
                    invariant
                        i <= ids@.len(),
                        no_duplicates(merged@),
                        merged@.take(a0.len() as int) == a0,
                        a0.len() <= merged@.len(),
                        merged@.to_set() == a0.to_set().union(ids@.take(i as int).to_set()),
                    decreases ids@.len() - i,
                {
                    let id = ids[i];
                    let present = contains_id(&merged, id);
                    proof {
                        assert(ids@.take(i + 1) =~= ids@.take(i as int).push(id));
                        ids@.take(i as int).lemma_push_to_set_commute(id);
                    }
                    if !present {
                        let ghost before = merged@;
                        merged.push(id);
                        proof {
                            assert(merged@.take(a0.len() as int) =~= before.take(a0.len() as int));
                            before.lemma_push_to_set_commute(id);
                            assert forall|x: int, y: int| 0 <= x < y < merged@.len() implies merged@[x] != merged@[y] by {
                                if y == before.len() {
                                    assert(before.contains(before[x]));
                                }
                            }
                        }
                    }
                    proof {
                        assert(merged@.to_set() =~= a0.to_set().union(ids@.take(i + 1).to_set()));
                    }
                    i += 1;
                }
                proof {
                    assert(ids@.take(ids@.len() as int) =~= ids@);
                }
                ToRender::Ids(merged)
            },
        }
    }
}

} // verus!
