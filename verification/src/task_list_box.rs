//! The decisions of the list of tasks shown on a tab: which task is
//! selected, what key presses do to it and how searches and requests to
//! select a task proceed.
//!
//! The list does not change tasks itself. Its functions take the tasks it
//! shows, decide, and report in an action what is to be done.

use vstd::prelude::*;

use crate::selection::SelectionState;
use crate::tab_bar::sanitize_selection;
use crate::tab_bar::sanitized;
use crate::tab_bar::SearchState;
use crate::tags::Tag;
use crate::tasks::key_pos;
use crate::tasks::moved;
use crate::tasks::Target;
use crate::tasks::TaskOp;
use crate::ops::after_exec;
use crate::tasks::Task;
use crate::tasks::TaskEntries;
use crate::db::Item;
use crate::tasks::Tasks;
use crate::view::clauses;
use crate::view::matches_cnf;
use crate::view::query_result;
use crate::view::task_matches;
use crate::view::TagLit;

verus! {

/// What the list knows of a task it shows.
#[derive(Debug)]
pub struct TaskInfo {
    pub id: u64,
    pub summary: String,
    pub complete: bool,
}

/// Input the list waits for.
#[derive(Clone, Copy, Debug, PartialEq, Eq, Structural)]
pub enum ListState {
    /// The summary of a task to add.
    Add,
    /// The new summary of the task with the given identifier.
    Edit(u64),
}

/// What is to be done after the list handled an event.
#[derive(Debug)]
pub enum ListAction {
    /// Nothing.
    Nothing,
    /// The list is to be redrawn.
    Updated,
    /// The event is passed on to the parent.
    Unhandled,
    /// Toggle the completion of the task, then select it; the list is to
    /// be redrawn.
    Toggle(u64),
    /// Ask for input, starting with the text and the cursor at the byte
    /// index.
    StartInput(String, usize),
    /// Remove the task; the list is to be redrawn.
    Remove(u64),
    /// Move the first task after the second; the list is to be redrawn.
    MoveAfter(u64, u64),
    /// Move the first task before the second; the list is to be redrawn.
    MoveBefore(u64, u64),
    /// Add a task with the summary, taking the tags of the given task if
    /// any, then select it.
    AddTask(String, Option<u64>),
    /// Change the summary of the task, then select it; the list is to be
    /// redrawn.
    UpdateSummary(u64, String),
    /// The task was selected, which is to be reported to the parent; the
    /// flag tells whether the list is to be redrawn.
    Selected(bool),
    /// The task is not shown here; the request to select it goes back to
    /// the parent with the advanced selection state.
    Bounce(u64, SelectionState),
}

/// The identifiers of the tasks.
pub open spec fn ids_of(tasks: Seq<TaskInfo>) -> Seq<u64> {
    tasks.map_values(|t: TaskInfo| t.id)
}

/// The position of the first task with the identifier `id`, if any.
pub open spec fn position_of(tasks: Seq<TaskInfo>, id: u64) -> Option<int> {
    if exists|i: int| 0 <= i < tasks.len() && tasks[i].id == id {
        Some(choose|i: int| 0 <= i < tasks.len() && tasks[i].id == id && forall|j: int| 0 <= j < i ==> tasks[j].id != id)
    } else {
        None
    }
}

/// A character lowercased if it is an ASCII uppercase letter.
pub open spec fn ascii_lower(c: char) -> char {
    if 'A' <= c <= 'Z' {
        ((c as u8) + 32) as char
    } else {
        c
    }
}

/// Whether `needle` occurs in `hay` at position `at`.
pub open spec fn occurs_at(hay: Seq<char>, needle: Seq<char>, at: int) -> bool {
    0 <= at && at + needle.len() <= hay.len() && hay.subrange(at, at + needle.len()) == needle
}

/// A string with its ASCII uppercase letters lowercased.
pub open spec fn lowered(s: Seq<char>) -> Seq<char> {
    s.map_values(|c: char| ascii_lower(c))
}

/// Whether the summary, lowercased, contains `needle`.
pub open spec fn matches_search(summary: Seq<char>, needle: Seq<char>) -> bool {
    exists|at: int| #[trigger] occurs_at(lowered(summary), needle, at)
}

/// The first position from `start` on of a task matching `needle`.
pub open spec fn search_from(tasks: Seq<TaskInfo>, needle: Seq<char>, start: int) -> Option<int> {
    if exists|i: int| start <= i < tasks.len() && matches_search(tasks[i].summary@, needle) {
        Some(
            choose|i: int|
                start <= i < tasks.len() && matches_search(tasks[i].summary@, needle) && forall|j: int|
                    start <= j < i ==> !matches_search(tasks[j].summary@, needle),
        )
    } else {
        None
    }
}

/// The last position before `end` of a task matching `needle`.
pub open spec fn search_before(tasks: Seq<TaskInfo>, needle: Seq<char>, end: int) -> Option<int> {
    if exists|i: int| 0 <= i < end && i < tasks.len() && matches_search(tasks[i].summary@, needle) {
        Some(
            choose|i: int|
                0 <= i < end && i < tasks.len() && matches_search(tasks[i].summary@, needle) && forall|j: int|
                    i < j < end && j < tasks.len() ==> !matches_search(tasks[j].summary@, needle),
        )
    } else {
        None
    }
}

/// Where a search for `needle` on `tasks` in the state `state` finds a
/// task, with `selected` the selected task: forward from the selected
/// one, the first one or the one after the last found; in reverse from
/// the selected one, the last one or the one before the last found.
pub open spec fn search_result(
    tasks: Seq<TaskInfo>,
    needle: Seq<char>,
    state: SearchState,
    selected: int,
    reverse: bool,
) -> Option<int> {
    if reverse {
        let end = match state {
            SearchState::Current => selected + 1,
            SearchState::First => tasks.len() as int,
            SearchState::Task(i) => i as int,
        };
        search_before(tasks, needle, end)
    } else {
        let start = match state {
            SearchState::Current => selected,
            SearchState::First => 0,
            SearchState::Task(i) => i + 1,
        };
        search_from(tasks, needle, start)
    }
}

/// Of the matching tasks from `start` up to a matching one at `k`, there
/// is a first.
proof fn lemma_first_match_exists(tasks: Seq<TaskInfo>, needle: Seq<char>, start: int, k: int)
    requires
        start <= k < tasks.len(),
        matches_search(tasks[k].summary@, needle),
    ensures
        exists|i: int|
            start <= i <= k && matches_search(tasks[i].summary@, needle) && forall|j: int|
                start <= j < i ==> !matches_search(tasks[j].summary@, needle),
    decreases k - start,
{
    if exists|j: int| start <= j < k && matches_search(tasks[j].summary@, needle) {
        let j = choose|j: int| start <= j < k && matches_search(tasks[j].summary@, needle);
        lemma_first_match_exists(tasks, needle, start, j);
    } else {
        assert(forall|j: int| start <= j < k ==> !matches_search(tasks[j].summary@, needle));
    }
}

/// Of the matching tasks from a matching one at `k` up to before `end`,
/// there is a last.
proof fn lemma_last_match_exists(tasks: Seq<TaskInfo>, needle: Seq<char>, end: int, k: int)
    requires
        0 <= k < end,
        k < tasks.len(),
        matches_search(tasks[k].summary@, needle),
    ensures
        exists|i: int|
            k <= i < end && i < tasks.len() && matches_search(tasks[i].summary@, needle) && forall|j: int|
                i < j < end && j < tasks.len() ==> !matches_search(tasks[j].summary@, needle),
    decreases end - k,
{
    if exists|j: int| k < j < end && j < tasks.len() && matches_search(tasks[j].summary@, needle) {
        let j = choose|j: int| k < j < end && j < tasks.len() && matches_search(tasks[j].summary@, needle);
        lemma_last_match_exists(tasks, needle, end, j);
    } else {
        assert(forall|j: int| k < j < end && j < tasks.len() ==> !matches_search(tasks[j].summary@, needle));
    }
}

/// A search that starts at the selected task `sel` finds, forward, the
/// first task at or after it whose lowercased summary contains the
/// text, and in reverse the last one at or before it; so where the
/// selected task matches, it is the one found. Without such a task the
/// search finds none.
pub proof fn lemma_search_from_selection(tasks: Seq<TaskInfo>, needle: Seq<char>, sel: int, reverse: bool)
    requires
        0 <= sel < tasks.len(),
    ensures
        !reverse ==> match search_result(tasks, needle, SearchState::Current, sel, reverse) {
            Some(i) => sel <= i < tasks.len() && matches_search(tasks[i].summary@, needle) && forall|j: int|
                sel <= j < i ==> !matches_search(tasks[j].summary@, needle),
            None => forall|j: int| sel <= j < tasks.len() ==> !matches_search(tasks[j].summary@, needle),
        },
        reverse ==> match search_result(tasks, needle, SearchState::Current, sel, reverse) {
            Some(i) => 0 <= i <= sel && matches_search(tasks[i].summary@, needle) && forall|j: int|
                i < j <= sel ==> !matches_search(tasks[j].summary@, needle),
            None => forall|j: int| 0 <= j <= sel ==> !matches_search(tasks[j].summary@, needle),
        },
        matches_search(tasks[sel].summary@, needle) ==> search_result(
            tasks,
            needle,
            SearchState::Current,
            sel,
            reverse,
        ) == Some(sel),
{
    let n = tasks.len() as int;
    if !reverse {
        if exists|k: int| sel <= k < n && matches_search(tasks[k].summary@, needle) {
            let k = choose|k: int| sel <= k < n && matches_search(tasks[k].summary@, needle);
            lemma_first_match_exists(tasks, needle, sel, k);
        }
    } else {
        if exists|k: int| 0 <= k < sel + 1 && k < n && matches_search(tasks[k].summary@, needle) {
            let k = choose|k: int| 0 <= k < sel + 1 && k < n && matches_search(tasks[k].summary@, needle);
            lemma_last_match_exists(tasks, needle, sel + 1, k);
        }
    }
    if matches_search(tasks[sel].summary@, needle) {
        if !reverse {
            lemma_first_match_exists(tasks, needle, sel, sel);
            let r = search_result(tasks, needle, SearchState::Current, sel, reverse);
            let i = r->0;
            assert(i == sel) by {
                if i > sel {
                    assert(matches_search(tasks[sel].summary@, needle));
                }
            }
        } else {
            lemma_last_match_exists(tasks, needle, sel + 1, sel);
            let r = search_result(tasks, needle, SearchState::Current, sel, reverse);
            let i = r->0;
            assert(i == sel) by {
                if i < sel {
                    assert(matches_search(tasks[sel].summary@, needle));
                }
            }
        }
    }
}

/// Lowercase a character if it is an ASCII uppercase letter.
pub(crate) fn to_ascii_lower(c: char) -> (res: char)
    ensures
        res == ascii_lower(c),
{
    if 'A' <= c && c <= 'Z' {
        ((c as u8) + 32) as char
    } else {
        c
    }
}

/// Whether the summary, lowercased, contains `needle`.
fn summary_matches(summary: &str, needle: &Vec<char>) -> (res: bool)
    ensures
        res == matches_search(summary@, needle@),
{
    let chars = crate::chars::chars_of(summary);
    let mut lower: Vec<char> = Vec::new();
    let mut i: usize = 0;
    while i < chars.len()
        invariant
            chars@ == summary@,
            i <= chars@.len(),
            lower@ == chars@.take(i as int).map_values(|c: char| ascii_lower(c)),
        decreases chars@.len() - i,
    {
        lower.push(to_ascii_lower(chars[i]));
        i += 1;
        assert(lower@ =~= chars@.take(i as int).map_values(|c: char| ascii_lower(c)));
    }
    assert(chars@.take(i as int) =~= chars@);
    let ghost hay = lower@;
    let hay_len = lower.len();
    if needle.len() > hay_len {
        proof {
            assert forall|at: int| !occurs_at(hay, needle@, at) by {}
        }
        return false;
    }
    let last = hay_len - needle.len();
    let mut at: usize = 0;
    while at <= last
        invariant
            hay == lower@,
            hay_len == hay.len(),
            hay == lowered(summary@),
            needle@.len() <= hay.len(),
            last == hay.len() - needle@.len(),
            forall|k: int| 0 <= k < at ==> !occurs_at(hay, needle@, k),
        decreases last + 1 - at,
    {
        let mut k: usize = 0;
        let mut same = true;
        while k < needle.len()
            invariant
                at <= last,
                hay_len == hay.len(),
                needle@.len() <= hay.len(),
                last == hay.len() - needle@.len(),
                hay == lower@,
                k <= needle@.len(),
                same == (forall|m: int| 0 <= m < k ==> hay[at + m] == needle@[m]),
            decreases needle@.len() - k,
        {
            assert(at + k < lower@.len());
            if lower[at + k] != needle[k] {
                same = false;
            }
            k += 1;
        }
        if same {
            proof {
                assert(hay.subrange(at as int, at + needle@.len()) =~= needle@);
                assert(occurs_at(hay, needle@, at as int));
            }
            return true;
        }
        assert(k == needle@.len());
        assert(needle@.len() > 0);
        proof {
            assert(!occurs_at(hay, needle@, at as int)) by {
                if occurs_at(hay, needle@, at as int) {
                    let m = choose|m: int| 0 <= m < needle@.len() && hay[at + m] != needle@[m];
                    assert(hay.subrange(at as int, at + needle@.len())[m] == hay[at + m]);
                }
            }
        }
        at += 1;
    }
    proof {
        assert forall|k: int| !occurs_at(hay, needle@, k) by {
            if 0 <= k < at {
            }
        }
    }
    false
}

/// Whether the action reports a selection, redrawing as `updated` says.
pub open spec fn selected_with(res: ListAction, updated: bool) -> bool {
    match res {
        ListAction::Selected(u) => u == updated,
        _ => false,
    }
}

/// Whether the action sends the request to select `id` back with a
/// selection state of the given selection and advancement.
pub open spec fn bounced(res: ListAction, id: u64, selection: crate::selection::Selection, advanced: nat) -> bool {
    match res {
        ListAction::Bounce(i, s) => i == id && s.selection() == selection && s.advanced() == advanced,
        _ => false,
    }
}

/// Whether the action asks for input starting with `text` and the
/// cursor at byte index `idx`.
pub open spec fn input_started(res: ListAction, text: Seq<char>, idx: int) -> bool {
    match res {
        ListAction::StartInput(s, i) => s@ == text && i == idx,
        _ => false,
    }
}

/// Whether the action adds a task with the summary `text`, taking the
/// tags of `from`.
pub open spec fn adds(res: ListAction, text: Seq<char>, from: Option<u64>) -> bool {
    match res {
        ListAction::AddTask(t, f) => t@ == text && f == from,
        _ => false,
    }
}

/// Whether the action changes the summary of `id` to `text`.
pub open spec fn updates(res: ListAction, id: u64, text: Seq<char>) -> bool {
    match res {
        ListAction::UpdateSummary(i, t) => i == id && t@ == text,
        _ => false,
    }
}

/// The position of the first task from `start` on whose summary,
/// lowercased, contains `needle`.
fn find_match(needle: &Vec<char>, tasks: &[TaskInfo], start: usize) -> (res: Option<usize>)
    requires
        tasks@.len() <= isize::MAX,
    ensures
        res matches Some(j) ==> j < tasks@.len() && search_from(tasks@, needle@, start as int) == Some(j as int),
        res is None ==> search_from(tasks@, needle@, start as int) is None,
        res matches Some(j) ==> start <= j && matches_search(tasks@[j as int].summary@, needle@) && forall|k: int|
            start <= k < j ==> !matches_search(tasks@[k].summary@, needle@),
        res is None ==> forall|k: int| start <= k < tasks@.len() ==> !matches_search(tasks@[k].summary@, needle@),
{
    let count = tasks.len();
    let mut i: usize = start;
    while i < count
        invariant
            count == tasks@.len(),
            start <= i,
            forall|j: int| start <= j < i && j < count ==> !matches_search(tasks@[j].summary@, needle@),
        decreases count - i,
    {
        if summary_matches(tasks[i].summary.as_str(), needle) {
            proof {
                assert(matches_search(tasks@[i as int].summary@, needle@));
                let p = search_from(tasks@, needle@, start as int);
                assert(p is Some);
                let q = p->0;
                assert(q == i) by {
                    if q > i {
                        assert(matches_search(tasks@[i as int].summary@, needle@));
                    }
                }
            }
            return Some(i);
        }
        i += 1;
    }
    None
}

/// Find the last task before position `end` whose summary contains
/// `needle`.
fn find_match_before(needle: &Vec<char>, tasks: &[TaskInfo], end: usize) -> (res: Option<usize>)
    requires
        tasks@.len() <= isize::MAX,
    ensures
        res matches Some(j) ==> j < tasks@.len() && search_before(tasks@, needle@, end as int) == Some(j as int),
        res is None ==> search_before(tasks@, needle@, end as int) is None,
        res matches Some(j) ==> j < end && matches_search(tasks@[j as int].summary@, needle@) && forall|k: int|
            j < k < end && k < tasks@.len() ==> !matches_search(tasks@[k].summary@, needle@),
        res is None ==> forall|k: int| 0 <= k < end && k < tasks@.len() ==> !matches_search(tasks@[k].summary@, needle@),
{
    let count = tasks.len();
    let mut i: usize = if end < count {
        end
    } else {
        count
    };
    while i > 0
        invariant
            count == tasks@.len(),
            i <= end,
            i <= count,
            forall|j: int| i <= j < end && j < count ==> !matches_search(tasks@[j].summary@, needle@),
        decreases i,
    {
        i -= 1;
        if summary_matches(tasks[i].summary.as_str(), needle) {
            proof {
                assert(matches_search(tasks@[i as int].summary@, needle@));
                let p = search_before(tasks@, needle@, end as int);
                assert(p is Some);
                let q = p->0;
                assert(q == i) by {
                    if q < i {
                        assert(matches_search(tasks@[i as int].summary@, needle@));
                    }
                }
            }
            return Some(i);
        }
    }
    None
}

/// The list of tasks on a tab.
#[derive(Debug)]
pub struct TaskListBox {
    id: u64,
    selection: isize,
    state: Option<ListState>,
}

impl TaskListBox {
    /// The identifier of the list.
    pub closed spec fn id(&self) -> u64 {
        self.id
    }

    /// The raw selection index, which may lie outside the tasks.
    pub closed spec fn raw_selection(&self) -> int {
        self.selection as int
    }

    /// The input the list waits for, if any.
    pub closed spec fn waits_for(&self) -> Option<ListState> {
        self.state
    }

    /// Create a list with the identifier `id`, selecting the first task.
    pub fn new(id: u64) -> (res: TaskListBox)
        ensures
            res.id() == id,
            res.raw_selection() == 0,
            res.waits_for() is None,
    {
        TaskListBox { id, selection: 0, state: None }
    }

    /// Retrieve the selection index, with a relative change, among
    /// `count` tasks.
    fn some_selection(&self, add: isize, count: usize) -> (res: usize)
        requires
            count <= isize::MAX,
            add == 1 || (add == -1 && sanitized(self.raw_selection(), count as int) >= 1),
        ensures
            res == sanitized(self.raw_selection(), count as int) + add,
    {
        let selection = sanitize_selection(self.selection, count);
        (selection as isize + add) as usize
    }

    /// Retrieve the index of the selected task among `count` tasks.
    pub fn selection(&self, count: usize) -> (res: usize)
        requires
            count <= isize::MAX,
        ensures
            res == sanitized(self.raw_selection(), count as int),
    {
        sanitize_selection(self.selection, count)
    }

    /// Change the selection among `count` tasks; returns whether the
    /// selected task changed.
    fn set_select(&mut self, selection: isize, count: usize) -> (res: bool)
        requires
            count <= isize::MAX,
        ensures
            final(self).raw_selection() == selection,
            final(self).id() == old(self).id(),
            final(self).waits_for() == old(self).waits_for(),
            res == (sanitized(selection as int, count as int) != sanitized(
                old(self).raw_selection(),
                count as int,
            )),
    {
        let old_selection = sanitize_selection(self.selection, count);
        let new_selection = sanitize_selection(selection, count);
        self.selection = selection;
        new_selection != old_selection
    }

    /// Move the selection by `change` among `count` tasks, starting from
    /// the sanitized selection; returns whether the selected task changed.
    fn select(&mut self, change: isize, count: usize) -> (res: bool)
        requires
            count <= isize::MAX,
            change == 1 || change == -1,
        ensures
            final(self).raw_selection() == sanitized(old(self).raw_selection(), count as int) + change,
            final(self).id() == old(self).id(),
            final(self).waits_for() == old(self).waits_for(),
            res == (sanitized(final(self).raw_selection(), count as int) != sanitized(
                old(self).raw_selection(),
                count as int,
            )),
    {
        let selection = sanitize_selection(self.selection, count);
        let new_selection = selection as isize + change;
        self.set_select(new_selection, count)
    }

    /// Handle a request to select the task `task_id` among `tasks`: it is
    /// selected if shown here, else the request goes back to the parent
    /// with the selection state advanced.
    pub fn handle_select_task(&mut self, task_id: u64, state: SelectionState, tasks: &[TaskInfo]) -> (res:
        ListAction)
        requires
            tasks@.len() <= isize::MAX,
            state.advanced() < usize::MAX,
        ensures
            final(self).id() == old(self).id(),
            final(self).waits_for() == old(self).waits_for(),
            match position_of(tasks@, task_id) {
                Some(i) => final(self).raw_selection() == i && selected_with(
                    res,
                    sanitized(i, tasks@.len() as int) != sanitized(old(self).raw_selection(), tasks@.len() as int),
                ),
                None => final(self).raw_selection() == old(self).raw_selection() && bounced(
                    res,
                    task_id,
                    state.selection(),
                    state.advanced() + 1,
                ),
            },
    {
        let count = tasks.len();
        let mut i: usize = 0;
        while i < count
            invariant
                count == tasks@.len(),
                count <= isize::MAX,
                *self == *old(self),
                i <= count,
                forall|j: int| 0 <= j < i ==> tasks@[j].id != task_id,
            decreases count - i,
        {
            if tasks[i].id == task_id {
                proof {
                    let p = position_of(tasks@, task_id);
                    assert(p is Some);
                    let q = p->0;
                    assert(q == i) by {
                        if q > i {
                            assert(tasks@[i as int].id == task_id);
                        }
                    }
                }
                let update = self.set_select(i as isize, count);
                return ListAction::Selected(update);
            }
            i += 1;
        }
        let mut state = state;
        state.advance();
        ListAction::Bounce(task_id, state)
    }

    /// Start selecting the task `task_id` among `tasks`.
    pub fn select_task_start(&mut self, task_id: u64, tasks: &[TaskInfo]) -> (res: ListAction)
        requires
            tasks@.len() <= isize::MAX,
        ensures
            final(self).id() == old(self).id(),
            final(self).waits_for() == old(self).waits_for(),
            match position_of(tasks@, task_id) {
                Some(i) => final(self).raw_selection() == i && res is Selected,
                None => final(self).raw_selection() == old(self).raw_selection() && bounced(
                    res,
                    task_id,
                    crate::selection::Selection::Start(old(self).id()),
                    1,
                ),
            },
    {
        let state = SelectionState::new(self.id);
        self.handle_select_task(task_id, state, tasks)
    }

    /// Search the tasks for the lowercase text `needle`, starting as
    /// `search_state` says, towards the end or, in reverse, towards the
    /// beginning. A matching task is selected and recorded in
    /// `search_state`; without one, the selection state is advanced and
    /// the search restarts at the first task of the next tab, or in
    /// reverse at its last task.
    pub fn handle_search_task(
        &mut self,
        needle: &Vec<char>,
        search_state: &mut SearchState,
        selection_state: &mut SelectionState,
        tasks: &[TaskInfo],
        reverse: bool,
    ) -> (res: ListAction)
        requires
            tasks@.len() <= isize::MAX,
            old(selection_state).advanced() < usize::MAX,
            *old(search_state) matches SearchState::Task(i) ==> i < usize::MAX,
        ensures
            final(self).id() == old(self).id(),
            final(self).waits_for() == old(self).waits_for(),
            match search_result(
                tasks@,
                needle@,
                *old(search_state),
                sanitized(old(self).raw_selection(), tasks@.len() as int),
                reverse,
            ) {
                Some(i) => *final(search_state) == SearchState::Task(i as usize) && final(self).raw_selection() == i
                    && *final(selection_state) == *old(selection_state) && res is Selected,
                None => *final(search_state) == SearchState::First && final(self).raw_selection()
                    == old(self).raw_selection() && final(selection_state).selection() == old(
                    selection_state,
                ).selection() && final(selection_state).advanced() == old(selection_state).advanced() + 1
                    && res is Nothing,
            },
            ({
                let n = tasks@.len() as int;
                let sel = sanitized(old(self).raw_selection(), n);
                *old(search_state) == SearchState::Current && !reverse ==> {
                    &&& (exists|j: int| sel <= j < n && matches_search(tasks@[j].summary@, needle@)) <==> (
                    *final(search_state) is Task)
                    &&& *final(search_state) matches SearchState::Task(i) ==> {
                        &&& sel <= i < n
                        &&& final(self).raw_selection() == i
                        &&& matches_search(tasks@[i as int].summary@, needle@)
                        &&& forall|j: int| sel <= j < i ==> !matches_search(tasks@[j].summary@, needle@)
                    }
                }
            }),
            ({
                let n = tasks@.len() as int;
                let sel = sanitized(old(self).raw_selection(), n);
                *old(search_state) == SearchState::Current && reverse ==> {
                    &&& (exists|j: int| 0 <= j <= sel && j < n && matches_search(tasks@[j].summary@, needle@)) <==> (
                    *final(search_state) is Task)
                    &&& *final(search_state) matches SearchState::Task(i) ==> {
                        &&& i <= sel && i < n
                        &&& final(self).raw_selection() == i
                        &&& matches_search(tasks@[i as int].summary@, needle@)
                        &&& forall|j: int| i < j <= sel && j < n ==> !matches_search(tasks@[j].summary@, needle@)
                    }
                }
            }),
            ({
                let n = tasks@.len() as int;
                *old(search_state) == SearchState::First && !reverse ==> {
                    &&& (exists|j: int| 0 <= j < n && matches_search(tasks@[j].summary@, needle@)) <==> (
                    *final(search_state) is Task)
                    &&& *final(search_state) matches SearchState::Task(i) ==> {
                        &&& i < n
                        &&& final(self).raw_selection() == i
                        &&& matches_search(tasks@[i as int].summary@, needle@)
                        &&& forall|j: int| 0 <= j < i ==> !matches_search(tasks@[j].summary@, needle@)
                    }
                }
            }),
            ({
                let n = tasks@.len() as int;
                *old(search_state) == SearchState::First && reverse ==> {
                    &&& (exists|j: int| 0 <= j < n && matches_search(tasks@[j].summary@, needle@)) <==> (
                    *final(search_state) is Task)
                    &&& *final(search_state) matches SearchState::Task(i) ==> {
                        &&& i < n
                        &&& final(self).raw_selection() == i
                        &&& matches_search(tasks@[i as int].summary@, needle@)
                        &&& forall|j: int| i < j < n ==> !matches_search(tasks@[j].summary@, needle@)
                    }
                }
            }),
            ({
                let n = tasks@.len() as int;
                !reverse ==> (*old(search_state) matches SearchState::Task(t) ==> {
                    &&& (exists|j: int| t < j < n && matches_search(tasks@[j].summary@, needle@)) <==> (
                    *final(search_state) is Task)
                    &&& *final(search_state) matches SearchState::Task(i) ==> {
                        &&& t < i < n
                        &&& final(self).raw_selection() == i
                        &&& matches_search(tasks@[i as int].summary@, needle@)
                        &&& forall|j: int| t < j < i ==> !matches_search(tasks@[j].summary@, needle@)
                    }
                })
            }),
            ({
                let n = tasks@.len() as int;
                reverse ==> (*old(search_state) matches SearchState::Task(t) ==> {
                    &&& (exists|j: int| 0 <= j < t && j < n && matches_search(tasks@[j].summary@, needle@)) <==> (
                    *final(search_state) is Task)
                    &&& *final(search_state) matches SearchState::Task(i) ==> {
                        &&& i < t && i < n
                        &&& final(self).raw_selection() == i
                        &&& matches_search(tasks@[i as int].summary@, needle@)
                        &&& forall|j: int| i < j < t && j < n ==> !matches_search(tasks@[j].summary@, needle@)
                    }
                })
            }),
            ({
                let n = tasks@.len() as int;
                let sel = sanitized(old(self).raw_selection(), n);
                *old(search_state) == SearchState::Current && 0 <= sel < n && matches_search(
                    tasks@[sel].summary@,
                    needle@,
                ) ==> *final(search_state) == SearchState::Task(sel as usize) && final(self).raw_selection() == sel
            }),
    {
        let count = tasks.len();
        let found = if reverse {
            let end = match *search_state {
                SearchState::Current => self.selection(count) + 1,
                SearchState::First => count,
                SearchState::Task(idx) => idx,
            };
            find_match_before(needle, tasks, end)
        } else {
            let start_idx = match *search_state {
                SearchState::Current => self.selection(count),
                SearchState::First => 0,
                SearchState::Task(idx) => idx + 1,
            };
            find_match(needle, tasks, start_idx)
        };
        match found {
            Some(idx) => {
                *search_state = SearchState::Task(idx);
                let update = self.set_select(idx as isize, count);
                return ListAction::Selected(update);
            },
            None => {},
        }
        selection_state.advance();
        *search_state = SearchState::First;
        ListAction::Nothing
    }

    /// Handle a key press, given the tasks shown.
    pub fn handle_key(&mut self, key: char, tasks: &[TaskInfo]) -> (res: ListAction)
        requires
            tasks@.len() <= isize::MAX,
            key == ' ' ==> tasks@.len() > 0,
        ensures
            final(self).id() == old(self).id(),
            ({
                let n = tasks@.len() as int;
                let sel = sanitized(old(self).raw_selection(), n);
                if key == ' ' {
                    res == ListAction::Toggle(tasks@[sel].id) && final(self).raw_selection() == old(self).raw_selection() && final(self).waits_for() == old(self).waits_for()
                } else if key == 'a' {
                    final(self).waits_for() == Some(ListState::Add) && input_started(res, Seq::empty(), 0)
                        && final(self).raw_selection() == old(self).raw_selection()
                } else if key == 'd' {
                    final(self).raw_selection() == old(self).raw_selection() && final(self).waits_for() == old(self).waits_for() && (n > 0 ==> res == ListAction::Remove(tasks@[sel].id)) && (n == 0
                        ==> res is Nothing)
                } else if key == 'e' {
                    final(self).raw_selection() == old(self).raw_selection() && (n > 0 ==> final(self).waits_for() == Some(ListState::Edit(tasks@[sel].id)) && input_started(res, tasks@[sel].summary@, crate::text::byte_len(tasks@[sel].summary@) as int)) && (n == 0 ==> res is Nothing
                        && final(self).waits_for() == old(self).waits_for())
                } else if key == 'J' {
                    final(self).waits_for() == old(self).waits_for() && (n > 0 && sel + 1 < n ==> res
                        == ListAction::MoveAfter(tasks@[sel].id, tasks@[sel + 1].id) && final(self).raw_selection() == sel + 1) && (!(n > 0 && sel + 1 < n) ==> res is Nothing && final(self).raw_selection() == old(self).raw_selection())
                } else if key == 'K' {
                    final(self).waits_for() == old(self).waits_for() && (n > 0 && sel > 0 ==> res
                        == ListAction::MoveBefore(tasks@[sel].id, tasks@[sel - 1].id) && final(self).raw_selection() == sel - 1) && (!(n > 0 && sel > 0) ==> res is Nothing && final(self).raw_selection() == old(self).raw_selection())
                } else if key == 'g' || key == 'G' || key == 'j' || key == 'k' {
                    let target = if key == 'g' {
                        0
                    } else if key == 'G' {
                        isize::MAX as int
                    } else if key == 'j' {
                        sel + 1
                    } else {
                        sel - 1
                    };
                    final(self).waits_for() == old(self).waits_for() && final(self).raw_selection() == target
                        && (sanitized(target, n) != sel ==> res is Updated) && (sanitized(target, n) == sel
                        ==> res is Nothing)
                } else {
                    res is Unhandled && final(self).raw_selection() == old(self).raw_selection() && final(self).waits_for() == old(self).waits_for()
                }
            }),
    {
        let count = tasks.len();
        if key == ' ' {
            let selection = self.selection(count);
            ListAction::Toggle(tasks[selection].id)
        } else if key == 'a' {
            self.state = Some(ListState::Add);
            ListAction::StartInput(String::new(), 0)
        } else if key == 'd' {
            if count > 0 {
                let selection = self.selection(count);
                ListAction::Remove(tasks[selection].id)
            } else {
                ListAction::Nothing
            }
        } else if key == 'e' {
            if count > 0 {
                let selection = self.selection(count);
                let task = &tasks[selection];
                let string = task.summary.clone();
                let idx = crate::text::str_len(string.as_str());
                self.state = Some(ListState::Edit(task.id));
                ListAction::StartInput(string, idx)
            } else {
                ListAction::Nothing
            }
        } else if key == 'J' {
            if count > 0 {
                let to_move = tasks[self.selection(count)].id;
                let other = self.some_selection(1, count);
                if other < count {
                    let other = tasks[other].id;
                    let _changed = self.select(1, count);
                    ListAction::MoveAfter(to_move, other)
                } else {
                    ListAction::Nothing
                }
            } else {
                ListAction::Nothing
            }
        } else if key == 'K' {
            if count > 0 && self.selection(count) > 0 {
                let to_move = tasks[self.selection(count)].id;
                let other = tasks[self.some_selection(-1, count)].id;
                let _changed = self.select(-1, count);
                ListAction::MoveBefore(to_move, other)
            } else {
                ListAction::Nothing
            }
        } else if key == 'g' || key == 'G' || key == 'j' || key == 'k' {
            let changed = if key == 'g' {
                self.set_select(0, count)
            } else if key == 'G' {
                self.set_select(isize::MAX, count)
            } else if key == 'j' {
                self.select(1, count)
            } else {
                self.select(-1, count)
            };
            if changed {
                ListAction::Updated
            } else {
                ListAction::Nothing
            }
        } else {
            ListAction::Unhandled
        }
    }

    /// Handle text entered in response to a request for input: a
    /// non-empty text becomes a new task or the new summary of the task
    /// edited; editing a task to an empty text removes it. Without a
    /// request, the text goes to the parent.
    pub fn handle_entered_text(&mut self, text: String, tasks: &[TaskInfo]) -> (res: ListAction)
        requires
            tasks@.len() <= isize::MAX,
        ensures
            final(self).id() == old(self).id(),
            final(self).raw_selection() == old(self).raw_selection(),
            final(self).waits_for() is None,
            match old(self).waits_for() {
                None => res is Unhandled,
                Some(ListState::Add) => if text@.len() == 0 {
                    res is Nothing
                } else {
                    adds(
                        res,
                        text@,
                        if tasks@.len() > 0 {
                            Some(tasks@[sanitized(old(self).raw_selection(), tasks@.len() as int)].id)
                        } else {
                            None
                        },
                    )
                },
                Some(ListState::Edit(id)) => if text@.len() == 0 {
                    res == ListAction::Remove(id)
                } else {
                    updates(res, id, text@)
                },
            },
    {
        let state = self.state.take();
        match state {
            Some(ListState::Add) => {
                if !text.as_str().is_empty() {
                    let count = tasks.len();
                    let from = if count > 0 {
                        Some(tasks[self.selection(count)].id)
                    } else {
                        None
                    };
                    ListAction::AddTask(text, from)
                } else {
                    ListAction::Nothing
                }
            },
            Some(ListState::Edit(id)) => {
                if !text.as_str().is_empty() {
                    ListAction::UpdateSummary(id, text)
                } else {
                    ListAction::Remove(id)
                }
            },
            None => ListAction::Unhandled,
        }
    }

    /// Handle the cancellation of input: a request for input is dropped
    /// and the list is to be redrawn; without one the cancellation goes
    /// to the parent.
    pub fn handle_input_canceled(&mut self) -> (res: ListAction)
        ensures
            final(self).id() == old(self).id(),
            final(self).raw_selection() == old(self).raw_selection(),
            final(self).waits_for() is None,
            old(self).waits_for() is Some ==> res is Updated,
            old(self).waits_for() is None ==> res is Unhandled,
    {
        if self.state.take().is_some() {
            ListAction::Updated
        } else {
            ListAction::Unhandled
        }
    }
}

/// `after` holds the entries of `before`, but for the one at position
/// `p`, which keeps its identity.
pub open spec fn replaced_at(before: TaskEntries, after: TaskEntries, p: int) -> bool {
    &&& after.len() == before.len()
    &&& forall|i: int| 0 <= i < before.len() && i != p ==> after[i] == before[i]
    &&& after[p].0.key() == before[p].0.key()
}

/// The set `ids` with `id` added where it is missing and removed where
/// it is present.
pub open spec fn toggled(ids: Set<usize>, id: usize) -> Set<usize> {
    if ids.contains(id) {
        ids.remove(id)
    } else {
        ids.insert(id)
    }
}

/// The tag identifiers of the task at position `p` of `entries`.
pub open spec fn tag_set_at(entries: TaskEntries, p: int) -> Set<usize> {
    entries[p].0.spec_value()@.2.to_set()
}

/// What applying `action` to the tasks `e0`, with the tag `complete`
/// that marks a task complete if there is one, makes of them (`e1`),
/// and the task to select afterwards (`res`).
pub open spec fn applied(
    action: ListAction,
    tasks: Tasks,
    complete: Option<usize>,
    e1: TaskEntries,
    res: Option<u64>,
) -> bool {
    let e0 = tasks.entries();
    match action {
        ListAction::Remove(id) => res is None && if tasks.contains(id) {
            e1 == e0.remove(key_pos(e0, id))
        } else {
            e1 == e0
        },
        ListAction::MoveAfter(a, b) => res is None && if a != b && tasks.contains(a) && tasks.contains(b) {
            e1 == moved(e0, a, Target::After(e0[key_pos(e0, b)].0))
        } else {
            e1 == e0
        },
        ListAction::MoveBefore(a, b) => res is None && if a != b && tasks.contains(a) && tasks.contains(b) {
            e1 == moved(e0, a, Target::Before(e0[key_pos(e0, b)].0))
        } else {
            e1 == e0
        },
        ListAction::Toggle(id) => if tasks.contains(id) && complete is Some {
            let p = key_pos(e0, id);
            &&& res == Some(id)
            &&& replaced_at(e0, e1, p)
            &&& e1[p].0.spec_value()@.0 == e0[p].0.spec_value()@.0
            &&& e1[p].0.spec_value()@.1 == e0[p].0.spec_value()@.1
            &&& tag_set_at(e1, p) == toggled(tag_set_at(e0, p), complete->0)
        } else {
            res is None && e1 == e0
        },
        ListAction::UpdateSummary(id, text) => if tasks.contains(id) {
            let p = key_pos(e0, id);
            &&& res == Some(id)
            &&& replaced_at(e0, e1, p)
            &&& e1[p].0.spec_value()@.0 == e0[p].0.spec_value()@.0
            &&& e1[p].0.spec_value()@.1 == text@
            &&& tag_set_at(e1, p) == tag_set_at(e0, p)
        } else {
            res is None && e1 == e0
        },
        ListAction::AddTask(text, from) => if tasks.can_grow() && tasks.db().fresh_key() < u64::MAX {
            &&& res == Some(e1.last().0.key())
            &&& e1 == e0.push(e1.last())
            &&& !tasks.contains(e1.last().0.key())
            &&& e1.last().0.spec_value()@.1 == text@
            &&& tag_set_at(e1, e0.len() as int) == match from {
                Some(f) => if tasks.contains(f) {
                    match complete {
                        Some(c) => tag_set_at(e0, key_pos(e0, f)).remove(c),
                        None => tag_set_at(e0, key_pos(e0, f)),
                    }
                } else {
                    Set::empty()
                },
                None => Set::empty(),
            }
        } else {
            res is None && e1 == e0
        },
        _ => res is None && e1 == e0,
    }
}

/// The identifier of the tag that marks a task complete, if any.
pub open spec fn tag_id_of(complete: Option<&Tag>) -> Option<usize> {
    match complete {
        Some(t) => Some(t.id()),
        None => None,
    }
}

/// Carry out on the tasks what the list asked for in `action`, with
/// `complete` the tag that marks a task complete, if there is one:
/// remove, move, toggle the completion of, change the summary of or add
/// a task. A new task goes after the last one, with the tags of the
/// task it was added from but the completion. Return the task to select
/// afterwards. An action on a task that is not there, and a toggle
/// without a tag to toggle, change nothing.
pub fn apply(tasks: &mut Tasks, action: ListAction, complete: Option<&Tag>) -> (res: Option<u64>)
    requires
        old(tasks).wf(),
    ensures
        final(tasks).wf(),
        final(tasks).spec_templates() == old(tasks).spec_templates(),
        applied(action, *old(tasks), tag_id_of(complete), final(tasks).entries(), res),
        action matches ListAction::Remove(id) ==> old(tasks).contains(id) ==> final(tasks).history() == after_exec(
            old(tasks).history(),
            TaskOp::Remove {
                task: old(tasks).entries()[key_pos(old(tasks).entries(), id)].0,
                position: Some(key_pos(old(tasks).entries(), id) as usize),
            },
        ),
        action matches ListAction::MoveAfter(a, b) ==> a != b && old(tasks).contains(a) && old(tasks).contains(b)
            ==> final(tasks).history() == after_exec(
            old(tasks).history(),
            TaskOp::Move {
                task: old(tasks).entries()[key_pos(old(tasks).entries(), a)].0,
                to: Target::After(old(tasks).entries()[key_pos(old(tasks).entries(), b)].0),
                position: Some(key_pos(old(tasks).entries(), a) as usize),
            },
        ),
        action matches ListAction::MoveBefore(a, b) ==> a != b && old(tasks).contains(a) && old(tasks).contains(b)
            ==> final(tasks).history() == after_exec(
            old(tasks).history(),
            TaskOp::Move {
                task: old(tasks).entries()[key_pos(old(tasks).entries(), a)].0,
                to: Target::Before(old(tasks).entries()[key_pos(old(tasks).entries(), b)].0),
                position: Some(key_pos(old(tasks).entries(), a) as usize),
            },
        ),
{
    let ghost t0 = *tasks;
    match action {
        ListAction::Remove(id) => {
            match tasks.find_key(id) {
                Some(item) => {
                    tasks.remove(item);
                },
                None => {},
            }
            None
        },
        ListAction::MoveAfter(a, b) => {
            if a != b {
                match (tasks.find_key(a), tasks.find_key(b)) {
                    (Some(x), Some(y)) => {
                        tasks.move_after(x, y);
                    },
                    _ => {},
                }
            }
            None
        },
        ListAction::MoveBefore(a, b) => {
            if a != b {
                match (tasks.find_key(a), tasks.find_key(b)) {
                    (Some(x), Some(y)) => {
                        tasks.move_before(x, y);
                    },
                    _ => {},
                }
            }
            None
        },
        ListAction::Toggle(id) => {
            let complete = match complete {
                Some(c) => c,
                None => {
                    return None;
                },
            };
            match tasks.find_key(id) {
                Some(item) => {
                    let mut updated = item.value().clone();
                    let tags = updated.tags();
                    updated.set_tags(tags);
                    if updated.has_tag(complete) {
                        let _unset = updated.unset_tag(complete);
                    } else {
                        let _set = updated.set_tag(complete.clone());
                    }
                    tasks.update(item, updated);
                    Some(id)
                },
                None => None,
            }
        },
        ListAction::UpdateSummary(id, text) => {
            match tasks.find_key(id) {
                Some(item) => {
                    let mut updated = item.value().clone();
                    updated.set_summary(text);
                    tasks.update(item, updated);
                    Some(id)
                },
                None => None,
            }
        },
        ListAction::AddTask(text, from) => {
            if !tasks.can_add() {
                return None;
            }
            let tags = match from {
                Some(f) => match tasks.find_key(f) {
                    Some(item) => {
                        let mut source = item.value().clone();
                        let tags = source.tags();
                        source.set_tags(tags);
                        match complete {
                            Some(c) => {
                                let _unset = source.unset_tag(c);
                            },
                            None => {},
                        }
                        let kept = source.tags();
                        proof {
                            let e0 = t0.entries();
                            assert(item == e0[key_pos(e0, f)].0);
                            assert(kept@.map_values(|t: Tag| t.id()) == source.tag_ids());
                            assert(kept@.map_values(|t: Tag| t.id()).to_set() == match tag_id_of(complete) {
                                Some(c) => tag_set_at(e0, key_pos(e0, f)).remove(c),
                                None => tag_set_at(e0, key_pos(e0, f)),
                            });
                        }
                        kept
                    },
                    None => Vec::new(),
                },
                None => Vec::new(),
            };
            proof {
                if tags@.len() == 0 {
                    assert(tags@.map_values(|t: Tag| t.id()).to_set() =~= Set::empty());
                }
            }
            let ghost tag_ids = tags@.map_values(|t: Tag| t.id()).to_set();
            let item = tasks.add(text, tags, None);
            proof {
                let e0 = t0.entries();
                let e1 = tasks.entries();
                assert(e1 =~= e0.push(e1.last()));
                assert(e1.last().0 == item);
                assert(tag_set_at(e1, e0.len() as int) == tag_ids);
            }
            Some(item.identity())
        },
        _ => None,
    }
}

/// Whether `info` shows the task with its identity among `tasks`: its
/// summary, and whether it carries the tag `complete`, where there is
/// one.
pub open spec fn shows_task(info: TaskInfo, tasks: Tasks, complete: Option<usize>) -> bool {
    let e = tasks.entries();
    let p = key_pos(e, info.id);
    &&& tasks.contains(info.id)
    &&& info.summary@ == e[p].0.spec_value()@.1
    &&& info.complete == match complete {
        Some(c) => e[p].0.spec_value()@.2.contains(c),
        None => false,
    }
}

/// What the list shows of the tasks that satisfy the CNF `cnf`, in
/// order, with `complete` the tag that marks a task complete.
pub fn task_infos(tasks: &Tasks, cnf: &Vec<Vec<TagLit>>, complete: Option<&Tag>) -> (res: Vec<TaskInfo>)
    requires
        tasks.wf(),
    ensures
        ids_of(res@) == query_result(tasks.entries(), clauses(cnf@)),
        forall|i: int| 0 <= i < res@.len() ==> shows_task(#[trigger] res@[i], *tasks, tag_id_of(complete)),
{
    let items = tasks.iter();
    let ghost entries = tasks.entries();
    let ghost c = clauses(cnf@);
    let complete_id = match complete {
        Some(c) => Some(c.id_value()),
        None => None,
    };
    let mut res: Vec<TaskInfo> = Vec::new();
    let mut i: usize = 0;
    while i < items.len()
        invariant
            tasks.wf(),
            entries == tasks.entries(),
            complete_id == tag_id_of(complete),
            i <= items@.len(),
            items@.len() == entries.len(),
            forall|j: int| 0 <= j < entries.len() ==> *#[trigger] items@[j] == entries[j].0,
            c == clauses(cnf@),
            ids_of(res@) == query_result(entries.take(i as int), c),
            forall|j: int| 0 <= j < res@.len() ==> shows_task(#[trigger] res@[j], *tasks, tag_id_of(complete)),
        decreases items@.len() - i,
    {
        let item = items[i];
        let task = item.value();
        let tags = task.tag_id_values();
        let ok = matches_cnf(cnf, &tags);
        proof {
            let pred = |e: (Item<Task>, ())| task_matches(e.0.spec_value(), c);
            let next = entries.take(i + 1);
            assert(next.drop_last() =~= entries.take(i as int));
            assert(next.last() == entries[i as int]);
            reveal(Seq::filter);
            assert(next.filter(pred) == if pred(next.last()) {
                entries.take(i as int).filter(pred).push(next.last())
            } else {
                entries.take(i as int).filter(pred)
            });
        }
        if ok {
            let found = match complete_id {
                Some(c) => crate::view::holds_tag(&tags, c),
                None => false,
            };
            let info = TaskInfo { id: item.identity(), summary: task.summary(), complete: found };
            let ghost before = res@;
            res.push(info);
            proof {
                tasks.lemma_identities_unique();
                crate::tasks::lemma_key_pos_at(entries, i as int);
                let pred = |e: (Item<Task>, ())| task_matches(e.0.spec_value(), c);
                let f = entries.take(i as int).filter(pred);
                assert(f.push(entries[i as int]).map_values(|e: (Item<Task>, ())| e.0.key()) =~= f.map_values(
                    |e: (Item<Task>, ())| e.0.key(),
                ).push(entries[i as int].0.key()));
                assert(ids_of(res@) =~= ids_of(before).push(info.id));
                assert(entries[i as int].0.key() == info.id);
                assert(shows_task(info, *tasks, tag_id_of(complete)));
                assert forall|j: int| 0 <= j < res@.len() implies shows_task(#[trigger] res@[j], *tasks, tag_id_of(complete)) by {
                    if j < before.len() {
                        assert(res@[j] == before[j]);
                    }
                }
            }
        }
        i += 1;
    }
    proof {
        assert(entries.take(entries.len() as int) =~= entries);
    }
    res
}

} // verus!
