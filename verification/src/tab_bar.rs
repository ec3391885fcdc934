//! The state of a search across the tabs of a tab bar, and the
//! sanitizing of selection indexes.

use vstd::prelude::*;

use crate::selection::normalize_ok;
use crate::selection::cycle_reset;
use crate::selection::normalize_spec;
use crate::selection::Selection;
use crate::selection::SelectionState;

verus! {

/// The states a search can be in.
#[derive(Debug, PartialEq)]
pub enum SearchT<T> {
    /// No search is in progress.
    Unset,
    /// The text to search for was asked for but is not known yet; the
    /// flag tells whether to search in reverse.
    Preparing(bool),
    /// The state of a search is being handed over to another widget.
    Taken,
    /// The full state of a search: the (lowercased) text to search for,
    /// how the search proceeds on a tab, and the selection state.
    State(String, SearchState, T),
}

impl<T> SearchT<T> {
    /// Take the value, leaving the `Taken` variant in its place.
    pub fn take(&mut self) -> (res: SearchT<T>)
        ensures
            res == *old(self),
            *final(self) is Taken,
    {
        let mut taken = SearchT::Taken;
        std::mem::swap(self, &mut taken);
        taken
    }

    /// Check whether a search being prepared is meant to be a reverse
    /// one.
    pub fn is_reverse(&self) -> (res: bool)
        requires
            *self is Preparing,
        ensures
            res == self->Preparing_0,
    {
        match *self {
            SearchT::Preparing(reverse) => reverse,
            _ => false,
        }
    }
}

/// Where a search on an individual tab starts.
#[derive(Clone, Copy, Debug, PartialEq, Eq, Structural)]
pub enum SearchState {
    /// At the currently selected task.
    Current,
    /// At the first task displayed.
    First,
    /// At the task with the given index.
    Task(usize),
}

impl SearchState {
    /// Check whether the state is `First`.
    pub fn is_first(&self) -> (res: bool)
        ensures
            res == (*self is First),
    {
        match self {
            SearchState::First => true,
            _ => false,
        }
    }
}

/// A selection index clamped to the valid indexes `0..count`, or zero
/// when there is nothing to select.
pub open spec fn sanitized(selection: int, count: int) -> int {
    if count == 0 {
        0
    } else if selection < 0 {
        0
    } else if selection > count - 1 {
        count - 1
    } else {
        selection
    }
}

/// Sanitize a selection index.
pub fn sanitize_selection(selection: isize, count: usize) -> (res: usize)
    requires
        count <= isize::MAX,
    ensures
        res == sanitized(selection as int, count as int),
{
    if count == 0 {
        0
    } else {
        let last = count as isize - 1;
        let clamped = if last < selection {
            last
        } else {
            selection
        };
        let clamped = if 0 > clamped {
            0
        } else {
            clamped
        };
        clamped as usize
    }
}


/// What is to be done after the tab bar handled an event.
#[derive(Debug)]
pub enum TabAction {
    /// Nothing.
    Nothing,
    /// The event is passed on to the parent.
    Unhandled,
    /// Hide the first tab and focus the second; the bar is to be
    /// redrawn.
    Switched(u64, u64),
    /// Show the error message.
    Error(String),
    /// Ask for the text to search for.
    AskSearchText,
    /// Show the text searched for and ask the tab to search for it; the
    /// flag tells whether to search in reverse.
    Search(String, SearchState, SelectionState, u64, bool),
    /// Ask the tab to search on from its first task, or in reverse (the
    /// flag) from its last one.
    SearchOn(String, SelectionState, u64, bool),
    /// Ask the tab to select the task.
    SelectTask(u64, SelectionState, u64),
}

/// Whether the action asks the tab `to` to select the task `task_id`,
/// with a normalized selection state `sel`.
pub open spec fn asks_select(res: TabAction, task_id: u64, sel: Selection, to: u64) -> bool {
    match res {
        TabAction::SelectTask(t, s, tab) => t == task_id && s.selection() == sel && s.advanced() == 0 && tab == to,
        _ => false,
    }
}

/// A bar of tabs, each showing a list of tasks.
#[derive(Debug)]
pub struct TabBar {
    tabs: Vec<(String, u64)>,
    selection: isize,
    prev_selection: isize,
    search: SearchT<SelectionState>,
}

/// The identifiers of the tabs.
pub open spec fn tab_ids(tabs: Seq<(String, u64)>) -> Seq<u64> {
    tabs.map_values(|t: (String, u64)| t.1)
}

/// The position of the first tab with the identifier `id`.
pub open spec fn tab_position(tabs: Seq<(String, u64)>, id: u64) -> int {
    choose|i: int| 0 <= i < tabs.len() && tabs[i].1 == id && forall|j: int| 0 <= j < i ==> tabs[j].1 != id
}

/// Selecting the tab at `target`, clamped to the tabs, turns `before`
/// into `after` with the result `res`: where that tab is not the
/// selected one, it becomes the selected one, the selection before is
/// remembered, and the old tab is hidden and the new one focused; else
/// nothing changes.
pub open spec fn switched_to(before: TabBar, target: int, after: TabBar, res: TabAction) -> bool {
    let n = before.tabs().len() as int;
    let new = sanitized(target, n);
    &&& after.tabs() == before.tabs()
    &&& after.search() == before.search()
    &&& new != before.selected() ==> {
        &&& after.raw_selection() == target
        &&& after.raw_prev_selection() == before.raw_selection()
        &&& res == TabAction::Switched(before.tabs()[before.selected()].1, before.tabs()[new].1)
    }
    &&& new == before.selected() ==> {
        &&& after.raw_selection() == before.raw_selection()
        &&& after.raw_prev_selection() == before.raw_prev_selection()
        &&& res is Nothing
    }
}

/// Whether `res` continues the stored search `search` over the tabs
/// `tabs`: the same text and search state, on the tab that normalizing
/// the stored selection gives, in reverse as `reverse` says.
pub open spec fn continues_search(search: SearchT<SelectionState>, tabs: Seq<(String, u64)>, reverse: bool, res: TabAction) -> bool {
    match search {
        SearchT::State(text, search_state, state) => {
            let (sel, idx) = normalize_spec(state.selection(), tab_ids(tabs), state.advanced() as int);
            &&& res matches TabAction::Search(t, ss, st, tab, rev)
            &&& t == text
            &&& ss == search_state
            &&& st.selection() == sel
            &&& st.advanced() == 0
            &&& tab == tabs[idx].1
            &&& rev == reverse
        },
        _ => false,
    }
}

impl TabBar {
    /// The names and identifiers of the tabs.
    pub closed spec fn tabs(&self) -> Seq<(String, u64)> {
        self.tabs@
    }

    /// The raw selection index, which may lie outside the tabs.
    pub closed spec fn raw_selection(&self) -> int {
        self.selection as int
    }

    /// The raw index of the previously selected tab.
    pub closed spec fn raw_prev_selection(&self) -> int {
        self.prev_selection as int
    }

    /// The state of the search.
    pub closed spec fn search(&self) -> SearchT<SelectionState> {
        self.search
    }

    /// The index of the selected tab.
    pub open spec fn selected(&self) -> int {
        sanitized(self.raw_selection(), self.tabs().len() as int)
    }

    /// Create a tab bar with the given tabs, selecting the first one.
    pub fn new(tabs: Vec<(String, u64)>) -> (res: TabBar)
        ensures
            res.tabs() == tabs@,
            res.raw_selection() == 0,
            res.raw_prev_selection() == 0,
            res.search() is Unset,
    {
        TabBar { tabs, selection: 0, prev_selection: 0, search: SearchT::Unset }
    }

    /// Retrieve the names of the tabs.
    pub fn iter(&self) -> (res: Vec<&String>)
        ensures
            res@.len() == self.tabs().len(),
            forall|i: int| 0 <= i < res@.len() ==> *#[trigger] res@[i] == self.tabs()[i].0,
    {
        let mut res: Vec<&String> = Vec::new();
        let mut i: usize = 0;
        while i < self.tabs.len()
            invariant
                i <= self.tabs@.len(),
                res@.len() == i,
                forall|j: int| 0 <= j < i ==> *#[trigger] res@[j] == self.tabs@[j].0,
            decreases self.tabs@.len() - i,
        {
            res.push(&self.tabs[i].0);
            i += 1;
        }
        res
    }

    /// Retrieve the state of the search.
    pub fn search_state(&self) -> (res: &SearchT<SelectionState>)
        ensures
            *res == self.search(),
    {
        &self.search
    }

    /// Retrieve the index of the selected tab.
    pub fn selection(&self) -> (res: usize)
        requires
            self.tabs().len() <= isize::MAX,
        ensures
            res == self.selected(),
    {
        sanitize_selection(self.selection, self.tabs.len())
    }

    /// The identifier of the selected tab.
    fn selected_tab(&self) -> (res: u64)
        requires
            0 < self.tabs().len() <= isize::MAX,
        ensures
            res == self.tabs()[self.selected()].1,
    {
        self.tabs[self.selection()].1
    }

    /// The identifiers of the tabs.
    fn ids(&self) -> (res: Vec<u64>)
        ensures
            res@ == tab_ids(self.tabs()),
    {
        let mut res: Vec<u64> = Vec::new();
        let mut i: usize = 0;
        while i < self.tabs.len()
            invariant
                i <= self.tabs@.len(),
                res@ == tab_ids(self.tabs@).take(i as int),
            decreases self.tabs@.len() - i,
        {
            res.push(self.tabs[i].1);
            i += 1;
            assert(res@ =~= tab_ids(self.tabs@).take(i as int));
        }
        assert(tab_ids(self.tabs@).take(i as int) =~= tab_ids(self.tabs@));
        res
    }

    /// Change the selected tab; on a change the old tab is hidden and the
    /// new one focused.
    fn set_select(&mut self, selection: isize) -> (res: TabAction)
        requires
            old(self).tabs().len() <= isize::MAX,
        ensures
            switched_to(*old(self), selection as int, *final(self), res),
    {
        let count = self.tabs.len();
        let old_selection = sanitize_selection(self.selection, count);
        let new_selection = sanitize_selection(selection, count);
        if new_selection != old_selection {
            let hide = self.selected_tab();
            self.prev_selection = self.selection;
            self.selection = selection;
            let focus = self.selected_tab();
            TabAction::Switched(hide, focus)
        } else {
            TabAction::Nothing
        }
    }

    /// Move the selection by `change`.
    fn select(&mut self, change: isize) -> (res: TabAction)
        requires
            old(self).tabs().len() <= isize::MAX,
            change == 1 || change == -1,
        ensures
            switched_to(*old(self), old(self).selected() + change, *final(self), res),
    {
        let selection = sanitize_selection(self.selection, self.tabs.len());
        self.set_select(selection as isize + change)
    }

    /// Handle a key press: a digit selects the tab with that number (`0`
    /// the last one), `h` and `l` the tab to the left and right, `` ` ``
    /// the tab selected before; `/` and `?` ask for a text to search for,
    /// forward and backward, and `n` and `N` continue the search.
    pub fn handle_key(&mut self, key: char) -> (res: TabAction)
        requires
            old(self).tabs().len() <= isize::MAX,
            key == 'n' || key == 'N' ==> old(self).search() is Unset || old(self).search() is State,
            (key == 'n' || key == 'N') && old(self).search() is State ==> normalize_ok(
                old(self).search()->State_2.selection(),
                tab_ids(old(self).tabs()),
                old(self).search()->State_2.advanced() as int,
            ),
        ensures
            final(self).tabs() == old(self).tabs(),
            '1' <= key <= '9' ==> switched_to(*old(self), (key as int) - ('1' as int), *final(self), res),
            key == '0' ==> switched_to(*old(self), isize::MAX as int, *final(self), res),
            key == '`' ==> switched_to(*old(self), old(self).raw_prev_selection(), *final(self), res),
            key == 'h' ==> switched_to(*old(self), old(self).selected() - 1, *final(self), res),
            key == 'l' ==> switched_to(*old(self), old(self).selected() + 1, *final(self), res),
            key == '/' || key == '?' || key == 'n' || key == 'N' ==> final(self).raw_selection() == old(
                self,
            ).raw_selection() && final(self).raw_prev_selection() == old(self).raw_prev_selection(),
            key == '/' ==> final(self).search() == SearchT::<SelectionState>::Preparing(false) && res is AskSearchText,
            key == '?' ==> final(self).search() == SearchT::<SelectionState>::Preparing(true) && res is AskSearchText,
            (key == 'n' || key == 'N') && old(self).search() is Unset ==> final(self).search() is Unset
                && (res matches TabAction::Error(e) && e@ == "Nothing to search for"@),
            (key == 'n' || key == 'N') && old(self).search() is State ==> final(self).search() is Taken
                && continues_search(old(self).search(), old(self).tabs(), key == 'N', res),
            !('0' <= key <= '9' || key == '`' || key == 'h' || key == 'l' || key == 'n' || key == 'N' || key == '/'
                || key == '?') ==> res is Unhandled && *final(self) == *old(self),
    {
        if '1' <= key && key <= '9' {
            let index = (key as u32 - '1' as u32) as isize;
            self.set_select(index)
        } else if key == '0' {
            self.set_select(isize::MAX)
        } else if key == '`' {
            let selection = self.prev_selection;
            self.set_select(selection)
        } else if key == 'h' {
            self.select(-1)
        } else if key == 'l' {
            self.select(1)
        } else if key == 'n' || key == 'N' {
            match self.search.take() {
                SearchT::State(string, search_state, selection_state) => {
                    let mut selection_state = selection_state;
                    let ids = self.ids();
                    let new_idx = selection_state.normalize(ids.as_slice());
                    let tab = self.tabs[new_idx].1;
                    let reverse = key == 'N';
                    TabAction::Search(string, search_state, selection_state, tab, reverse)
                },
                _ => {
                    self.search = SearchT::Unset;
                    TabAction::Error(nothing_to_search_for())
                },
            }
        } else if key == '/' || key == '?' {
            self.search = SearchT::Preparing(key == '?');
            TabAction::AskSearchText
        } else {
            TabAction::Unhandled
        }
    }

    /// Handle a request to select a task, bounced back from a tab that
    /// does not show it: the request goes on to the next tab, unless all
    /// tabs were asked.
    pub fn handle_select_task(&mut self, task_id: u64, state: SelectionState) -> (res: TabAction)
        requires
            normalize_ok(state.selection(), tab_ids(old(self).tabs()), state.advanced() as int),
        ensures
            *final(self) == *old(self),
            ({
                let (sel, idx) = normalize_spec(state.selection(), tab_ids(old(self).tabs()), state.advanced() as int);
                &&& !(sel is Cycled) ==> asks_select(res, task_id, sel, old(self).tabs()[idx].1)
                &&& sel is Cycled ==> res is Nothing
            }),
    {
        let mut state = state;
        let ids = self.ids();
        let new_idx = state.normalize(ids.as_slice());
        if !state.has_cycled() {
            let tab = self.tabs[new_idx].1;
            TabAction::SelectTask(task_id, state, tab)
        } else {
            TabAction::Nothing
        }
    }

    /// Handle the report of the tab `widget_id` that it selected a task:
    /// the tab becomes the selected one.
    pub fn handle_selected_task(&mut self, widget_id: u64) -> (res: TabAction)
        requires
            old(self).tabs().len() <= isize::MAX,
            tab_ids(old(self).tabs()).contains(widget_id),
        ensures
            final(self).tabs() == old(self).tabs(),
            final(self).search() == old(self).search(),
            ({
                let i = tab_position(old(self).tabs(), widget_id);
                &&& 0 <= i < old(self).tabs().len()
                &&& old(self).tabs()[i].1 == widget_id
                &&& i != old(self).selected() ==> final(self).raw_selection() == i
                    && final(self).raw_prev_selection() == old(self).raw_selection() && res == TabAction::Switched(
                    old(self).tabs()[old(self).selected()].1,
                    widget_id,
                )
                &&& i == old(self).selected() ==> final(self).raw_selection() == old(self).raw_selection()
                    && final(self).raw_prev_selection() == old(self).raw_prev_selection() && res is Nothing
            }),
    {
        let mut i: usize = 0;
        while i < self.tabs.len()
            invariant
                *self == *old(self),
                i <= self.tabs@.len(),
                self.tabs@.len() <= isize::MAX,
                forall|j: int| 0 <= j < i ==> self.tabs@[j].1 != widget_id,
                tab_ids(self.tabs@).contains(widget_id),
            decreases self.tabs@.len() - i,
        {
            if self.tabs[i].1 == widget_id {
                proof {
                    let p = tab_position(self.tabs@, widget_id);
                    assert(0 <= p < self.tabs@.len() && self.tabs@[p].1 == widget_id && forall|j: int|
                        0 <= j < p ==> self.tabs@[j].1 != widget_id);
                    if p < i {
                    } else if p > i {
                        assert(self.tabs@[i as int].1 != widget_id);
                    }
                    assert(p == i);
                }
                return self.set_select(i as isize);
            }
            i += 1;
        }
        proof {
            let k = choose|k: int| 0 <= k < tab_ids(self.tabs@).len() && tab_ids(self.tabs@)[k] == widget_id;
            assert(self.tabs@[k].1 == widget_id);
        }
        TabAction::Nothing
    }

    /// Handle the text to search for: the search starts on the selected
    /// tab, at its selected task, looking for the text in lowercase.
    pub fn handle_entered_text(&mut self, string: String) -> (res: TabAction)
        requires
            old(self).tabs().len() <= isize::MAX,
            string@.len() > 0 && old(self).tabs().len() > 0 ==> old(self).search() is Preparing,
        ensures
            final(self).tabs() == old(self).tabs(),
            final(self).raw_selection() == old(self).raw_selection(),
            string@.len() > 0 && old(self).tabs().len() > 0 ==> {
                &&& final(self).search() is Taken
                &&& starts_search(
                    res,
                    crate::task_list_box::lowered(string@),
                    old(self).tabs()[old(self).selected()].1,
                    old(self).search()->Preparing_0,
                )
            },
            !(string@.len() > 0 && old(self).tabs().len() > 0) ==> res is Nothing && *final(self) == *old(self),
    {
        if !string.as_str().is_empty() && self.tabs.len() > 0 {
            let lower = lowercase(string.as_str());
            let reverse = self.search.take().is_reverse();
            let tab = self.selected_tab();
            let state = SelectionState::new(tab);
            TabAction::Search(lower, SearchState::Current, state, tab, reverse)
        } else {
            TabAction::Nothing
        }
    }

    /// Handle the outcome of a search on a tab: if all tabs were searched
    /// the text was not found; if the tab found nothing, the search goes
    /// on at the next tab; else the search state is kept for continuing.
    pub fn handle_search_task(
        &mut self,
        string: String,
        search_state: SearchState,
        selection_state: SelectionState,
        reverse: bool,
    ) -> (res: TabAction)
        requires
            old(self).search() is Taken,
            selection_state.selection() is Cycled || selection_state.advanced() == 0 || normalize_ok(
                selection_state.selection(),
                tab_ids(old(self).tabs()),
                selection_state.advanced() as int,
            ),
        ensures
            final(self).tabs() == old(self).tabs(),
            final(self).raw_selection() == old(self).raw_selection(),
            final(self).raw_prev_selection() == old(self).raw_prev_selection(),
            selection_state.selection() is Cycled ==> final(self).search() == SearchT::State(
                string,
                search_state,
                selection_state,
            ) && (res matches TabAction::Error(e) && e@ == "Text '"@ + string@ + "' not found"@),
            !(selection_state.selection() is Cycled) && selection_state.advanced() > 0 ==> final(self).search() is Taken
                && ({
                let (sel, idx) = normalize_spec(
                    selection_state.selection(),
                    tab_ids(old(self).tabs()),
                    selection_state.advanced() as int,
                );
                &&& res matches TabAction::SearchOn(t, st, tab, rev)
                &&& t == string
                &&& rev == reverse
                &&& st.selection() == sel
                &&& st.advanced() == 0
                &&& tab == old(self).tabs()[idx].1
            }),
            !(selection_state.selection() is Cycled) && selection_state.advanced() == 0 ==> res is Nothing && (
            final(self).search() matches SearchT::State(t, ss, st) && t == string && ss == search_state
                && st.selection() == cycle_reset(selection_state.selection()) && st.advanced() == 0),
    {
        let mut selection_state = selection_state;
        if selection_state.has_cycled() {
            let error = not_found(string.as_str());
            self.search = SearchT::State(string, search_state, selection_state);
            TabAction::Error(error)
        } else if selection_state.has_advanced() {
            let ids = self.ids();
            let new_idx = selection_state.normalize(ids.as_slice());
            let tab = self.tabs[new_idx].1;
            TabAction::SearchOn(string, selection_state, tab, reverse)
        } else {
            selection_state.reset_cycled();
            self.search = SearchT::State(string, search_state, selection_state);
            TabAction::Nothing
        }
    }
}

/// Whether the action starts a search for `text` on the tab `tab`, at
/// its selected task, in reverse as `reverse` says.
pub open spec fn starts_search(res: TabAction, text: Seq<char>, tab: u64, reverse: bool) -> bool {
    match res {
        TabAction::Search(t, search_state, state, to, rev) => t@ == text && search_state == SearchState::Current
            && state.selection() == Selection::Start(tab) && state.advanced() == 0 && to == tab && rev == reverse,
        _ => false,
    }
}

/// A string with its ASCII uppercase letters lowercased.
fn lowercase(s: &str) -> (res: String)
    ensures
        res@ == crate::task_list_box::lowered(s@),
{
    let chars = crate::chars::chars_of(s);
    let mut out: Vec<char> = Vec::new();
    let mut i: usize = 0;
    while i < chars.len()
        invariant
            chars@ == s@,
            i <= chars@.len(),
            out@ == crate::task_list_box::lowered(chars@.take(i as int)),
        decreases chars@.len() - i,
    {
        out.push(crate::task_list_box::to_ascii_lower(chars[i]));
        i += 1;
        assert(out@ =~= crate::task_list_box::lowered(chars@.take(i as int)));
    }
    assert(chars@.take(i as int) =~= chars@);
    crate::chars::string_from_chars(&out)
}

/// The error shown when a text was found on no tab.
fn not_found(text: &str) -> (res: String)
    ensures
        res@ == "Text '"@ + text@ + "' not found"@,
{
    let mut out: Vec<char> = Vec::new();
    let prefix = crate::chars::chars_of("Text '");
    let middle = crate::chars::chars_of(text);
    let suffix = crate::chars::chars_of("' not found");
    let mut i: usize = 0;
    while i < prefix.len()
        invariant
            i <= prefix@.len(),
            out@ == prefix@.take(i as int),
        decreases prefix@.len() - i,
    {
        out.push(prefix[i]);
        i += 1;
        assert(out@ =~= prefix@.take(i as int));
    }
    assert(prefix@.take(i as int) =~= prefix@);
    let mut j: usize = 0;
    while j < middle.len()
        invariant
            j <= middle@.len(),
            out@ == prefix@ + middle@.take(j as int),
        decreases middle@.len() - j,
    {
        out.push(middle[j]);
        j += 1;
        assert(out@ =~= prefix@ + middle@.take(j as int));
    }
    assert(middle@.take(j as int) =~= middle@);
    let mut k: usize = 0;
    while k < suffix.len()
        invariant
            k <= suffix@.len(),
            out@ == prefix@ + middle@ + suffix@.take(k as int),
        decreases suffix@.len() - k,
    {
        out.push(suffix[k]);
        k += 1;
        assert(out@ =~= prefix@ + middle@ + suffix@.take(k as int));
    }
    assert(suffix@.take(k as int) =~= suffix@);
    crate::chars::string_from_chars(&out)
}

/// The error shown when there is nothing to search for.
fn nothing_to_search_for() -> (res: String)
    ensures
        res@ == "Nothing to search for"@,
{
    let s = "Nothing to search for";
    crate::text::owned(s)
}
} // verus!
