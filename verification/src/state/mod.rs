//! The viewer's state: the loaded file, its entries, the selection, the
//! filter and the sort order.

use std::collections::HashMap;
use std::sync::Arc;

use vstd::prelude::*;

pub mod sorting;

pub use sorting::Order;

use crate::filter::{accepts, FilterQuery};
use sorting::{in_rows, law_status_sort_lists_statuses_in_order, sort_rows, sorted_rows};
use crate::har::types::{EntryDetail, EntryRange, EntrySummary, IndexResult, IndexStats};

verus! {

broadcast use vstd::std_specs::hash::group_hash_axioms;

/// The inspector tab on show.
#[derive(Clone, Copy, Debug, PartialEq, Eq, Structural)]
pub enum InspectorTab {
    Request,
    Response,
    Headers,
    Timings,
}

/// A column of the history table that rows can be sorted by.
#[derive(Clone, Copy, Debug, PartialEq, Eq, Structural)]
pub enum SortColumn {
    StartedAt,
    Method,
    Host,
    Path,
    Status,
    Mime,
    ReqBytes,
    ResBytes,
    Duration,
}

#[derive(Clone, Copy, Debug, PartialEq, Eq, Structural)]
pub enum SortDirection {
    Asc,
    Desc,
}

/// The column the history is sorted by, and in which direction.
#[derive(Clone, Copy, Debug, PartialEq, Eq, Structural)]
pub struct SortConfig {
    pub column: SortColumn,
    pub direction: SortDirection,
}

impl Default for SortConfig {
    /// Newest first: by start time, descending.
    fn default() -> (c: Self)
        ensures
            c == (SortConfig { column: SortColumn::StartedAt, direction: SortDirection::Desc }),
    {
        SortConfig { column: SortColumn::StartedAt, direction: SortDirection::Desc }
    }
}

/// Indexing progress as the fraction `done / total` (complete when `total`
/// is zero).
#[derive(Clone, Copy, Debug, PartialEq, Eq, Structural)]
pub struct IndexProgress {
    pub done: usize,
    pub total: usize,
}

/// No progress yet.
pub open spec fn progress_none() -> IndexProgress {
    IndexProgress { done: 0, total: 1 }
}

/// Indexing complete.
pub open spec fn progress_complete() -> IndexProgress {
    IndexProgress { done: 1, total: 1 }
}

/// The state of the viewer.
#[derive(Clone, Debug)]
pub struct HarStore {
    /// The bytes of the loaded file.
    pub file_bytes: Option<Arc<Vec<u8>>>,
    /// One summary per entry, in file order.
    pub entries: Vec<EntrySummary>,
    /// The byte range of each entry, parallel to `entries`.
    pub entry_ranges: Vec<EntryRange>,
    /// The selected entry, as an index into `entries`.
    pub selected_row: Option<usize>,
    pub active_tab: InspectorTab,
    pub filter: FilterQuery,
    pub sort: SortConfig,
    /// Details loaded so far, by entry index.
    pub details: HashMap<usize, EntryDetail>,
    pub stats: Option<IndexStats>,
    pub indexing: bool,
    pub indexing_progress: IndexProgress,
    pub error: Option<String>,
}

impl Default for HarStore {
    fn default() -> (s: Self)
        ensures
            s.file_bytes is None,
            s.entries@.len() == 0,
            s.entry_ranges@.len() == 0,
            s.selected_row is None,
            s.active_tab == InspectorTab::Request,
            s.filter.text@.len() == 0,
            s.filter.method is None,
            s.filter.status_class is None,
            s.filter.mime_category is None,
            s.sort == (SortConfig { column: SortColumn::StartedAt, direction: SortDirection::Desc }),
            s.details@ == Map::<usize, EntryDetail>::empty(),
            s.stats is None,
            !s.indexing,
            s.indexing_progress == progress_none(),
            s.error is None,
    {
        HarStore {
            file_bytes: None,
            entries: Vec::new(),
            entry_ranges: Vec::new(),
            selected_row: None,
            active_tab: InspectorTab::Request,
            filter: FilterQuery::default(),
            sort: SortConfig::default(),
            details: HashMap::new(),
            stats: None,
            indexing: false,
            indexing_progress: IndexProgress { done: 0, total: 1 },
            error: None,
        }
    }
}

/// The first position of `x` in `v`.
pub open spec fn position(v: Seq<usize>, x: usize) -> Option<int>
    decreases v.len(),
{
    if v.len() == 0 {
        None
    } else if v[0] == x {
        Some(0)
    } else {
        match position(v.drop_first(), x) {
            Some(k) => Some(k + 1),
            None => None,
        }
    }
}

/// Where the selection moves to within the visible rows: `delta` rows on
/// from the position of the current selection (from the first row when the
/// selection is not visible), stopping at the first and last rows.
pub open spec fn moved_position(current: int, delta: int, len: int) -> int {
    if delta < 0 {
        if current + delta < 0 {
            0
        } else {
            current + delta
        }
    } else if current + delta > len - 1 {
        len - 1
    } else {
        current + delta
    }
}

pub open spec fn moved_selection(selected: Option<usize>, delta: int, visible: Seq<usize>) -> Option<
    usize,
> {
    if visible.len() == 0 {
        None
    } else {
        let current = match selected {
            Some(sel) => match position(visible, sel) {
                Some(p) => p,
                None => 0,
            },
            None => 0,
        };
        Some(visible[moved_position(current, delta, visible.len() as int)])
    }
}

proof fn lemma_position(v: Seq<usize>, x: usize)
    ensures
        position(v, x) matches Some(p) ==> 0 <= p < v.len() && v[p] == x && forall|k: int|
            0 <= k < p ==> v[k] != x,
        position(v, x) is None ==> forall|k: int| 0 <= k < v.len() ==> v[k] != x,
    decreases v.len(),
{
    if v.len() > 0 {
        lemma_position(v.drop_first(), x);
        if v[0] != x {
            assert forall|k: int| 1 <= k < v.len() implies v[k] == v.drop_first()[k - 1] by {}
        }
    }
}

/// The indices of the first `n` rows that the filter accepts, in file order.
pub open spec fn matching_upto(es: Seq<EntrySummary>, q: FilterQuery, n: int) -> Seq<usize>
    decreases n,
{
    if n <= 0 {
        Seq::empty()
    } else if accepts(q, es[n - 1]) {
        matching_upto(es, q, n - 1).push((n - 1) as usize)
    } else {
        matching_upto(es, q, n - 1)
    }
}

/// The indices of all rows that the filter accepts, in file order.
pub open spec fn matching_rows(es: Seq<EntrySummary>, q: FilterQuery) -> Seq<usize> {
    matching_upto(es, q, es.len() as int)
}

/// The two stores agree on everything but the listed fields.
pub open spec fn same_data(a: HarStore, b: HarStore) -> bool {
    &&& a.file_bytes == b.file_bytes
    &&& a.entries@ == b.entries@
    &&& a.entry_ranges@ == b.entry_ranges@
    &&& a.details@ == b.details@
    &&& a.stats == b.stats
}

impl HarStore {
    /// Forgets the loaded file and its entries. The filter and the sort
    /// order stay.
    pub fn clear(&mut self)
        ensures
            final(self).file_bytes is None,
            final(self).entries@.len() == 0,
            final(self).entry_ranges@.len() == 0,
            final(self).selected_row is None,
            final(self).active_tab == InspectorTab::Request,
            final(self).details@ == Map::<usize, EntryDetail>::empty(),
            final(self).stats is None,
            !final(self).indexing,
            final(self).indexing_progress == progress_none(),
            final(self).error is None,
            final(self).filter == old(self).filter,
            final(self).sort == old(self).sort,
    {
        self.file_bytes = None;
        self.entries.clear();
        self.entry_ranges.clear();
        self.selected_row = None;
        self.active_tab = InspectorTab::Request;
        self.details.clear();
        self.stats = None;
        self.indexing = false;
        self.indexing_progress = IndexProgress { done: 0, total: 1 };
        self.error = None;
    }

    /// Clears the store and marks indexing as running.
    pub fn begin_indexing(&mut self)
        ensures
            final(self).file_bytes is None,
            final(self).entries@.len() == 0,
            final(self).entry_ranges@.len() == 0,
            final(self).selected_row is None,
            final(self).active_tab == InspectorTab::Request,
            final(self).details@ == Map::<usize, EntryDetail>::empty(),
            final(self).stats is None,
            final(self).indexing,
            final(self).indexing_progress == progress_none(),
            final(self).error is None,
            final(self).filter == old(self).filter,
            final(self).sort == old(self).sort,
    {
        self.clear();
        self.indexing = true;
    }

    /// Records how far indexing has come.
    pub fn set_progress(&mut self, done: usize, total: usize)
        ensures
            final(self).indexing_progress == (IndexProgress { done, total }),
            same_data(*final(self), *old(self)),
            final(self).selected_row == old(self).selected_row,
            final(self).active_tab == old(self).active_tab,
            final(self).filter == old(self).filter,
            final(self).sort == old(self).sort,
            final(self).indexing == old(self).indexing,
            final(self).error == old(self).error,
    {
        self.indexing_progress = IndexProgress { done, total };
    }

    /// Takes over a finished index of `bytes`: its entries and ranges, with
    /// the first entry selected when there is one.
    pub fn set_index_result(&mut self, bytes: Arc<Vec<u8>>, result: IndexResult)
        ensures
            final(self).file_bytes == Some(bytes),
            final(self).entries@ == result.summaries@,
            final(self).entry_ranges@ == result.ranges@,
            final(self).stats == Some(result.stats),
            final(self).details@ == Map::<usize, EntryDetail>::empty(),
            final(self).selected_row == if result.summaries@.len() == 0 {
                None
            } else {
                Some(0usize)
            },
            !final(self).indexing,
            final(self).indexing_progress == progress_complete(),
            final(self).error is None,
            final(self).active_tab == old(self).active_tab,
            final(self).filter == old(self).filter,
            final(self).sort == old(self).sort,
    {
        self.file_bytes = Some(bytes);
        self.entries = result.summaries;
        self.entry_ranges = result.ranges;
        self.stats = Some(result.stats);
        self.details.clear();
        self.selected_row = if self.entries.len() == 0 {
            None
        } else {
            Some(0)
        };
        self.indexing = false;
        self.indexing_progress = IndexProgress { done: 1, total: 1 };
        self.error = None;
    }

    /// Records a failure: indexing stops and the message is kept.
    pub fn set_error(&mut self, message: String)
        ensures
            !final(self).indexing,
            final(self).error == Some(message),
            same_data(*final(self), *old(self)),
            final(self).selected_row == old(self).selected_row,
            final(self).active_tab == old(self).active_tab,
            final(self).filter == old(self).filter,
            final(self).sort == old(self).sort,
            final(self).indexing_progress == old(self).indexing_progress,
    {
        self.indexing = false;
        self.error = Some(message);
    }

    /// The rows on show: those the filter accepts, in sort order. Rows are
    /// ordered by the sorted column, then by entry id, both ascending or both
    /// descending with the sort; rows equal on column and id keep file order.
    pub fn visible_indices(&self) -> (v: Vec<usize>)
        ensures
            v@.to_multiset() == matching_rows(self.entries@, self.filter).to_multiset(),
            sorted_rows(self.entries@, self.sort, v@),
            in_rows(v@, self.entries@.len() as int),
            forall|i: usize| #[trigger] v@.contains(i) <==> (i < self.entries@.len() && accepts(
                self.filter,
                self.entries@[i as int],
            )),
            self.sort.column is Status && self.sort.direction is Asc ==> forall|a: int, b: int|
                0 <= a < b < v@.len() ==> self.entries@[#[trigger] v@[a] as int].status
                    <= self.entries@[#[trigger] v@[b] as int].status,
            self.sort.column is Status && self.sort.direction is Desc ==> forall|a: int, b: int|
                0 <= a < b < v@.len() ==> self.entries@[#[trigger] v@[a] as int].status
                    >= self.entries@[#[trigger] v@[b] as int].status,
    {
        broadcast use vstd::seq_lib::group_to_multiset_ensures;

        let mut visible: Vec<usize> = Vec::new();
        let mut i: usize = 0;
        while i < self.entries.len()
            invariant
                i <= self.entries.len(),
                visible@ == matching_upto(self.entries@, self.filter, i as int),
                in_rows(visible@, i as int),
            decreases self.entries.len() - i,
        {
            if self.filter.matches(&self.entries[i]) {
                visible.push(i);
            }
            i = i + 1;
        }
        let v = sort_rows(&self.entries, self.sort, visible);
        proof {
            assert forall|i: usize| #[trigger] v@.contains(i) <==> (i < self.entries@.len()
                && accepts(self.filter, self.entries@[i as int])) by {
                law_visible_rows_are_accepted_rows(self.entries@, self.filter, i);
                assert(v@.to_multiset().count(i) == matching_rows(self.entries@, self.filter).to_multiset().count(i));
            }
            if self.sort.column is Status {
                assert forall|a: int, b: int| 0 <= a < b < v@.len() implies (self.sort.direction is Asc
                    ==> self.entries@[v@[a] as int].status <= self.entries@[v@[b] as int].status)
                    && (self.sort.direction is Desc ==> self.entries@[v@[a] as int].status
                    >= self.entries@[v@[b] as int].status) by {
                    law_status_sort_lists_statuses_in_order(self.entries@, self.sort.direction, v@, a, b);
                }
            }
        }
        v
    }

    /// Sorts by `column`: ascending when it is a new column, the other
    /// direction when it is the current one.
    pub fn toggle_sort(&mut self, column: SortColumn)
        ensures
            final(self).sort == toggled(old(self).sort, column),
            same_data(*final(self), *old(self)),
            final(self).selected_row == old(self).selected_row,
            final(self).active_tab == old(self).active_tab,
            final(self).filter == old(self).filter,
            final(self).indexing == old(self).indexing,
            final(self).indexing_progress == old(self).indexing_progress,
            final(self).error == old(self).error,
    {
        if self.sort.column == column {
            self.sort.direction = match self.sort.direction {
                SortDirection::Asc => SortDirection::Desc,
                SortDirection::Desc => SortDirection::Asc,
            };
        } else {
            self.sort.column = column;
            self.sort.direction = SortDirection::Asc;
        }
    }

    /// The summary of the selected entry.
    pub fn selected_summary(&self) -> (r: Option<&EntrySummary>)
        ensures
            r == match self.selected_row {
                Some(i) => if i < self.entries@.len() {
                    Some(&self.entries@[i as int])
                } else {
                    None
                },
                None => None,
            },
    {
        match self.selected_row {
            Some(i) => if i < self.entries.len() {
                Some(&self.entries[i])
            } else {
                None
            },
            None => None,
        }
    }

    /// The loaded detail of the selected entry.
    pub fn selected_detail(&self) -> (r: Option<&EntryDetail>)
        ensures
            r == match self.selected_row {
                Some(i) => if self.details@.contains_key(i) {
                    Some(&self.details@[i])
                } else {
                    None
                },
                None => None,
            },
    {
        match self.selected_row {
            Some(i) => self.details.get(&i),
            None => None,
        }
    }

    /// The selected entry when its detail still has to be loaded, with its
    /// byte range: there is a file, the entry has a range, and no detail of
    /// it is loaded yet.
    pub fn pending_detail(&self) -> (r: Option<(usize, EntryRange)>)
        ensures
            r == match self.selected_row {
                Some(i) => if !self.details@.contains_key(i) && self.file_bytes is Some && i
                    < self.entry_ranges@.len() {
                    Some((i, self.entry_ranges@[i as int]))
                } else {
                    None
                },
                None => None,
            },
    {
        let selected = match self.selected_row {
            Some(i) => i,
            None => {
                return None;
            },
        };
        if self.details.contains_key(&selected) {
            return None;
        }
        if self.file_bytes.is_none() {
            return None;
        }
        if selected < self.entry_ranges.len() {
            Some((selected, self.entry_ranges[selected]))
        } else {
            None
        }
    }

    /// Keeps the loaded detail of entry `index`.
    pub fn insert_detail(&mut self, index: usize, detail: EntryDetail)
        ensures
            final(self).details@ == old(self).details@.insert(index, detail),
            final(self).file_bytes == old(self).file_bytes,
            final(self).entries@ == old(self).entries@,
            final(self).entry_ranges@ == old(self).entry_ranges@,
            final(self).stats == old(self).stats,
            final(self).selected_row == old(self).selected_row,
            final(self).active_tab == old(self).active_tab,
            final(self).filter == old(self).filter,
            final(self).sort == old(self).sort,
            final(self).indexing == old(self).indexing,
            final(self).indexing_progress == old(self).indexing_progress,
            final(self).error == old(self).error,
    {
        self.details.insert(index, detail);
    }

    /// The byte range of the selected entry.
    pub fn selected_range(&self) -> (r: Option<EntryRange>)
        ensures
            r == match self.selected_row {
                Some(i) => if i < self.entry_ranges@.len() {
                    Some(self.entry_ranges@[i as int])
                } else {
                    None
                },
                None => None,
            },
    {
        match self.selected_row {
            Some(i) => if i < self.entry_ranges.len() {
                Some(self.entry_ranges[i])
            } else {
                None
            },
            None => None,
        }
    }

    /// Moves the selection `delta` rows through the visible rows (up when
    /// negative), stopping at the first and the last; no rows, no selection.
    pub fn move_selection(&mut self, delta: isize, visible: &[usize])
        ensures
            final(self).selected_row == moved_selection(old(self).selected_row, delta as int, visible@),
            same_data(*final(self), *old(self)),
            final(self).active_tab == old(self).active_tab,
            final(self).filter == old(self).filter,
            final(self).sort == old(self).sort,
            final(self).indexing == old(self).indexing,
            final(self).indexing_progress == old(self).indexing_progress,
            final(self).error == old(self).error,
    {
        if visible.len() == 0 {
            self.selected_row = None;
            return;
        }
        let current_position: usize = match self.selected_row {
            Some(selected) => {
                let mut k: usize = 0;
                while k < visible.len() && visible[k] != selected
                    invariant
                        k <= visible.len(),
                        forall|j: int| 0 <= j < k ==> visible@[j] != selected,
                    decreases visible.len() - k,
                {
                    k = k + 1;
                }
                proof {
                    lemma_position(visible@, selected);
                }
                if k < visible.len() {
                    k
                } else {
                    0
                }
            },
            None => 0,
        };
        let last = visible.len() - 1;
        let next_position: usize = if delta < 0 {
            let magnitude: usize = ((0 - (delta + 1)) as usize) + 1;
            if magnitude > current_position {
                0
            } else {
                current_position - magnitude
            }
        } else {
            let step = current_position.saturating_add(delta as usize);
            if step > last {
                last
            } else {
                step
            }
        };
        self.selected_row = Some(visible[next_position]);
    }
}

/// The sort order after clicking `column`.
pub open spec fn toggled(sort: SortConfig, column: SortColumn) -> SortConfig {
    if sort.column == column {
        SortConfig {
            column,
            direction: match sort.direction {
                SortDirection::Asc => SortDirection::Desc,
                SortDirection::Desc => SortDirection::Asc,
            },
        }
    } else {
        SortConfig { column, direction: SortDirection::Asc }
    }
}

/// Law: a detail kept for the selected entry is the one the inspector reads.
pub proof fn law_selected_detail_reads_inserted(before: HarStore, after: HarStore, index: usize, detail: EntryDetail)
    requires
        after.details@ == before.details@.insert(index, detail),
        after.selected_row == before.selected_row,
        before.selected_row == Some(index),
    ensures
        after.details@.contains_key(index),
        after.details@[index] == detail,
{
}

/// Law: clicking the sorted column twice restores the sort order.
pub proof fn law_toggle_twice_restores(sort: SortConfig)
    ensures
        toggled(toggled(sort, sort.column), sort.column) == sort,
{
}

/// Law: clicking a new column sorts by it ascending; clicking the sorted
/// column keeps it and turns the direction round.
pub proof fn law_toggle_sort(sort: SortConfig, column: SortColumn)
    ensures
        toggled(sort, column).column == column,
        column != sort.column ==> toggled(sort, column).direction is Asc,
        column == sort.column ==> toggled(sort, column).direction != sort.direction,
{
}

/// Law: after a move on non-empty visible rows, the selection is one of them.
pub proof fn law_selection_stays_visible(selected: Option<usize>, delta: int, visible: Seq<usize>)
    requires
        visible.len() > 0,
    ensures
        moved_selection(selected, delta, visible) matches Some(row) && visible.contains(row),
{
    let current = match selected {
        Some(sel) => match position(visible, sel) {
            Some(p) => p,
            None => 0,
        },
        None => 0,
    };
    match selected {
        Some(sel) => lemma_position(visible, sel),
        None => {},
    }
    let p = moved_position(current, delta, visible.len() as int);
    assert(0 <= p < visible.len());
}

/// Law: a move by zero rows keeps a visible selection where it is.
pub proof fn law_move_by_zero_keeps_selection(row: usize, visible: Seq<usize>)
    requires
        visible.contains(row),
    ensures
        moved_selection(Some(row), 0, visible) == Some(row),
{
    lemma_position(visible, row);
}

/// Law: a move goes `delta` rows on from the first place where the selected
/// row is shown, stopping at the first and the last row.
pub proof fn law_move_from_selected_row(row: usize, delta: int, visible: Seq<usize>, p: int)
    requires
        0 <= p < visible.len(),
        visible[p] == row,
        forall|k: int| 0 <= k < p ==> visible[k] != row,
    ensures
        0 <= p + delta < visible.len() ==> moved_selection(Some(row), delta, visible) == Some(
            visible[p + delta],
        ),
        p + delta >= visible.len() ==> moved_selection(Some(row), delta, visible) == Some(
            visible.last(),
        ),
        p + delta < 0 ==> moved_selection(Some(row), delta, visible) == Some(visible[0]),
{
    lemma_position(visible, row);
    if position(visible, row) is None {
        assert(visible[p] != row);
    }
    let q = position(visible, row)->0;
    if q < p {
        assert(visible[q] != row);
    }
    if q > p {
        assert(visible[p] != row);
    }
}

/// Law: with no selection, or one that is not shown, a move counts from the
/// first row; with nothing shown, nothing is selected.
pub proof fn law_move_without_visible_selection(selected: Option<usize>, delta: int, visible: Seq<usize>)
    requires
        selected matches Some(row) ==> !visible.contains(row),
    ensures
        visible.len() == 0 ==> moved_selection(selected, delta, visible) is None,
        0 <= delta < visible.len() ==> moved_selection(selected, delta, visible) == Some(
            visible[delta],
        ),
        visible.len() > 0 && delta >= visible.len() ==> moved_selection(selected, delta, visible)
            == Some(visible.last()),
        visible.len() > 0 && delta < 0 ==> moved_selection(selected, delta, visible) == Some(
            visible[0],
        ),
{
    match selected {
        Some(row) => {
            lemma_position(visible, row);
            if position(visible, row) is Some {
                assert(visible.contains(row));
            }
        },
        None => {},
    }
}

proof fn lemma_matching_upto(es: Seq<EntrySummary>, q: FilterQuery, n: int)
    requires
        0 <= n <= es.len(),
        forall|i: int| 0 <= i < n ==> accepts(q, #[trigger] es[i]),
    ensures
        matching_upto(es, q, n) == Seq::new(n as nat, |i: int| i as usize),
    decreases n,
{
    if n > 0 {
        lemma_matching_upto(es, q, n - 1);
        assert(matching_upto(es, q, n) =~= Seq::new(n as nat, |i: int| i as usize));
    }
}

proof fn lemma_matching_upto_members(es: Seq<EntrySummary>, q: FilterQuery, n: int)
    requires
        0 <= n <= es.len(),
        es.len() <= usize::MAX,
    ensures
        forall|x: usize| #[trigger] matching_upto(es, q, n).contains(x) <==> (x < n && accepts(q, es[x as int])),
    decreases n,
{
    if n > 0 {
        lemma_matching_upto_members(es, q, n - 1);
        let prev = matching_upto(es, q, n - 1);
        assert forall|x: usize| #[trigger] matching_upto(es, q, n).contains(x) <==> (x < n && accepts(q, es[x as int])) by {
            assert(prev.contains(x) <==> (x < n - 1 && accepts(q, es[x as int])));
            if accepts(q, es[n - 1]) {
                let cur = prev.push((n - 1) as usize);
                assert(matching_upto(es, q, n) == cur);
                if cur.contains(x) {
                    let k = choose|k: int| 0 <= k < cur.len() && cur[k] == x;
                    if k < prev.len() {
                        assert(prev[k] == x);
                    }
                }
                if x < n && accepts(q, es[x as int]) {
                    if x == n - 1 {
                        assert(cur[prev.len() as int] == x);
                    } else {
                        assert(prev.contains(x));
                        let k = choose|k: int| 0 <= k < prev.len() && prev[k] == x;
                        assert(cur[k] == prev[k]);
                    }
                }
            }
        }
    }
}

/// Law: a row is among the visible ones exactly when the filter accepts it.
pub proof fn law_visible_rows_are_accepted_rows(es: Seq<EntrySummary>, q: FilterQuery, i: usize)
    requires
        es.len() <= usize::MAX,
    ensures
        matching_rows(es, q).contains(i) <==> (i < es.len() && accepts(q, es[i as int])),
{
    lemma_matching_upto_members(es, q, es.len() as int);
}

/// Law: when the filter accepts every row, every row is visible: the rows
/// on show are all indices, each once.
pub proof fn law_accepting_filter_shows_all(es: Seq<EntrySummary>, q: FilterQuery)
    requires
        forall|i: int| 0 <= i < es.len() ==> accepts(q, #[trigger] es[i]),
    ensures
        matching_rows(es, q) == Seq::new(es.len(), |i: int| i as usize),
{
    lemma_matching_upto(es, q, es.len() as int);
}

} // verus!
