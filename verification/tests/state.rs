use std::sync::Arc;

use har_viewer::filter::FilterQuery;
use har_viewer::har::{
    EntryDetail, EntryRange, EntrySummary, IndexResult, IndexStats, TimingBreakdown,
};
use har_viewer::state::sorting::compare_entries;
use har_viewer::state::{
    HarStore, IndexProgress, InspectorTab, Order, SortColumn, SortConfig, SortDirection,
};

fn row(id: usize, started: &str, method: &str, host: &str, status: u16, res: u64, dur: f64) -> EntrySummary {
    EntrySummary {
        id,
        started_at: started.to_string(),
        method: method.to_string(),
        host: host.to_string(),
        path: format!("/{id}"),
        status,
        mime: "text/plain".to_string(),
        req_bytes: 10 * id as u64,
        res_bytes: res,
        duration_ms_bits: dur.to_bits(),
    }
}

fn result(rows: Vec<EntrySummary>) -> IndexResult {
    let n = rows.len();
    IndexResult {
        ranges: (0..n).map(|i| EntryRange { start: 10 * i, end: 10 * i + 5 }).collect(),
        summaries: rows,
        stats: IndexStats { entry_count: n, indexed_bytes: 10 * n },
    }
}

fn detail(status: u16) -> EntryDetail {
    EntryDetail {
        request_method: "GET".to_string(),
        request_path: "/".to_string(),
        request_http_version: "HTTP/1.1".to_string(),
        url: "https://a.test/".to_string(),
        request_headers: Vec::new(),
        request_body: String::new(),
        response_http_version: "HTTP/1.1".to_string(),
        response_status: status,
        response_reason: String::new(),
        response_headers: Vec::new(),
        response_body: String::new(),
        timings: TimingBreakdown {
            blocked_bits: 0,
            dns_bits: 0,
            connect_bits: 0,
            ssl_bits: 0,
            send_bits: 0,
            wait_bits: 0,
            receive_bits: 0,
        },
        server_ip: None,
        connection: None,
    }
}

fn loaded(rows: Vec<EntrySummary>) -> HarStore {
    let mut store = HarStore::default();
    store.begin_indexing();
    store.set_index_result(Arc::new(vec![0u8; 64]), result(rows));
    store
}

fn sample_rows() -> Vec<EntrySummary> {
    vec![
        row(0, "2025-01-01T00:00:02Z", "GET", "b.test", 200, 300, 5.0),
        row(1, "2025-01-01T00:00:01Z", "POST", "a.test", 404, 100, 12.5),
        row(2, "2025-01-01T00:00:03Z", "GET", "c.test", 500, 200, 0.25),
    ]
}

#[test]
fn default_store_is_empty_and_sorted_newest_first() {
    let store = HarStore::default();
    assert!(store.file_bytes.is_none());
    assert!(store.entries.is_empty());
    assert!(store.selected_row.is_none());
    assert_eq!(store.active_tab, InspectorTab::Request);
    assert_eq!(store.filter, FilterQuery::default());
    assert_eq!(store.sort, SortConfig { column: SortColumn::StartedAt, direction: SortDirection::Desc });
    assert_eq!(store.sort, SortConfig::default());
    assert!(!store.indexing);
    assert_eq!(store.indexing_progress, IndexProgress { done: 0, total: 1 });
    assert!(store.error.is_none());
    assert!(store.visible_indices().is_empty());
}

#[test]
fn begin_indexing_clears_but_keeps_filter_and_sort() {
    let mut store = loaded(sample_rows());
    store.filter.text = "get".to_string();
    store.toggle_sort(SortColumn::Host);
    store.set_error("boom".to_string());
    store.begin_indexing();
    assert!(store.indexing);
    assert!(store.entries.is_empty());
    assert!(store.entry_ranges.is_empty());
    assert!(store.file_bytes.is_none());
    assert!(store.stats.is_none());
    assert!(store.error.is_none());
    assert_eq!(store.filter.text, "get");
    assert_eq!(store.sort, SortConfig { column: SortColumn::Host, direction: SortDirection::Asc });
}

#[test]
fn index_result_selects_the_first_entry() {
    let store = loaded(sample_rows());
    assert_eq!(store.selected_row, Some(0));
    assert!(!store.indexing);
    assert_eq!(store.indexing_progress, IndexProgress { done: 1, total: 1 });
    assert_eq!(store.stats, Some(IndexStats { entry_count: 3, indexed_bytes: 30 }));
    assert_eq!(store.selected_summary().map(|s| s.id), Some(0));
    assert_eq!(store.selected_range(), Some(EntryRange { start: 0, end: 5 }));
    let empty = loaded(Vec::new());
    assert_eq!(empty.selected_row, None);
    assert!(empty.selected_summary().is_none());
    assert!(empty.selected_range().is_none());
}

#[test]
fn set_error_stops_indexing_and_keeps_the_rest() {
    let mut store = loaded(sample_rows());
    store.begin_indexing();
    store.set_progress(3, 10);
    store.set_error("Failed reading file".to_string());
    assert!(!store.indexing);
    assert_eq!(store.error.as_deref(), Some("Failed reading file"));
    assert_eq!(store.indexing_progress, IndexProgress { done: 3, total: 10 });
}

#[test]
fn visible_rows_follow_the_sort() {
    let mut store = loaded(sample_rows());
    assert_eq!(store.visible_indices(), vec![2, 0, 1]);
    store.toggle_sort(SortColumn::StartedAt);
    assert_eq!(store.visible_indices(), vec![1, 0, 2]);
    store.toggle_sort(SortColumn::Host);
    assert_eq!(store.visible_indices(), vec![1, 0, 2]);
    store.toggle_sort(SortColumn::Status);
    assert_eq!(store.visible_indices(), vec![0, 1, 2]);
    store.toggle_sort(SortColumn::Status);
    assert_eq!(store.visible_indices(), vec![2, 1, 0]);
    store.toggle_sort(SortColumn::ResBytes);
    assert_eq!(store.visible_indices(), vec![1, 2, 0]);
    store.toggle_sort(SortColumn::Duration);
    assert_eq!(store.visible_indices(), vec![2, 0, 1]);
    store.toggle_sort(SortColumn::ReqBytes);
    assert_eq!(store.visible_indices(), vec![0, 1, 2]);
    store.toggle_sort(SortColumn::Method);
    assert_eq!(store.visible_indices(), vec![0, 2, 1]);
    store.toggle_sort(SortColumn::Method);
    assert_eq!(store.visible_indices(), vec![1, 2, 0]);
}

#[test]
fn descending_is_ascending_reversed_for_distinct_ids() {
    let mut rows = Vec::new();
    for i in 0..40usize {
        rows.push(row(i, "same", if i % 3 == 0 { "GET" } else { "PUT" }, "h", (200 + i % 4) as u16, (i * 7 % 5) as u64, 1.0));
    }
    let mut store = loaded(rows);
    for column in [SortColumn::Method, SortColumn::Status, SortColumn::ResBytes, SortColumn::StartedAt] {
        store.sort = SortConfig { column, direction: SortDirection::Asc };
        let mut up = store.visible_indices();
        store.sort = SortConfig { column, direction: SortDirection::Desc };
        let down = store.visible_indices();
        up.reverse();
        assert_eq!(down, up);
    }
}

#[test]
fn equal_rows_keep_file_order_in_both_directions() {
    let rows = vec![
        row(5, "t", "GET", "h", 200, 1, 1.0),
        row(5, "t", "GET", "h", 200, 1, 1.0),
        row(1, "t", "GET", "h", 200, 1, 1.0),
    ];
    let mut store = loaded(rows);
    store.sort = SortConfig { column: SortColumn::Host, direction: SortDirection::Asc };
    assert_eq!(store.visible_indices(), vec![2, 0, 1]);
    store.sort = SortConfig { column: SortColumn::Host, direction: SortDirection::Desc };
    assert_eq!(store.visible_indices(), vec![0, 1, 2]);
}

#[test]
fn filter_hides_rows() {
    let mut store = loaded(sample_rows());
    store.filter.method = Some("get".to_string());
    assert_eq!(store.visible_indices(), vec![2, 0]);
    store.filter.text = "zzz".to_string();
    assert!(store.visible_indices().is_empty());
}

#[test]
fn toggling_twice_restores_the_sort() {
    let mut store = HarStore::default();
    let before = store.sort;
    store.toggle_sort(before.column);
    assert_eq!(store.sort.direction, SortDirection::Asc);
    store.toggle_sort(before.column);
    assert_eq!(store.sort, before);
}

#[test]
fn selection_moves_within_the_visible_rows() {
    let mut store = loaded(sample_rows());
    let visible = vec![2, 0, 1];
    store.selected_row = Some(0);
    store.move_selection(1, &visible);
    assert_eq!(store.selected_row, Some(1));
    store.move_selection(1, &visible);
    assert_eq!(store.selected_row, Some(1));
    store.move_selection(-1, &visible);
    assert_eq!(store.selected_row, Some(0));
    store.move_selection(-5, &visible);
    assert_eq!(store.selected_row, Some(2));
    store.move_selection(isize::MAX, &visible);
    assert_eq!(store.selected_row, Some(1));
    store.move_selection(isize::MIN, &visible);
    assert_eq!(store.selected_row, Some(2));
    store.move_selection(0, &visible);
    assert_eq!(store.selected_row, Some(2));
    store.selected_row = Some(7);
    store.move_selection(1, &visible);
    assert_eq!(store.selected_row, Some(0));
    store.move_selection(1, &[]);
    assert_eq!(store.selected_row, None);
    store.move_selection(-1, &visible);
    assert_eq!(store.selected_row, Some(2));
}

#[test]
fn details_load_once_for_the_selection() {
    let mut store = loaded(sample_rows());
    assert_eq!(store.pending_detail(), Some((0, EntryRange { start: 0, end: 5 })));
    assert!(store.selected_detail().is_none());
    store.insert_detail(0, detail(201));
    assert_eq!(store.pending_detail(), None);
    assert_eq!(store.selected_detail().map(|d| d.response_status), Some(201));
    store.selected_row = Some(2);
    assert_eq!(store.pending_detail(), Some((2, EntryRange { start: 20, end: 25 })));
    store.selected_row = Some(9);
    assert_eq!(store.pending_detail(), None);
    assert!(HarStore::default().pending_detail().is_none());
}

#[test]
fn compare_entries_orders_by_column_then_id() {
    let a = row(1, "x", "GET", "a", 200, 1, 2.0);
    let b = row(2, "x", "GET", "b", 200, 1, 10.0);
    let asc = |column| SortConfig { column, direction: SortDirection::Asc };
    let desc = |column| SortConfig { column, direction: SortDirection::Desc };
    assert_eq!(compare_entries(&a, &b, asc(SortColumn::Host)), Order::Less);
    assert_eq!(compare_entries(&a, &b, desc(SortColumn::Host)), Order::Greater);
    assert_eq!(compare_entries(&a, &b, asc(SortColumn::Method)), Order::Less);
    assert_eq!(compare_entries(&b, &a, asc(SortColumn::Method)), Order::Greater);
    assert_eq!(compare_entries(&a, &a, desc(SortColumn::Method)), Order::Equal);
    assert_eq!(compare_entries(&a, &b, asc(SortColumn::Duration)), Order::Less);
    let long = row(3, "xx", "GET", "a", 200, 1, 2.0);
    assert_eq!(compare_entries(&a, &long, asc(SortColumn::StartedAt)), Order::Less);
    let accent = row(0, "\u{e9}", "GET", "a", 200, 1, 2.0);
    let zed = row(9, "z", "GET", "a", 200, 1, 2.0);
    assert_eq!(compare_entries(&zed, &accent, asc(SortColumn::StartedAt)), Order::Less);
}
