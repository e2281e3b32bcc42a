use rt_db::config::AppConfig;
use rt_db::data_source::{
    detect_tag_delta, next_retry, parse_current_reading, parse_history_reading, RetryDecision,
    SqlServerDataSource, TagChanges,
};
use rt_db::database::{merge_readings, sanitize_tag, DatabaseManager, StoreAction, TimeSeriesRecord};
use rt_db::sync_service::SyncService;
use rt_db::value::{coerce_value, value_is_finite, ZERO_BITS};

fn b(x: f64) -> u64 {
    x.to_bits()
}

fn rec(ts: i64, tag: &str, v: f64) -> TimeSeriesRecord {
    TimeSeriesRecord { tag_name: tag.to_string(), timestamp: ts, value_bits: b(v) }
}

fn strings(names: &[&str]) -> Vec<String> {
    names.iter().map(|s| s.to_string()).collect()
}

fn manager() -> DatabaseManager {
    DatabaseManager::new("test.duckdb".to_string())
}

#[test]
fn finite_values() {
    assert!(value_is_finite(b(0.0)));
    assert!(value_is_finite(b(-123.25)));
    assert!(!value_is_finite(b(f64::NAN)));
    assert!(!value_is_finite(b(f64::INFINITY)));
    assert!(!value_is_finite(b(f64::NEG_INFINITY)));
}

#[test]
fn non_finite_values_coerce_to_zero() {
    assert_eq!(coerce_value(b(f64::NAN)), b(0.0));
    assert_eq!(coerce_value(b(f64::INFINITY)), b(0.0));
    assert_eq!(coerce_value(b(f64::NEG_INFINITY)), b(0.0));
    assert_eq!(coerce_value(b(2.5)), b(2.5));
    assert_eq!(ZERO_BITS, b(0.0));
}

#[test]
fn sanitize_replaces_and_trims() {
    assert_eq!(sanitize_tag("tag name!"), "tag_name");
    assert_eq!(sanitize_tag("__x__"), "x");
    assert_eq!(sanitize_tag("a.b/c"), "a_b_c");
    assert_eq!(sanitize_tag("123abc"), "tag_123abc");
    assert_eq!(sanitize_tag("!!!"), "unknown_tag");
    assert_eq!(sanitize_tag(""), "unknown_tag");
    assert_eq!(sanitize_tag("温度1"), "温度1");
}

#[test]
fn sanitize_is_deterministic_and_collapses_consistently() {
    // Repeated sanitization yields the same identifier.
    assert_eq!(sanitize_tag("a b!c"), sanitize_tag("a b!c"));
    // Re-sanitizing an identifier leaves it alone.
    for name in ["tag name!", "__x__", "123abc", "!!!", "温度1", ""] {
        let once = sanitize_tag(name);
        assert_eq!(sanitize_tag(&once), once);
    }
    // Names differing only in replaced characters collapse to the same
    // identifier.
    assert_eq!(sanitize_tag("a b"), sanitize_tag("a!b"));
    assert_eq!(sanitize_tag("a b"), "a_b");
    // The manager exposes the same derivation.
    let mgr = manager();
    assert_eq!(mgr.sanitize_column_name("a b"), "a_b");
}

#[test]
fn tag_delta_is_a_set_difference() {
    let known = strings(&["A", "B"]);
    let current = strings(&["B", "C"]);
    let delta: TagChanges = detect_tag_delta(&known, &current);
    assert_eq!(delta.added_tags, strings(&["C"]));
    assert_eq!(delta.removed_tags, strings(&["A"]));
    assert_eq!(delta.current_tags, strings(&["B", "C"]));
}

#[test]
fn tag_delta_dedups_and_keeps_order() {
    let known = strings(&[]);
    let current = strings(&["B", "A", "B"]);
    let delta = detect_tag_delta(&known, &current);
    assert_eq!(delta.added_tags, strings(&["B", "A"]));
    assert_eq!(delta.removed_tags, strings(&[]));
    assert_eq!(delta.current_tags, strings(&["B", "A"]));
}

#[test]
fn history_reading_shifts_and_coerces() {
    // The stored local time shifts back eight hours to UTC.
    let r = parse_history_reading(Some(28800000), Some(" X ".to_string()), Some(b(2.0))).unwrap();
    assert_eq!(r.timestamp, 0);
    assert_eq!(r.tag_name, "X");
    assert_eq!(r.value_bits, b(2.0));
    // A missing value counts as zero; the row is kept.
    let r = parse_history_reading(Some(28800000), Some("X".to_string()), None).unwrap();
    assert_eq!(r.value_bits, b(0.0));
    // A row missing its timestamp or tag is dropped.
    assert!(parse_history_reading(None, Some("X".to_string()), Some(b(1.0))).is_none());
    assert!(parse_history_reading(Some(28800000), None, Some(b(1.0))).is_none());
}

#[test]
fn non_finite_reading_is_stored_as_zero_not_dropped() {
    let r = parse_current_reading(Some("X".to_string()), Some(b(f64::NAN)), 42).unwrap();
    assert_eq!(r.value_bits, b(0.0));
    assert_eq!(r.timestamp, 42);
    let r = parse_current_reading(Some("X".to_string()), Some(b(f64::INFINITY)), 42).unwrap();
    assert_eq!(r.value_bits, b(0.0));
    assert!(parse_current_reading(None, Some(b(1.0)), 42).is_none());
}

#[test]
fn retry_policy_counts_attempts() {
    assert_eq!(next_retry(1, 3, 5), RetryDecision::RetryAfter(5));
    assert_eq!(next_retry(2, 3, 5), RetryDecision::RetryAfter(5));
    assert_eq!(next_retry(3, 3, 5), RetryDecision::GiveUp);
    assert_eq!(next_retry(1, 1, 9), RetryDecision::GiveUp);
}

#[test]
fn merge_groups_by_timestamp_last_write_wins() {
    let records = vec![rec(1, "A", 1.0), rec(1, "A", 2.0), rec(2, "A", 3.0), rec(1, "B", 4.0)];
    let merged = merge_readings(&records);
    assert_eq!(merged.len(), 2);
    assert_eq!(merged[0].timestamp, 1);
    assert_eq!(merged[0].tag_values, vec![("A".to_string(), b(2.0)), ("B".to_string(), b(4.0))]);
    assert_eq!(merged[1].timestamp, 2);
    assert_eq!(merged[1].tag_values, vec![("A".to_string(), b(3.0))]);
}

#[test]
fn upsert_is_idempotent() {
    let mut mgr = manager();
    let batch = vec![rec(1000, "A", 1.0), rec(2000, "B", 2.0)];
    let first = mgr.convert_and_insert_wide(&batch);
    let count_once = mgr.get_record_count();
    let second = mgr.convert_and_insert_wide(&batch);
    // Re-applying the same batch overwrites the same rows with the same
    // values: no new columns, the same stored rows, no double counting.
    assert_eq!(mgr.get_record_count(), count_once);
    let first_upserts: Vec<&StoreAction> = first
        .iter()
        .filter(|a| matches!(a, StoreAction::UpsertRow(_, _)))
        .collect();
    let second_upserts: Vec<&StoreAction> = second.iter().collect();
    assert_eq!(first_upserts, second_upserts);
}

#[test]
fn upsert_fills_unseen_live_tags_with_zero() {
    let mut mgr = manager();
    let acts = mgr.convert_and_insert_wide(&vec![
        rec(1000, "TagA", 1.0),
        rec(1000, "TagB", 2.0),
        rec(2000, "TagA", 3.0),
    ]);
    assert_eq!(
        acts,
        vec![
            StoreAction::AddColumn("TagA".to_string()),
            StoreAction::AddColumn("TagB".to_string()),
            StoreAction::UpsertRow(1000, vec![Some(b(1.0)), Some(b(2.0))]),
            StoreAction::UpsertRow(2000, vec![Some(b(3.0)), Some(b(0.0))]),
        ]
    );
    assert_eq!(mgr.get_record_count(), 2);
    assert_eq!(mgr.get_latest_timestamp(), Some(2000));
}

#[test]
fn columns_never_disappear() {
    let mut mgr = manager();
    mgr.convert_and_insert_wide(&vec![rec(1, "A", 1.0)]);
    assert_eq!(mgr.get_columns(), strings(&["A"]));
    mgr.convert_and_insert_wide(&vec![rec(2, "B", 1.0)]);
    assert_eq!(mgr.get_columns(), strings(&["A", "B"]));
    // Retiring a tag keeps its column.
    let known = mgr.get_known_tags();
    let delta = detect_tag_delta(&known, &strings(&["B", "C"]));
    mgr.handle_tag_changes(&delta);
    assert_eq!(mgr.get_columns(), strings(&["A", "B", "C"]));
    assert_eq!(mgr.get_known_tags(), strings(&["B", "C"]));
}

#[test]
fn retention_trim_keeps_rows_at_or_past_cutoff() {
    let mut mgr = manager();
    mgr.convert_and_insert_wide(&vec![rec(1000, "A", 1.0), rec(2000, "A", 2.0), rec(3000, "A", 3.0)]);
    let (deleted, acts) = mgr.delete_data_before_time(2000);
    assert_eq!(deleted, 1);
    assert_eq!(acts, vec![StoreAction::DeleteBefore(2000)]);
    assert_eq!(mgr.get_record_count(), 2);
    assert_eq!(mgr.get_latest_timestamp(), Some(3000));
    // Rows at or past the cutoff survived; trimming again removes nothing.
    let (deleted, _) = mgr.delete_data_before_time(2000);
    assert_eq!(deleted, 0);
    assert_eq!(mgr.get_record_count(), 2);
}

#[test]
fn cleanup_clears_whole_columns() {
    let mut mgr = manager();
    mgr.convert_and_insert_wide(&vec![rec(1, "A", 1.0), rec(2, "A", 2.0), rec(2, "B", 5.0)]);
    let (count, acts) = mgr.cleanup_removed_tag_data(&strings(&["A"]));
    assert_eq!(count, 2);
    // The rows stay, with the cleared column nulled; the other live tag
    // keeps its zero default from write time.
    assert_eq!(
        acts,
        vec![
            StoreAction::UpsertRow(1, vec![None, Some(b(0.0))]),
            StoreAction::UpsertRow(2, vec![None, Some(b(5.0))]),
        ]
    );
    // A tag without a column changes nothing and yields no actions.
    let (count, acts) = mgr.cleanup_removed_tag_data(&strings(&["NoSuchTag"]));
    assert_eq!((count, acts.len()), (0, 0));
    // Clearing an already-cleared column changes no row: no actions.
    let (count, acts) = mgr.cleanup_removed_tag_data(&strings(&["A"]));
    assert_eq!(count, 2);
    assert!(acts.is_empty());
}

#[test]
fn delete_oldest_keeps_newest_values() {
    let mut mgr = manager();
    mgr.convert_and_insert_wide(&vec![
        rec(1, "A", 1.0),
        rec(2, "A", 2.0),
        rec(3, "A", 3.0),
        rec(4, "A", 4.0),
        rec(5, "A", 5.0),
    ]);
    let (nulled, acts) = mgr.delete_oldest_by_tag("A", 2);
    assert_eq!(nulled, 3);
    // Rows stay; only the three oldest cells are nulled, and only those
    // rows get actions.
    assert_eq!(mgr.get_record_count(), 5);
    assert_eq!(
        acts,
        vec![
            StoreAction::UpsertRow(1, vec![None]),
            StoreAction::UpsertRow(2, vec![None]),
            StoreAction::UpsertRow(3, vec![None]),
        ]
    );
    let (nulled, acts) = mgr.delete_oldest_by_tag("A", 2);
    assert_eq!(nulled, 0);
    assert!(acts.is_empty());
    let (nulled, acts) = mgr.delete_oldest_by_tag("NoSuchTag", 2);
    assert_eq!((nulled, acts.len()), (0, 0));
}

#[test]
fn append_snapshot_stamps_one_row() {
    let mut mgr = manager();
    let acts = mgr.append_latest_tagdb_data(&vec![rec(0, "A", 1.0), rec(0, "A", 7.0)], 1000);
    // One row, keyed by the clock reading; the last value per tag wins.
    assert_eq!(
        acts,
        vec![
            StoreAction::AddColumn("A".to_string()),
            StoreAction::UpsertRow(1000, vec![Some(b(7.0))]),
        ]
    );
    assert_eq!(mgr.get_latest_timestamp(), Some(1000));
    let none = mgr.append_latest_tagdb_data(&vec![], 1000);
    assert!(none.is_empty());
}

#[test]
fn initial_window_is_the_configured_lookback() {
    let svc = service();
    // The default look-back is one hour, ending at the clock reading.
    assert_eq!(svc.initial_window(10_000_000), (10_000_000 - 3_600_000, 10_000_000));
}

fn service() -> SyncService {
    let cfg = AppConfig::default();
    let ds = SqlServerDataSource::new(cfg.clone());
    SyncService::new(cfg, manager(), ds)
}

#[test]
fn initial_load_builds_the_wide_table() {
    let mut svc = service();
    let history = vec![rec(1000, "TagA", 1.0), rec(1000, "TagB", 2.0), rec(2000, "TagA", 3.0)];
    let acts = svc.initial_load(&history, &vec![], &strings(&["TagA", "TagB"]), 2000);
    let status = svc.get_status();
    assert_eq!(status.total_records, 2);
    assert_eq!(status.latest_timestamp, Some(2000));
    assert_eq!(status.last_seen_timestamp, Some(2000));
    // The trim runs over the configured retention window (30 days by
    // default).
    assert_eq!(
        acts,
        vec![
            StoreAction::AddColumn("TagA".to_string()),
            StoreAction::AddColumn("TagB".to_string()),
            StoreAction::UpsertRow(1000, vec![Some(b(1.0)), Some(b(2.0))]),
            StoreAction::UpsertRow(2000, vec![Some(b(3.0)), Some(b(0.0))]),
            StoreAction::DeleteBefore(2000 - 30 * 86400000),
        ]
    );
}

#[test]
fn initial_load_empty_store_uses_clock_cursor() {
    let mut svc = service();
    svc.initial_load(&vec![], &vec![], &strings(&[]), 777);
    let status = svc.get_status();
    assert_eq!(status.total_records, 0);
    assert_eq!(status.latest_timestamp, None);
    assert_eq!(status.last_seen_timestamp, Some(777));
}

#[test]
fn update_cycle_applies_delta_snapshot_and_trim() {
    let mut svc = service();
    svc.initial_load(&vec![rec(1000, "A", 1.0)], &vec![], &strings(&["A"]), 1000);
    let acts = svc.update_cycle(&strings(&["B"]), &vec![rec(0, "B", 5.0)], 10_000);
    let status = svc.get_status();
    // The old row plus the snapshot row keyed by the clock reading.
    assert_eq!(status.total_records, 2);
    assert_eq!(status.last_seen_timestamp, Some(10_000));
    assert_eq!(status.latest_timestamp, Some(10_000));
    // Tag A retired: its column was cleared but the row remains; tag B got
    // a column; the snapshot row leaves the retired column null; the trim
    // uses the configured window.
    assert_eq!(
        acts,
        vec![
            StoreAction::AddColumn("B".to_string()),
            StoreAction::UpsertRow(1000, vec![None, None]),
            StoreAction::UpsertRow(10_000, vec![None, Some(b(5.0))]),
            StoreAction::DeleteBefore(10_000 - 30 * 86400000),
        ]
    );
}

#[test]
fn update_cycle_without_data_keeps_cursor() {
    let mut svc = service();
    svc.initial_load(&vec![rec(1000, "A", 1.0)], &vec![], &strings(&["A"]), 2000);
    svc.update_cycle(&strings(&["A"]), &vec![], 9000);
    let status = svc.get_status();
    assert_eq!(status.last_seen_timestamp, Some(1000));
    assert_eq!(status.total_records, 1);
}
