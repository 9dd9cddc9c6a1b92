use artesian::clock::Timestamp;
use artesian::savings::{
    aggregate, load_savings_rollup, log_records, record_savings, stats_dir, totals_fit, TokenSavingsEntry,
    TokenSavingsRollup,
};

fn at(secs: i64, op: &str, returned: usize, baseline: usize) -> TokenSavingsEntry {
    TokenSavingsEntry::at(Timestamp { secs, nanos: 0 }, op, "col", returned, baseline)
}

#[test]
fn entry_fields_correct() {
    let before = std::time::SystemTime::now();
    let entry = TokenSavingsEntry::new("memory.find", "artesian-memory", 40, 200);
    assert_eq!(entry.op, "memory.find");
    assert_eq!(entry.collection, "artesian-memory");
    assert_eq!(entry.returned_tokens, 40);
    assert_eq!(entry.baseline_tokens, 200);
    assert_eq!(entry.saved_tokens, 160);
    let now = before.duration_since(std::time::UNIX_EPOCH).expect("after the epoch").as_secs();
    assert!((entry.ts.secs - now as i64).abs() < 10);
    assert!(entry.ts.nanos < 2_000_000_000);
}

#[test]
fn saved_tokens_saturates_at_zero() {
    let entry = TokenSavingsEntry::new("memory.find", "col", 500, 100);
    assert_eq!(entry.saved_tokens, 0, "returned > baseline must not underflow");
}

#[test]
fn rollup_aggregates_multiple_recalls() {
    let first = record_savings("memory.find", "col", 30, 300, true).expect("tracked");
    let second = record_savings("memory.context", "col", 20, 80, true).expect("tracked");
    let mut rollup = TokenSavingsRollup::new();
    rollup.record(&first);
    rollup.record(&second);

    let rollup = load_savings_rollup(None, Some(rollup), &Vec::new());
    assert_eq!(rollup.totals.calls, 2);
    assert_eq!(rollup.totals.returned_total, 50);
    assert_eq!(rollup.totals.baseline_total, 380);
    assert_eq!(rollup.totals.saved_total, 330, "270 + 60");

    let find_op = rollup.by_op.get("memory.find").expect("memory.find in by_op");
    assert_eq!(find_op.calls, 1);
    assert_eq!(find_op.saved_total, 270);

    let ctx_op = rollup.by_op.get("memory.context").expect("memory.context in by_op");
    assert_eq!(ctx_op.calls, 1);
    assert_eq!(ctx_op.saved_total, 60);
}

#[test]
fn since_filter_excludes_older_entries() {
    let old_entry = at(1_704_067_200, "memory.find", 10, 100);
    assert_eq!(old_entry.saved_tokens, 90);
    let recent = record_savings("loop.recall", "col", 5, 50, true).expect("tracked");
    let since = Timestamp { secs: 1_735_689_600, nanos: 0 };

    let rollup = load_savings_rollup(Some(since), None, &vec![old_entry, recent]);
    assert_eq!(rollup.totals.calls, 1, "only the recent entry should be counted");
    assert_eq!(rollup.by_op.get("loop.recall").map(|o| o.calls), Some(1));
    assert!(!rollup.by_op.contains("memory.find"), "old entry excluded");
}

#[test]
fn returns_empty_rollup_when_no_data() {
    let rollup = load_savings_rollup(None, None, &Vec::new());
    assert_eq!(rollup.totals.calls, 0);
    assert_eq!(rollup.totals.saved_total, 0);
    assert_eq!(rollup.first_ts, None);
}

#[test]
fn untracked_savings_are_not_recorded() {
    assert!(record_savings("memory.find", "col", 1, 2, false).is_none());
}

#[test]
fn aggregation_follows_recording() {
    let log = vec![at(5, "a", 1, 10), at(3, "b", 2, 20), at(9, "a", 30, 3)];
    let all = aggregate(&log, None);
    let mut recorded = TokenSavingsRollup::new();
    for entry in &log {
        recorded.record(entry);
    }
    assert_eq!(all.totals.calls, recorded.totals.calls);
    assert_eq!(all.totals.saved_total, recorded.totals.saved_total);
    assert_eq!(all.totals.saved_total, 9 + 18);
    assert_eq!(all.by_op.keys(), vec!["a", "b"]);
    assert_eq!(all.by_op.get("a").map(|op| op.returned_total), Some(31));
    let late = aggregate(&log, Some(Timestamp { secs: 5, nanos: 0 }));
    assert_eq!(late.totals.calls, 2);
}

#[test]
fn log_records_are_lines_with_something_in_them() {
    assert_eq!(log_records("{\"a\":1}\n\n  \n{\"b\":2}\n"), vec!["{\"a\":1}", "{\"b\":2}"]);
    assert_eq!(log_records("").len(), 0);
}

#[test]
fn stats_go_to_the_configured_directory() {
    assert_eq!(stats_dir(Some("/stats"), Some("/home/me")), "/stats");
    assert!(stats_dir(None, Some("/home/me")).starts_with("/home/me/"));
    assert_ne!(stats_dir(None, None), "");
}

#[test]
fn totals_that_do_not_fit_are_noticed() {
    let log = vec![at(1, "a", usize::MAX, 0), at(2, "a", 1, 0)];
    assert!(!totals_fit(&log, None));
    assert!(totals_fit(&log, Some(Timestamp { secs: 2, nanos: 0 })));
    assert!(totals_fit(&Vec::new(), None));
}

#[test]
fn rollups_know_when_they_are_full() {
    let mut rollup = TokenSavingsRollup::new();
    let entry = at(1, "memory.find", 10, 20);
    assert!(rollup.has_room(&entry));
    rollup.totals.returned_total = u64::MAX - 10;
    assert!(rollup.has_room(&entry));
    rollup.totals.returned_total = u64::MAX - 9;
    assert!(!rollup.has_room(&entry));
}

#[test]
fn totals_are_sums_over_operations() {
    let log = vec![at(1, "old", 7, 9), at(5, "a", 1, 10), at(6, "b", 2, 20), at(9, "a", 30, 3)];
    for since in [None, Some(Timestamp { secs: 5, nanos: 0 })] {
        let rollup = aggregate(&log, since);
        let ops = rollup.by_op.keys();
        assert_eq!(ops.contains(&"old".to_string()), since.is_none());
        let (mut calls, mut returned, mut baseline, mut saved) = (0u64, 0u64, 0u64, 0u64);
        for op in &ops {
            let totals = rollup.by_op.get(op).expect("listed");
            calls += totals.calls;
            returned += totals.returned_total;
            baseline += totals.baseline_total;
            saved += totals.saved_total;
        }
        assert_eq!(rollup.totals.calls, calls);
        assert_eq!(rollup.totals.returned_total, returned);
        assert_eq!(rollup.totals.baseline_total, baseline);
        assert_eq!(rollup.totals.saved_total, saved);
    }
}

#[test]
fn loading_gives_what_was_recorded() {
    let log = vec![at(1, "a", 1, 10), at(2, "b", 5, 6)];
    let mut stored = TokenSavingsRollup::new();
    for entry in &log {
        stored.record(entry);
    }
    let from_store = load_savings_rollup(None, Some(stored), &Vec::new());
    let from_log = load_savings_rollup(None, None, &log);
    assert_eq!(from_store.totals, from_log.totals);
    assert_eq!(from_store.by_op.keys(), from_log.by_op.keys());
    assert_eq!(from_store.totals.calls, 2);
}
