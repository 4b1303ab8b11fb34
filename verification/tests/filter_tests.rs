use lazylog::FilterEngine;
use lazylog::DyehLogFormatter;
use lazylog::LogItem;

fn entry(content: &str) -> LogItem {
    LogItem::new(content.to_string(), content.to_string())
}

fn sample_entries() -> Vec<LogItem> {
    vec![
        entry("alpha error one"),
        entry("beta warning"),
        entry("gamma ERROR two"),
        entry("delta info"),
        entry("epsilon erroneous"),
    ]
}

#[test]
fn empty_query_returns_all_indices() {
    let mut engine = FilterEngine::new();
    let fmt = DyehLogFormatter::new();
    let logs = sample_entries();
    let result = engine.filter(&fmt, &logs, "", 0);
    assert_eq!(result, vec![0, 1, 2, 3, 4]);
}

#[test]
fn substring_match_is_case_insensitive() {
    let mut engine = FilterEngine::new();
    let fmt = DyehLogFormatter::new();
    let logs = sample_entries();
    let result = engine.filter(&fmt, &logs, "error", 0);
    assert_eq!(result, vec![0, 2]);
    let mut engine2 = FilterEngine::new();
    let shouting = engine2.filter(&fmt, &logs, "ERROR", 0);
    assert_eq!(shouting, vec![0, 2]);
}

#[test]
fn extending_the_query_narrows_the_result() {
    let mut engine = FilterEngine::new();
    let fmt = DyehLogFormatter::new();
    let logs = sample_entries();
    let broad = engine.filter(&fmt, &logs, "err", 0);
    assert_eq!(broad, vec![0, 2, 4]);
    let narrow = engine.filter(&fmt, &logs, "error", 0);
    assert_eq!(narrow, vec![0, 2]);
    for idx in &narrow {
        assert!(broad.contains(idx));
    }
    let mut fresh = FilterEngine::new();
    let from_scratch = fresh.filter(&fmt, &logs, "error", 0);
    assert_eq!(narrow, from_scratch);
}

#[test]
fn repeating_the_same_query_is_idempotent() {
    let mut engine = FilterEngine::new();
    let fmt = DyehLogFormatter::new();
    let logs = sample_entries();
    let first = engine.filter(&fmt, &logs, "err", 0);
    let second = engine.filter(&fmt, &logs, "err", 0);
    assert_eq!(first, second);
}

#[test]
fn changed_query_rescans_everything() {
    let mut engine = FilterEngine::new();
    let fmt = DyehLogFormatter::new();
    let logs = sample_entries();
    let _ = engine.filter(&fmt, &logs, "warning", 0);
    let result = engine.filter(&fmt, &logs, "info", 0);
    assert_eq!(result, vec![3]);
}

#[test]
fn incremental_new_logs_match_full_rescan() {
    let fmt = DyehLogFormatter::new();
    let mut logs = sample_entries();
    let mut engine = FilterEngine::new();
    let _ = engine.filter(&fmt, &logs, "err", 0);
    let old_count = logs.len();
    logs.push(entry("zeta error three"));
    logs.push(entry("eta calm"));
    logs.push(entry("theta Error four"));
    let incremental = engine.filter_new_logs(&fmt, &logs, old_count, "err", 0);
    let mut fresh = FilterEngine::new();
    let full = fresh.filter(&fmt, &logs, "err", 0);
    assert_eq!(incremental, full);
    assert_eq!(incremental, vec![0, 2, 4, 5, 7]);
}

#[test]
fn new_logs_with_changed_query_fall_back_to_full_filter() {
    let fmt = DyehLogFormatter::new();
    let mut logs = sample_entries();
    let mut engine = FilterEngine::new();
    let _ = engine.filter(&fmt, &logs, "err", 0);
    let old_count = logs.len();
    logs.push(entry("late warning"));
    let result = engine.filter_new_logs(&fmt, &logs, old_count, "warning", 0);
    assert_eq!(result, vec![1, 5]);
}

#[test]
fn new_logs_without_arrivals_return_cache() {
    let fmt = DyehLogFormatter::new();
    let logs = sample_entries();
    let mut engine = FilterEngine::new();
    let first = engine.filter(&fmt, &logs, "err", 0);
    let again = engine.filter_new_logs(&fmt, &logs, logs.len(), "err", 0);
    assert_eq!(first, again);
}

#[test]
fn reset_forgets_the_cache() {
    let fmt = DyehLogFormatter::new();
    let logs = sample_entries();
    let mut engine = FilterEngine::new();
    let _ = engine.filter(&fmt, &logs, "error", 0);
    engine.reset();
    let after = engine.filter(&fmt, &logs, "err", 0);
    assert_eq!(after, vec![0, 2, 4]);
}

#[test]
fn searchable_text_depends_on_detail_level() {
    let fmt = DyehLogFormatter::new();
    let item = LogItem::new("payload".to_string(), "payload".to_string())
        .with_metadata("level", "ERROR");
    let logs = vec![item];
    let mut engine = FilterEngine::new();
    let at_zero = engine.filter(&fmt, &logs, "ERROR", 0);
    assert_eq!(at_zero.len(), 0);
    engine.reset();
    let at_two = engine.filter(&fmt, &logs, "ERROR", 2);
    assert_eq!(at_two, vec![0]);
}

#[test]
fn large_search_space_uses_the_parallel_path() {
    let fmt = DyehLogFormatter::new();
    let mut logs = Vec::new();
    for i in 0..1200 {
        if i % 3 == 0 {
            logs.push(entry("needle entry"));
        } else {
            logs.push(entry("hay"));
        }
    }
    let mut engine = FilterEngine::new();
    let result = engine.filter(&fmt, &logs, "needle", 0);
    assert_eq!(result.len(), 400);
    for idx in &result {
        assert_eq!(idx % 3, 0);
    }
    let mut prev = None;
    for idx in &result {
        if let Some(p) = prev {
            assert!(p < *idx);
        }
        prev = Some(*idx);
    }
}
