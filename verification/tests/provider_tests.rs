use lazylog::DyehLogProvider;
use lazylog::MetaSnap;
use lazylog::has_changed;
use lazylog::split_by_markers;
use lazylog::is_live_log_name;
use lazylog::select_latest_live_log;
use lazylog::UsageOptions;
use lazylog::LogDetailLevel;
use lazylog::increment_detail_level;
use lazylog::decrement_detail_level;

#[test]
fn split_by_markers_carves_complete_blocks() {
    let text = "garbage ## 2025-01-15 10:30:00 first block\n## 2025-01-15 10:30:01 second";
    let blocks = split_by_markers(text);
    assert_eq!(blocks.len(), 2);
    assert_eq!(blocks[0], "## 2025-01-15 10:30:00 first block");
    assert_eq!(blocks[1], "## 2025-01-15 10:30:01 second");
}

#[test]
fn split_by_markers_without_marker_is_empty() {
    assert_eq!(split_by_markers("no markers at all").len(), 0);
}

#[test]
fn live_log_names_exclude_rotated_files() {
    assert!(is_live_log_name("app.log"));
    assert!(is_live_log_name("app.backup.log"));
    assert!(!is_live_log_name("app.1.log"));
    assert!(!is_live_log_name("app.+12.log"));
    assert!(!is_live_log_name("notes.txt"));
    assert!(!is_live_log_name("log"));
    assert!(is_live_log_name("app.99999999999.log"));
}

#[test]
fn latest_file_wins_and_ties_go_to_the_last() {
    let files = vec![
        ("a.log".to_string(), 5u64),
        ("b.log".to_string(), 9u64),
        ("c.log".to_string(), 9u64),
        ("d.log".to_string(), 2u64),
    ];
    assert_eq!(select_latest_live_log(&files), Some(2));
    let empty: Vec<(String, u64)> = Vec::new();
    assert_eq!(select_latest_live_log(&empty), None);
}

#[test]
fn metadata_snapshots_detect_change() {
    let a = MetaSnap { len: 10, modified_secs: 100, modified_nanos: 0 };
    let b = MetaSnap { len: 12, modified_secs: 100, modified_nanos: 0 };
    assert!(has_changed(&None, &a));
    assert!(!has_changed(&Some(a), &a));
    assert!(has_changed(&Some(a), &b));
}

#[test]
fn provider_reads_only_the_appended_range() {
    let mut p = DyehLogProvider::new("/logs".to_string(), Some("/logs/a.log".to_string()));
    assert_eq!(p.log_file_path, "/logs/a.log");
    let first = MetaSnap { len: 100, modified_secs: 1, modified_nanos: 0 };
    assert_eq!(p.poll_plan(Some(first)), Some((0, 100)));
    assert_eq!(p.poll_plan(Some(first)), None);
    let grown = MetaSnap { len: 150, modified_secs: 2, modified_nanos: 0 };
    assert_eq!(p.poll_plan(Some(grown)), Some((100, 150)));
}

#[test]
fn provider_restarts_after_truncation() {
    let mut p = DyehLogProvider::new("/logs".to_string(), Some("/logs/a.log".to_string()));
    let big = MetaSnap { len: 100, modified_secs: 1, modified_nanos: 0 };
    let _ = p.poll_plan(Some(big));
    let shrunk = MetaSnap { len: 40, modified_secs: 2, modified_nanos: 0 };
    assert_eq!(p.poll_plan(Some(shrunk)), Some((0, 40)));
}

#[test]
fn provider_without_file_uses_placeholder_name() {
    let p = DyehLogProvider::new("/logs".to_string(), None);
    assert_eq!(p.log_file_path, "/logs/__no_log_file_yet__.log");
}

#[test]
fn provider_switches_to_newer_file() {
    let mut p = DyehLogProvider::new("/logs".to_string(), Some("/logs/a.log".to_string()));
    let newer = "/logs/b.log".to_string();
    let decision = p.check_for_newer_log_file(Some(&newer), true);
    assert_eq!(decision, Some("/logs/b.log".to_string()));
    assert_eq!(p.check_for_newer_log_file(Some(&p.log_file_path.clone()), true), None);
    p.switch_to_log_file(newer);
    assert_eq!(p.log_file_path, "/logs/b.log");
    assert_eq!(p.last_len, 0);
}

#[test]
fn usage_options_parse() {
    let none: Vec<String> = Vec::new();
    assert_eq!(UsageOptions::from_args(&none), Ok(UsageOptions::Unset));
    assert_eq!(
        UsageOptions::from_args(&vec!["--ios".to_string()]),
        Ok(UsageOptions::IosFull)
    );
    assert_eq!(
        UsageOptions::from_args(&vec!["-ie".to_string()]),
        Ok(UsageOptions::IosEffect)
    );
    assert_eq!(
        UsageOptions::from_args(&vec!["-a".to_string()]),
        Ok(UsageOptions::Android)
    );
    assert_eq!(
        UsageOptions::from_args(&vec!["--android-effect".to_string()]),
        Ok(UsageOptions::AndroidEffect)
    );
    assert_eq!(
        UsageOptions::from_args(&vec!["--dyeh".to_string()]),
        Ok(UsageOptions::Dyeh)
    );
    assert_eq!(
        UsageOptions::from_args(&vec!["-h".to_string()]),
        Ok(UsageOptions::Help)
    );
    assert!(UsageOptions::from_args(&vec!["--bogus".to_string()]).is_err());
    assert!(UsageOptions::from_args(&vec!["-i".to_string(), "-a".to_string()]).is_err());
}

#[test]
fn detail_levels_cycle_and_clamp() {
    assert_eq!(LogDetailLevel::ContentOnly.cycle_forward(), LogDetailLevel::Basic);
    assert_eq!(LogDetailLevel::Full.cycle_forward(), LogDetailLevel::ContentOnly);
    assert_eq!(LogDetailLevel::ContentOnly.cycle_backward(), LogDetailLevel::Full);
    assert_eq!(LogDetailLevel::Medium.cycle_backward(), LogDetailLevel::Basic);
    assert_eq!(LogDetailLevel::from_u8(2), LogDetailLevel::Medium);
    assert_eq!(LogDetailLevel::from_u8(9), LogDetailLevel::Full);
    assert_eq!(LogDetailLevel::Detailed.as_u8(), 3);
    assert_eq!(LogDetailLevel::from(2u8), LogDetailLevel::Medium);
    assert_eq!(u8::from(LogDetailLevel::Full), 4);
    assert_eq!(increment_detail_level(0, 4), 1);
    assert_eq!(increment_detail_level(4, 4), 4);
    assert_eq!(decrement_detail_level(2), 1);
    assert_eq!(decrement_detail_level(0), 0);
}
