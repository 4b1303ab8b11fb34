use lazylog::process_delta;
use lazylog::strip_leading_header;
use lazylog::remove_inline_headers;
use lazylog::split_header;

#[test]
fn structured_delta_yields_one_tagged_entry() {
    let delta = "## 2025-01-15 10:30:00\n[main.rs:42] ERROR ## [AUTH]Login failed";
    let items = process_delta(delta);
    assert_eq!(items.len(), 1);
    let item = &items[0];
    assert_eq!(item.content, "Login failed");
    assert_eq!(item.time, "2025-01-15 10:30:00");
    assert_eq!(item.get_metadata("level"), Some("ERROR"));
    assert_eq!(item.get_metadata("origin"), Some("main.rs:42"));
    assert_eq!(item.get_metadata("tag"), Some("AUTH"));
    assert_eq!(item.raw_content, "[main.rs:42] ERROR ## [AUTH]Login failed");
}

#[test]
fn delta_without_delimiter_yields_nothing() {
    let delta = "just a plain line\nanother line with no markers";
    let items = process_delta(delta);
    assert_eq!(items.len(), 0);
}

#[test]
fn empty_delta_yields_nothing() {
    assert_eq!(process_delta("").len(), 0);
    assert_eq!(process_delta("   \n  ").len(), 0);
}

#[test]
fn unmatched_item_header_keeps_whole_message() {
    let delta = "## 2025-01-15 10:30:00\nno header shape here";
    let items = process_delta(delta);
    assert_eq!(items.len(), 1);
    assert_eq!(items[0].content, "no header shape here");
    assert_eq!(items[0].get_metadata("level"), None);
    assert_eq!(items[0].get_metadata("origin"), None);
    assert_eq!(items[0].get_metadata("tag"), None);
}

#[test]
fn two_items_in_source_order() {
    let delta = "## 2025-01-15 10:30:00\n[a.rs:1] INFO ## [T1]first\n\
                 ## 2025-01-15 10:30:05\n[b.rs:2] WARN ## [T2]second";
    let items = process_delta(delta);
    assert_eq!(items.len(), 2);
    assert_eq!(items[0].content, "first");
    assert_eq!(items[0].get_metadata("tag"), Some("T1"));
    assert_eq!(items[1].content, "second");
    assert_eq!(items[1].get_metadata("tag"), Some("T2"));
}

#[test]
fn leading_wrapper_header_is_stripped() {
    let delta = "[2025-01-15 10:30:00.123] [app] ## 2025-01-15 10:30:00\nbody text";
    let items = process_delta(delta);
    assert_eq!(items.len(), 1);
    assert_eq!(items[0].content, "body text");
}

#[test]
fn inline_wrapper_headers_are_removed_as_noise() {
    let delta = "## 2025-01-15 10:30:00\nbefore [2025-01-15 10:30:01.456] [noise] after";
    let items = process_delta(delta);
    assert_eq!(items.len(), 1);
    assert_eq!(items[0].content, "before after");
}

#[test]
fn strip_leading_header_only_at_start() {
    let s = "[2025-01-15 10:30:00.123] [word] rest";
    assert_eq!(strip_leading_header(s), "rest");
    let t = "x [2025-01-15 10:30:00.123] [word] rest";
    assert_eq!(strip_leading_header(t), t);
}

#[test]
fn remove_inline_headers_everywhere() {
    let s = "a [2025-01-15 10:30:00.123] [w] b [2025-01-15 10:30:00.999] [v] c";
    assert_eq!(remove_inline_headers(s), "a b c");
}

#[test]
fn split_header_matches_and_trims() {
    let (origin, level, tag, msg) = split_header("[ tid:7,x.cpp:12 ] ERROR ## [ AE ]  hello  ");
    assert_eq!(origin, "tid:7,x.cpp:12");
    assert_eq!(level, "ERROR");
    assert_eq!(tag, "AE");
    assert_eq!(msg, "hello");
}

#[test]
fn split_header_fallback_on_mismatch() {
    let (origin, level, tag, msg) = split_header("  just some text  ");
    assert_eq!(origin, "");
    assert_eq!(level, "");
    assert_eq!(tag, "");
    assert_eq!(msg, "just some text");
}

#[test]
fn split_header_skips_bom_and_controls() {
    let (origin, level, tag, msg) = split_header("\u{feff}\u{1}[o] E ## [t]m");
    assert_eq!(origin, "o");
    assert_eq!(level, "E");
    assert_eq!(tag, "t");
    assert_eq!(msg, "m");
}

#[test]
fn pause_markers_on_adjacent_lines_merge_into_one_entry() {
    let delta = "a\nb\nbef_effect_onpause_imp(\n\nonpause\n";
    let items = process_delta(delta);
    assert_eq!(items.len(), 1);
    assert_eq!(items[0].content, "DYEH PAUSED");
    assert_eq!(items[0].raw_content, "DYEH PAUSED");
}

#[test]
fn pause_markers_far_apart_stay_separate() {
    let delta = "onpause\nmiddle line one\nmiddle line two\nonpause more\n";
    let items = process_delta(delta);
    assert_eq!(items.len(), 2);
    assert_eq!(items[0].content, "DYEH PAUSED");
    assert_eq!(items[1].content, "DYEH PAUSED");
}

#[test]
fn pause_marker_is_case_insensitive() {
    let items = process_delta("calling OnPause now");
    assert_eq!(items.len(), 1);
    assert_eq!(items[0].content, "DYEH PAUSED");
}

#[test]
fn resume_marker_yields_resumed_entry() {
    let items = process_delta("x bef_effect_onresume_imp ( y");
    assert_eq!(items.len(), 1);
    assert_eq!(items[0].content, "DYEH RESUMED");
}

#[test]
fn events_interleave_with_items_by_source_offset() {
    let delta = "onpause here\n## 2025-01-15 10:30:00\n[a.rs:1] INFO ## [T]msg";
    let items = process_delta(delta);
    assert_eq!(items.len(), 2);
    assert_eq!(items[0].content, "DYEH PAUSED");
    assert_eq!(items[1].content, "msg");
}

#[test]
fn entry_ids_are_distinct() {
    let delta = "## 2025-01-15 10:30:00\na\n## 2025-01-15 10:30:01\nb";
    let items = process_delta(delta);
    assert_eq!(items.len(), 2);
    assert_ne!(items[0].id, items[1].id);
}
