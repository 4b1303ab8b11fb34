use lazylog::AndroidParser;
use lazylog::AndroidEffectParser;
use lazylog::IosFullParser;
use lazylog::IosEffectParser;
use lazylog::DyehParser;
use lazylog::DyehLogFormatter;
use lazylog::LogItem;
use lazylog::LogParser;
use lazylog::LogItemFormatter;
use lazylog::strip_ios_wrapper;
use lazylog::shorten_content;

#[test]
fn test_parse_android_log_with_empty_tag() {
    let parser = AndroidParser::new();
    let raw_log = r#"[ 11-14 15:48:35.135 20387:30427 E/         ]
## 2025-11-14 15:48:35 [tid:30427,AMGRichTextParser.cpp:861] error ## [AE_TEXT_TAG]GetLetterRangeFromLetterRange, style 1953785196, 'letterRange' param invalid!"#;

    let result = parser.parse(raw_log);
    assert!(result.is_some());

    let item = result.unwrap();
    assert_eq!(item.get_metadata("level").unwrap(), "E");
    assert_eq!(item.get_metadata("tag").unwrap(), "");
}

#[test]
fn test_parse_android_log_with_effect_tag_error() {
    let parser = AndroidParser::new();
    let raw_log = r#"[ 11-14 15:48:35.135 20387:30427 E/[Effect] ]
## 2025-11-14 15:48:35 [tid:30427,AMGRichTextParser.cpp:861] error ## [AE_TEXT_TAG]GetLetterRangeFromLetterRange, style 1953785196, 'letterRange' param invalid!"#;

    let result = parser.parse(raw_log);
    assert!(result.is_some());

    let item = result.unwrap();
    assert_eq!(item.get_metadata("level").unwrap(), "E");
    assert_eq!(item.get_metadata("tag").unwrap(), "[Effect]");
}

#[test]
fn test_parse_android_log_with_effect_tag_info() {
    let parser = AndroidParser::new();
    let raw_log = r#"[ 11-14 15:48:35.131 20387:30427 I/[Effect] ]
## 2025-11-14 15:48:35 [tid:30427,AMGText.cpp:885] info ## [AE_TEXT_TAG]Set Text bloom path: "#;

    let result = parser.parse(raw_log);
    assert!(result.is_some());

    let item = result.unwrap();
    assert_eq!(item.get_metadata("level").unwrap(), "I");
    assert_eq!(item.get_metadata("tag").unwrap(), "[Effect]");
}

#[test]
fn test_parse_android_log_with_space_after_pid() {
    let parser = AndroidParser::new();
    let raw_log = r#"[ 11-14 14:50:22.618  3264: 3264 I/wificond ]
station_bandwidth: "#;

    let result = parser.parse(raw_log);
    assert!(result.is_some());

    let item = result.unwrap();
    assert_eq!(item.get_metadata("level").unwrap(), "I");
    assert_eq!(item.get_metadata("tag").unwrap(), "wificond");
}

#[test]
fn test_parse_android_log_with_tag_containing_colon() {
    let parser = AndroidParser::new();
    let raw_log = r#"[ 11-14 15:53:49.156 20387:12953 V/unknown:c ]
Prepared frame frame 15."#;

    let result = parser.parse(raw_log);
    assert!(result.is_some());

    let item = result.unwrap();
    assert_eq!(item.get_metadata("level").unwrap(), "V");
    assert_eq!(item.get_metadata("tag").unwrap(), "unknown:c");
}

#[test]
fn test_parse_android_log_with_tag_with_trailing_spaces() {
    let parser = AndroidParser::new();
    let raw_log = r#"[ 11-14 14:50:28.958  2880: 6202 D/Aurogon  ]
 packageName = com.google.android.gms isAllowWakeUpList "#;

    let result = parser.parse(raw_log);
    assert!(result.is_some());

    let item = result.unwrap();
    assert_eq!(item.get_metadata("level").unwrap(), "D");
    assert_eq!(item.get_metadata("tag").unwrap(), "Aurogon");
}

#[test]
fn android_effect_parser_extracts_all_fields() {
    let parser = AndroidEffectParser::new();
    let raw_log = r#"[ 11-14 15:48:35.131 20387:30427 I/[Effect] ]
## 2025-11-14 15:48:35 [tid:30427,AMGText.cpp:885] INFO ## [AE_TEXT_TAG]Set Text bloom path: "#;

    let result = parser.parse(raw_log);
    assert!(result.is_some());

    let item = result.unwrap();

    assert_eq!(item.get_metadata("level"), Some("INFO"));
    assert_eq!(item.get_metadata("origin"), Some("tid:30427,AMGText.cpp:885"));
    assert_eq!(item.get_metadata("tag"), Some("AE_TEXT_TAG"));
    assert_eq!(item.content, "Set Text bloom path:");

    let preview = parser.format_preview(&item, 4);
    assert!(preview.contains("INFO"));
    assert!(preview.contains("tid:30427,AMGText.cpp:885"));
    assert!(preview.contains("AE_TEXT_TAG"));
    assert!(preview.contains("Set Text bloom path:"));
}

#[test]
fn android_effect_parser_drops_fields_with_lowercase_level() {
    // The item-header pattern admits only uppercase levels; a lowercase one
    // leaves the whole remainder as the message with no metadata.
    let parser = AndroidEffectParser::new();
    let raw_log = r#"[ 11-14 15:48:35.131 20387:30427 I/[Effect] ]
## 2025-11-14 15:48:35 [tid:30427,AMGText.cpp:885] info ## [AE_TEXT_TAG]Set Text bloom path: "#;

    let item = parser.parse(raw_log).unwrap();
    assert_eq!(item.get_metadata("level"), None);
    assert_eq!(
        item.content,
        "[tid:30427,AMGText.cpp:885] info ## [AE_TEXT_TAG]Set Text bloom path:"
    );
}

#[test]
fn android_effect_parser_rejects_other_tags() {
    let parser = AndroidEffectParser::new();
    let raw_log = "[ 11-14 15:48:35.135 20387:30427 E/Other ]\n## 2025-11-14 15:48:35 body";
    assert!(parser.parse(raw_log).is_none());
}

#[test]
fn android_effect_parser_requires_structured_marker() {
    let parser = AndroidEffectParser::new();
    let raw_log = "[ 11-14 15:48:35.135 20387:30427 E/[Effect] ]\nplain body";
    assert!(parser.parse(raw_log).is_none());
}

#[test]
fn android_malformed_log_passes_through() {
    let parser = AndroidParser::new();
    let raw_log = "no header at all";
    let item = parser.parse(raw_log).unwrap();
    assert_eq!(item.content, raw_log);
    assert_eq!(item.raw_content, raw_log);
    assert_eq!(item.get_metadata("level"), None);
}

#[test]
fn ios_full_parser_extracts_tag_level_and_message() {
    let parser = IosFullParser::new();
    let raw_log = "Oct 29 11:27:36 EffectCam[6923] <Notice>: hello world";
    let item = parser.parse(raw_log).unwrap();
    assert_eq!(item.get_metadata("tag"), Some("EffectCam"));
    assert_eq!(item.get_metadata("level"), Some("Notice"));
    assert_eq!(item.content, "hello world");
    assert_eq!(item.raw_content, raw_log);
}

#[test]
fn ios_full_parser_short_line_passes_through() {
    let parser = IosFullParser::new();
    let raw_log = "too few parts";
    let item = parser.parse(raw_log).unwrap();
    assert_eq!(item.content, raw_log);
    assert_eq!(item.raw_content, raw_log);
}

#[test]
fn ios_wrapper_strip_exposes_inner_content() {
    let inner = strip_ios_wrapper("Oct 29 11:27:36 EffectCam[6923] <Notice>: [content]").unwrap();
    assert_eq!(inner, "[content]");
    assert!(strip_ios_wrapper("no marker here").is_none());
}

#[test]
fn ios_effect_parser_reassembles_inner_content() {
    let parser = IosEffectParser::new();
    let raw_log = "Oct 29 11:27:36 iPhone EffectCam[6923] <Notice>: \
                   ## 2025-01-15 10:30:00\n[a.rs:1] INFO ## [T]inner message";
    let item = parser.parse(raw_log).unwrap();
    assert_eq!(item.content, "inner message");
    assert_eq!(item.get_metadata("tag"), Some("T"));
}

#[test]
fn ios_effect_parser_filters_unstructured_lines() {
    let parser = IosEffectParser::new();
    assert!(parser.parse("Oct 29 11:27:36 iPhone EffectCam[6923] <Notice>: plain").is_none());
}

#[test]
fn dyeh_parser_takes_first_structured_entry() {
    let parser = DyehParser::new();
    let raw = "## 2025-01-15 10:30:00\n[a.rs:1] INFO ## [T]payload";
    let item = parser.parse(raw).unwrap();
    assert_eq!(item.content, "payload");
    assert_eq!(item.time, "2025-01-15 10:30:00");
}

#[test]
fn dyeh_parser_passes_unstructured_lines_through() {
    let parser = DyehParser::new();
    let raw = "nothing structured";
    let item = parser.parse(raw).unwrap();
    assert_eq!(item.content, raw);
    assert_eq!(item.raw_content, raw);
}

#[test]
fn dyeh_preview_shows_fields_up_to_the_level() {
    let fmt = DyehLogFormatter::new();
    let item = LogItem::with_time(
        "10:30:00".to_string(),
        "body\nsecond".to_string(),
        "raw".to_string(),
    )
    .with_metadata("level", "INFO")
    .with_metadata("tag", "T")
    .with_metadata("origin", "a.rs:1");
    assert_eq!(fmt.format_preview(&item, 0), "body");
    assert_eq!(fmt.format_preview(&item, 1), "[10:30:00] body");
    assert_eq!(fmt.format_preview(&item, 2), "[10:30:00] [INFO] body");
    assert_eq!(fmt.format_preview(&item, 3), "[10:30:00] [INFO] [T] body");
    assert_eq!(fmt.format_preview(&item, 4), "[10:30:00] [INFO] [T] [a.rs:1] body");
    assert_eq!(fmt.get_searchable_text(&item, 2), fmt.format_preview(&item, 2));
    assert_eq!(fmt.make_yank_content(&item), "raw");
    assert_eq!(fmt.max_detail_level(), 4);
}

#[test]
fn empty_fields_leave_no_brackets() {
    let fmt = DyehLogFormatter::new();
    let item = LogItem::with_time(String::new(), "body".to_string(), "raw".to_string());
    assert_eq!(fmt.format_preview(&item, 4), "body");
}

#[test]
fn shorten_content_takes_first_nonempty_line() {
    assert_eq!(shorten_content("\n  \n  first real \nsecond"), "first real");
    assert_eq!(shorten_content("   \n \t "), "   \n \t ");
    assert_eq!(shorten_content("plain"), "plain");
}

#[test]
fn android_yank_combines_time_and_raw() {
    let parser = AndroidParser::new();
    let item = LogItem::with_time("12:00:00".to_string(), "c".to_string(), "r".to_string());
    assert_eq!(parser.make_yank_content(&item), "12:00:00 r");
}

#[test]
fn metadata_insertion_replaces_existing_keys() {
    let item = LogItem::new("c".to_string(), "r".to_string())
        .with_metadata("level", "INFO")
        .with_metadata("level", "ERROR");
    assert_eq!(item.get_metadata("level"), Some("ERROR"));
    assert_eq!(item.get_metadata("missing"), None);
    assert_eq!(item.make_yank_content(), "r");
}
