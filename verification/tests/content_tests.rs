use lazylog::WrappingMode;
use lazylog::content_into_lines;
use lazylog::wrap_content_to_lines;
use lazylog::calculate_content_width;
use lazylog::sanitize_control_chars;

#[test]
fn content_line_maker_test_empty_content() {
    let result = wrap_content_to_lines("", 10);
    assert_eq!(result.len(), 0);
}

#[test]
fn content_line_maker_test_zero_width() {
    let result = wrap_content_to_lines("hello", 0);
    assert_eq!(result.len(), 0);
}

#[test]
fn content_line_maker_test_short_content() {
    let result = wrap_content_to_lines("hello", 10);
    assert_eq!(result.len(), 1);
    assert_eq!(result[0].to_string(), "hello");
}

#[test]
fn content_line_maker_test_exact_width() {
    let result = wrap_content_to_lines("hello", 5);
    assert_eq!(result.len(), 1);
    assert_eq!(result[0].to_string(), "hello");
}

#[test]
fn content_line_maker_test_long_content() {
    let result = wrap_content_to_lines("hello world", 5);
    assert_eq!(result.len(), 3);
    assert_eq!(result[0].to_string(), "hello");
    assert_eq!(result[1].to_string(), " worl");
    assert_eq!(result[2].to_string(), "d");
}

#[test]
fn content_line_maker_test_newline_handling() {
    let result = wrap_content_to_lines("hello\nworld", 10);
    assert_eq!(result.len(), 2);
    assert_eq!(result[0].to_string(), "hello");
    assert_eq!(result[1].to_string(), "world");
}

#[test]
fn content_line_maker_test_multiple_newlines() {
    let result = wrap_content_to_lines("hello\n\nworld", 10);
    assert_eq!(result.len(), 3);
    assert_eq!(result[0].to_string(), "hello");
    assert_eq!(result[1].to_string(), "");
    assert_eq!(result[2].to_string(), "world");
}

#[test]
fn content_line_maker_test_very_long_content() {
    let result = wrap_content_to_lines("this is a very long line that needs to be wrapped", 10);
    assert_eq!(result.len(), 5);
    assert_eq!(result[0].to_string(), "this is a ");
    assert_eq!(result[1].to_string(), "very long ");
    assert_eq!(result[2].to_string(), "line that ");
    assert_eq!(result[3].to_string(), "needs to b");
    assert_eq!(result[4].to_string(), "e wrapped");
}

#[test]
fn content_line_maker_test_arrange_content_wrapped() {
    let result = content_into_lines("hello world", 5, WrappingMode::Wrapped);
    assert_eq!(result.len(), 3);
    assert_eq!(result[0].to_string(), "hello");
    assert_eq!(result[1].to_string(), " worl");
    assert_eq!(result[2].to_string(), "d");
}

#[test]
fn content_line_maker_test_arrange_content_unwrapped() {
    let result = content_into_lines("hello world\nsecond line", 5, WrappingMode::Unwrapped);
    assert_eq!(result.len(), 2);
    assert_eq!(result[0].to_string(), "hello world");
    assert_eq!(result[1].to_string(), "second line");
}

#[test]
fn content_line_maker_test_arrange_content_unwrapped_with_long_lines() {
    let result = content_into_lines(
        "this is a very long line that exceeds width\nshort",
        10,
        WrappingMode::Unwrapped,
    );
    assert_eq!(result.len(), 2);
    assert_eq!(result[0].to_string(), "this is a very long line that exceeds width");
    assert_eq!(result[1].to_string(), "short");
}

#[test]
fn content_line_maker_test_arrange_content_truncated() {
    let result = content_into_lines("hello world", 5, WrappingMode::Truncated);
    assert_eq!(result.len(), 1);
    assert_eq!(result[0].to_string(), "hel..");
}

#[test]
fn content_line_maker_test_arrange_content_truncated_short() {
    let result = content_into_lines("hi", 5, WrappingMode::Truncated);
    assert_eq!(result.len(), 1);
    assert_eq!(result[0].to_string(), "hi");
}

#[test]
fn content_line_maker_test_arrange_content_truncated_exact() {
    let result = content_into_lines("hello", 5, WrappingMode::Truncated);
    assert_eq!(result.len(), 1);
    assert_eq!(result[0].to_string(), "hello");
}

#[test]
fn content_line_maker_test_arrange_content_truncated_multiline() {
    let result = content_into_lines("hello world\nsecond line", 5, WrappingMode::Truncated);
    assert_eq!(result.len(), 1);
    assert_eq!(result[0].to_string(), "hel..");
}

#[test]
fn content_line_maker_test_arrange_content_truncated_zero_width() {
    let result = content_into_lines("hello", 0, WrappingMode::Truncated);
    assert_eq!(result.len(), 1);
    assert_eq!(result[0].to_string(), "");
}

#[test]
fn test_sanitize_control_chars() {
    let result = sanitize_control_chars("hello\rworld");
    assert_eq!(result, "helloworld");
}

#[test]
fn test_sanitize_preserves_newline_and_tab() {
    let result = sanitize_control_chars("hello\nworld\ttab");
    assert_eq!(result, "hello\nworldtab");
}

#[test]
fn test_sanitize_removes_ansi_escape() {
    let result = sanitize_control_chars("hello\x1b[31mworld");
    assert_eq!(result, "helloworld");
}

#[test]
fn test_sanitize_removes_ansi_with_reset() {
    let result = sanitize_control_chars("hello\x1b[31mred\x1b[0mworld");
    assert_eq!(result, "helloredworld");
}

#[test]
fn width_is_the_longest_line() {
    assert_eq!(calculate_content_width("ab\nlonger line\nc"), 11);
    assert_eq!(calculate_content_width(""), 0);
}

#[test]
fn width_ignores_ansi_escapes() {
    assert_eq!(calculate_content_width("\x1b[31mred\x1b[0m"), 3);
}
