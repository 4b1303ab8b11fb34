use lazylog::decode_syslog;

#[test]
fn test_decode_syslog() {
    let input = r"I \M-b\M^]\M-$\M-o\M-8\M^O syslog \M-B\M-/\134_(\M-c\M^C\M^D)_/\M-B\M-/ \M-l\M^F\240!";
    let expected = "I ❤️ syslog ¯\\_(ツ)_/¯ 솠!";
    let result = decode_syslog(input);
    assert_eq!(result, expected);
}

#[test]
fn test_decode_syslog_no_encoding() {
    let input = "This is a normal log line";
    let result = decode_syslog(input);
    assert_eq!(result, input);
}

#[test]
fn test_decode_syslog_backslash() {
    let input = r"test\134backslash";
    let expected = r"test\backslash";
    let result = decode_syslog(input);
    assert_eq!(result, expected);
}

#[test]
fn short_tail_backslash_passes_through() {
    assert_eq!(decode_syslog(r"ab\"), r"ab\");
    assert_eq!(decode_syslog(r"\xy"), r"\xy");
}

#[test]
fn unknown_escape_passes_through() {
    assert_eq!(decode_syslog(r"a\Qbcd"), r"a\Qbcd");
}
