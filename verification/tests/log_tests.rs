use nascraft::decimal::u64_to_dec;
use nascraft::logfile::LogBuffer;
use nascraft::logfile::LogLevel;
use nascraft::logfile::format_line;
use nascraft::logfile::level_label;
use nascraft::logfile::web_label;
use nascraft::logfile::plan_append;
use nascraft::logfile::tail_seek;
use nascraft::logfile::tail_request;
use nascraft::logfile::LOG_CAP;
use nascraft::logfile::DEFAULT_TAIL_BYTES;

#[test]
fn decimal_rendering() {
    assert_eq!(u64_to_dec(0), "0");
    assert_eq!(u64_to_dec(7), "7");
    assert_eq!(u64_to_dec(1234567890), "1234567890");
    assert_eq!(u64_to_dec(u64::MAX), "18446744073709551615");
}

#[test]
fn level_labels() {
    assert_eq!(level_label(LogLevel::Info), "INFO");
    assert_eq!(level_label(LogLevel::Warn), "WARN");
    assert_eq!(level_label(LogLevel::Error), "ERROR");
}

#[test]
fn line_format() {
    let line = format_line(1714000000123, "INFO", "service started");
    assert_eq!(line, "1714000000123 [INFO] service started");
}

#[test]
fn web_label_prefix() {
    assert_eq!(web_label("warn"), "WEB:warn");
    assert_eq!(web_label(""), "WEB:");
}

#[test]
fn append_and_read_back() {
    let mut log = LogBuffer::new();
    log.append_line("first");
    log.append_line("second");
    assert_eq!(log.bytes().as_slice(), b"first\nsecond\n");
    assert_eq!(log.read_tail(LOG_CAP), "first\nsecond\n");
}

#[test]
fn leveled_appends() {
    let mut log = LogBuffer::new();
    log.log_info(10, "a");
    log.log_warn(11, "b");
    log.log_error(12, "c");
    log.append_web_log(13, "debug", "d");
    assert_eq!(
        log.read_tail(LOG_CAP),
        "10 [INFO] a\n11 [WARN] b\n12 [ERROR] c\n13 [WEB:debug] d\n"
    );
}

#[test]
fn empty_line_appends_newline_only() {
    let mut log = LogBuffer::new();
    log.append_line("");
    assert_eq!(log.bytes().as_slice(), b"\n");
    assert_eq!(log.read_tail(LOG_CAP), "\n");
}

#[test]
fn truncation_on_overflow() {
    let cap = LOG_CAP as usize;
    let mut log = LogBuffer::from_bytes(vec![b'x'; cap - 2]);
    log.append_line("yy");
    assert_eq!(log.bytes().as_slice(), b"yy\n");
}

#[test]
fn append_at_exact_cap_keeps_content() {
    // cap - 2 bytes of content plus a one-byte line and its newline is
    // exactly the cap: no truncation.
    let cap = LOG_CAP as usize;
    let mut log = LogBuffer::from_bytes(vec![b'x'; cap - 2]);
    log.append_line("y");
    assert_eq!(log.len(), cap);
    assert_eq!(log.bytes()[cap - 2], b'y');
    assert_eq!(log.bytes()[cap - 1], b'\n');
    assert_eq!(log.bytes()[0], b'x');
}

#[test]
fn line_larger_than_cap_stands_alone() {
    let cap = LOG_CAP as usize;
    let big = "z".repeat(cap + 10);
    let mut log = LogBuffer::from_bytes(vec![b'x'; 100]);
    log.append_line(&big);
    assert_eq!(log.len(), cap + 11);
    assert_eq!(log.bytes()[0], b'z');
}

#[test]
fn tail_returns_exactly_last_bytes() {
    let content: Vec<u8> = (0..100).map(|i| b'0' + (i % 10) as u8).collect();
    let log = LogBuffer::from_bytes(content.clone());
    let tail = log.read_tail(10);
    assert_eq!(tail.as_bytes(), &content[90..]);
    assert_eq!(tail, "0123456789");
}

#[test]
fn tail_larger_than_content_returns_all() {
    let log = LogBuffer::from_bytes(b"abc".to_vec());
    assert_eq!(log.read_tail(1000), "abc");
}

#[test]
fn tail_decodes_invalid_bytes_lossily() {
    let log = LogBuffer::from_bytes(vec![0xFF, 0xFE, b'a']);
    assert_eq!(log.read_tail(LOG_CAP), "\u{FFFD}\u{FFFD}a");
}

#[test]
fn read_log_defaults_and_limits() {
    let log = LogBuffer::from_bytes(b"hello world".to_vec());
    assert_eq!(log.read_log(None), "hello world");
    assert_eq!(log.read_log(Some(5)), "world");
}

#[test]
fn tail_request_applies_default_and_cap() {
    assert_eq!(tail_request(None), DEFAULT_TAIL_BYTES);
    assert_eq!(tail_request(Some(100)), 100);
    assert_eq!(tail_request(Some(LOG_CAP + 1)), LOG_CAP);
}

#[test]
fn append_plan_boundaries() {
    assert!(!plan_append(LOG_CAP - 1, 0));
    assert!(plan_append(LOG_CAP - 1, 1));
    assert!(plan_append(LOG_CAP, 0));
    assert!(!plan_append(0, LOG_CAP - 1));
}

#[test]
fn tail_seek_offsets() {
    assert_eq!(tail_seek(100, 10), 90);
    assert_eq!(tail_seek(5, 10), 0);
    assert_eq!(tail_seek(20 * 1024 * 1024, LOG_CAP + 999), 15 * 1024 * 1024);
}
