use std::time::Instant;
use idos_task::parse::parse_log_line;

fn now() -> Instant {
    Instant::now()
}

#[test]
fn parse_tagged_line() {
    let line = "\x1b[31mFATFS   \x1b[0m: Opening file CONFIG.SYS";
    let entry = parse_log_line(line, now());
    assert_eq!(entry.tag, "FATFS");
    assert_eq!(entry.color, 31);
    assert_eq!(entry.message, "Opening file CONFIG.SYS");
}

#[test]
fn parse_untagged_line() {
    let line = "Some random output";
    let entry = parse_log_line(line, now());
    assert_eq!(entry.tag, "");
    assert_eq!(entry.color, 0);
    assert_eq!(entry.message, "Some random output");
}

#[test]
fn parse_bright_color() {
    let line = "\x1b[93mKERNEL  \x1b[0m: Page fault at 0xDEAD";
    let entry = parse_log_line(line, now());
    assert_eq!(entry.tag, "KERNEL");
    assert_eq!(entry.color, 93);
    assert_eq!(entry.message, "Page fault at 0xDEAD");
}

#[test]
fn parse_plus_sign_color() {
    let entry = parse_log_line("\x1b[+7mAB      \x1b[0m: hi", now());
    assert_eq!(entry.tag, "AB");
    assert_eq!(entry.color, 7);
    assert_eq!(entry.message, "hi");
}

#[test]
fn parse_color_out_of_range_is_untagged() {
    let line = "\x1b[256mAB      \x1b[0m: hi";
    let entry = parse_log_line(line, now());
    assert_eq!(entry.tag, "");
    assert_eq!(entry.color, 0);
    assert_eq!(entry.message, line);
}

#[test]
fn parse_short_tag_is_untagged() {
    let line = "\x1b[31mAB\x1b[0m: hi";
    let entry = parse_log_line(line, now());
    assert_eq!(entry.tag, "");
    assert_eq!(entry.message, line);
}

#[test]
fn parse_multibyte_tag() {
    // four two-byte characters fill the eight tag bytes
    let entry = parse_log_line("\x1b[32m\u{e9}\u{e9}\u{e9}\u{e9}\x1b[0m: ok", now());
    assert_eq!(entry.tag, "\u{e9}\u{e9}\u{e9}\u{e9}");
    assert_eq!(entry.color, 32);
    assert_eq!(entry.message, "ok");
}
