use std::time::Instant;
use idos_task::app::{handle_input_key, handle_normal_key, App, InputMode, Key};
use idos_task::parse::{parse_log_line, LogEntry};
use idos_task::reader::{parse_args, ArgsOutcome, Source};
use idos_task::text::{contains, eq_ignore_ascii_case, match_positions, str_equal, trim, trim_end};

fn entry(tag: &str, message: &str) -> LogEntry {
    LogEntry { tag: String::from(tag), color: 0, message: String::from(message), timestamp: Instant::now() }
}

fn sample() -> App {
    let mut app = App::new();
    app.entries.push(entry("FATFS", "Opening file CONFIG.SYS"));
    app.entries.push(entry("KERNEL", "Page fault at 0xDEAD"));
    app.entries.push(entry("fatfs", "Closing CONFIG.SYS"));
    app.entries.push(entry("", "untagged config line"));
    app
}

fn type_text(app: &mut App, text: &str) {
    for c in text.chars() {
        handle_input_key(app, Key::Char(c), true);
    }
}

#[test]
fn filter_by_tag_ignores_case() {
    let mut app = sample();
    handle_normal_key(&mut app, Key::Char('f'), false);
    assert_eq!(app.mode, InputMode::FilterInput);
    type_text(&mut app, "  FatFs ");
    handle_input_key(&mut app, Key::Enter, true);
    assert_eq!(app.mode, InputMode::Normal);
    assert_eq!(app.filter, Some(String::from("FatFs")));
    assert_eq!(app.visible_indices(), vec![0, 2]);
    // clearing the filter shows everything again
    handle_normal_key(&mut app, Key::Char('F'), false);
    assert_eq!(app.filter, None);
    assert_eq!(app.visible_indices(), vec![0, 1, 2, 3]);
}

#[test]
fn blank_filter_is_no_filter() {
    let mut app = sample();
    app.input_buf = String::from("   ");
    app.submit_filter();
    assert_eq!(app.filter, None);
    assert_eq!(app.scroll_offset, 0);
    assert!(app.auto_scroll);
}

#[test]
fn search_matches_visible_entries() {
    let mut app = sample();
    app.input_buf = String::from("config");
    app.submit_search();
    assert_eq!(app.search_match_indices(), vec![0, 2, 3]);
    app.filter = Some(String::from("fatfs"));
    assert_eq!(app.search_match_indices(), vec![0, 2]);
}

#[test]
fn next_and_previous_match_wrap_around() {
    let mut app = sample();
    app.search = Some(String::from("CONFIG.SYS"));
    assert_eq!(app.search_match_indices().len(), 2);
    app.next_match();
    assert_eq!(app.search_match_index, 1);
    assert!(!app.auto_scroll);
    app.next_match();
    assert_eq!(app.search_match_index, 0);
    app.prev_match();
    assert_eq!(app.search_match_index, 1);
    handle_normal_key(&mut app, Key::Esc, false);
    assert_eq!(app.search, None);
    assert_eq!(app.search_match_index, 0);
    // without matches nothing moves
    app.next_match();
    assert_eq!(app.search_match_index, 0);
}

#[test]
fn scrolling_stays_in_range() {
    let mut app = App::new();
    app.scroll_up();
    assert_eq!(app.scroll_offset, 0);
    app.scroll_down(25, 20);
    app.scroll_down(25, 20);
    assert_eq!(app.scroll_offset, 2);
    app.jump_to_bottom(25, 20);
    assert_eq!(app.scroll_offset, 5);
    assert!(app.auto_scroll);
    app.scroll_down(25, 20);
    assert_eq!(app.scroll_offset, 5);
    app.jump_to_top();
    assert_eq!(app.scroll_offset, 0);
    app.scroll_down(10, 20);
    assert_eq!(app.scroll_offset, 0);
    app.jump_to_bottom(10, 20);
    assert_eq!(app.scroll_offset, 0);
}

#[test]
fn normal_keys() {
    let mut app = sample();
    handle_normal_key(&mut app, Key::Char('c'), false);
    assert!(!app.should_quit);
    handle_normal_key(&mut app, Key::Char('G'), false);
    assert_eq!(app.scroll_offset, 0);
    handle_normal_key(&mut app, Key::Down, false);
    assert!(!app.auto_scroll);
    handle_normal_key(&mut app, Key::Char('/'), false);
    assert_eq!(app.mode, InputMode::SearchInput);
    handle_input_key(&mut app, Key::Char('x'), false);
    handle_input_key(&mut app, Key::Char('y'), false);
    handle_input_key(&mut app, Key::Backspace, false);
    assert_eq!(app.input_buf, "x");
    handle_input_key(&mut app, Key::Esc, false);
    assert_eq!(app.input_buf, "");
    assert_eq!(app.mode, InputMode::Normal);
    handle_normal_key(&mut app, Key::Char('c'), true);
    assert!(app.should_quit);
    let mut other = App::new();
    handle_normal_key(&mut other, Key::Char('q'), false);
    assert!(other.should_quit);
}

#[test]
fn command_line() {
    let args = |v: &[&str]| -> Vec<String> { v.iter().map(|s| String::from(*s)).collect() };
    assert_eq!(parse_args(&args(&["logview"])), ArgsOutcome::Run(Source::Stdin));
    assert_eq!(
        parse_args(&args(&["logview", "--socket", "/tmp/s"])),
        ArgsOutcome::Run(Source::Socket(String::from("/tmp/s")))
    );
    assert_eq!(parse_args(&args(&["logview", "--socket"])), ArgsOutcome::MissingSocketPath);
    assert_eq!(parse_args(&args(&["logview", "-h"])), ArgsOutcome::Help);
    assert_eq!(parse_args(&args(&["logview", "--help", "x"])), ArgsOutcome::Help);
    assert_eq!(parse_args(&args(&["logview", "--verbose"])), ArgsOutcome::Unknown(String::from("--verbose")));
}

#[test]
fn text_helpers() {
    let v: Vec<char> = " \tab c \n".chars().collect();
    assert_eq!(trim(&v), vec!['a', 'b', ' ', 'c']);
    assert_eq!(trim_end(&v), vec![' ', '\t', 'a', 'b', ' ', 'c']);
    let a: Vec<char> = "HeLLo".chars().collect();
    let b: Vec<char> = "hello".chars().collect();
    assert!(eq_ignore_ascii_case(&a, &b));
    let hay: Vec<char> = "abcabd".chars().collect();
    let needle: Vec<char> = "abd".chars().collect();
    assert!(contains(&hay, &needle));
    assert!(contains(&hay, &[]));
    assert!(!contains(&needle, &hay));
    assert!(str_equal("same", "same"));
    assert!(!str_equal("same", "sane"));
}

#[test]
fn parsed_lines_feed_the_viewer() {
    let mut app = App::new();
    app.entries.push(parse_log_line("\x1b[31mFATFS   \x1b[0m: Opening file", Instant::now()));
    app.entries.push(parse_log_line("plain line", Instant::now()));
    app.filter = Some(String::from("fatfs"));
    assert_eq!(app.visible_indices(), vec![0]);
}

#[test]
fn highlight_positions() {
    assert_eq!(match_positions("Config and CONFIG", "config"), vec![0, 11]);
    assert_eq!(match_positions("aaaa", "aa"), vec![0, 2]);
    assert_eq!(match_positions("abc", ""), Vec::<usize>::new());
    assert_eq!(match_positions("ab", "abc"), Vec::<usize>::new());
    // byte offsets, past a two-byte character
    assert_eq!(match_positions("\u{e9}X", "x"), vec![2]);
}

#[test]
fn a_tag_field_split_inside_a_character_is_untagged() {
    // the eighth byte of the tag falls inside a three-byte character
    let line = "\x1b[31mabcdefg\u{20ac}\x1b[0m: ok";
    let entry = parse_log_line(line, Instant::now());
    assert_eq!(entry.tag, "");
    assert_eq!(entry.color, 0);
    assert_eq!(entry.message, line);
    let line = "\x1b[1mAAAAAAA\u{e9}: x";
    let entry = parse_log_line(line, Instant::now());
    assert_eq!(entry.tag, "");
    assert_eq!(entry.message, line);
}

#[test]
fn auto_scroll_pins_the_last_entry() {
    let mut app = sample();
    app.follow_scroll(2);
    assert_eq!(app.scroll_offset, 2);
    app.follow_scroll(10);
    assert_eq!(app.scroll_offset, 2);
}

#[test]
fn current_match_is_scrolled_into_view() {
    let mut app = sample();
    app.search = Some(String::from("line"));
    app.auto_scroll = false;
    assert_eq!(app.current_match(), Some(3));
    app.follow_scroll(2);
    // the match is the fourth visible entry: it becomes the last row
    assert_eq!(app.scroll_offset, 2);
    app.scroll_offset = 3;
    app.search = Some(String::from("opening"));
    app.follow_scroll(2);
    assert_eq!(app.scroll_offset, 0);
}
