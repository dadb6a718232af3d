use async_shell::text::{push_decimal, push_joined, split_clean_lines, strip_ansi_escapes};

fn chars(s: &str) -> Vec<char> {
    s.chars().collect()
}

#[test]
fn strip_removes_color_codes() {
    let input = chars("\x1b[31mred\x1b[0m text");
    assert_eq!(strip_ansi_escapes(&input), "red text");
}

#[test]
fn strip_removes_carriage_returns() {
    let input = chars("progress\r done\r");
    assert_eq!(strip_ansi_escapes(&input), "progress done");
}

#[test]
fn strip_drops_unfinished_escape() {
    let input = chars("keep\x1b[12;3");
    assert_eq!(strip_ansi_escapes(&input), "keep");
}

#[test]
fn strip_escape_ends_at_first_letter() {
    let input = chars("a\x1b[1;2Hb\x1b]0;title\x07c");
    // the second sequence runs to the first ASCII letter, the `t` of `title`
    assert_eq!(strip_ansi_escapes(&input), "abitle\x07c");
}

#[test]
fn strip_keeps_plain_text() {
    let input = chars("plain ünïcode text");
    assert_eq!(strip_ansi_escapes(&input), "plain ünïcode text");
}

#[test]
fn strip_twice_is_strip_once() {
    let input = chars("x\x1b[0m\ry\x1b");
    let once = strip_ansi_escapes(&input);
    let twice = strip_ansi_escapes(&chars(&once));
    assert_eq!(once, twice);
    assert_eq!(once, "xy");
}

#[test]
fn split_gives_each_line() {
    let pieces = split_clean_lines(&chars("one\ntwo\r\n\x1b[1mthree"));
    assert_eq!(pieces, vec!["one".to_string(), "two".to_string(), "three".to_string()]);
}

#[test]
fn split_trailing_newline_gives_empty_last() {
    let pieces = split_clean_lines(&chars("a\n"));
    assert_eq!(pieces, vec!["a".to_string(), String::new()]);
    let none = split_clean_lines(&[]);
    assert_eq!(none, vec![String::new()]);
}

#[test]
fn split_resets_escape_at_newline() {
    let pieces = split_clean_lines(&chars("\x1b[3\n1mX"));
    assert_eq!(pieces, vec![String::new(), "1mX".to_string()]);
}

#[test]
fn decimal_digits() {
    let mut s = String::from("n=");
    push_decimal(&mut s, 0);
    assert_eq!(s, "n=0");
    let mut t = String::new();
    push_decimal(&mut t, 1234509);
    assert_eq!(t, "1234509");
    let mut u = String::new();
    push_decimal(&mut u, usize::MAX);
    assert_eq!(u, usize::MAX.to_string());
}

#[test]
fn joined_range() {
    let lines = vec!["a".to_string(), "b".to_string(), "c".to_string()];
    let mut s = String::new();
    push_joined(&mut s, &lines, 1, 3);
    assert_eq!(s, "b\nc");
    let mut e = String::from("x");
    push_joined(&mut e, &lines, 2, 2);
    assert_eq!(e, "x");
}
