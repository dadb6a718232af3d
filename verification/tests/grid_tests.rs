use async_shell::grid::{TerminalGrid, MAX_HISTORY};

#[test]
fn empty_grid_reads_empty() {
    let mut g = TerminalGrid::new();
    assert_eq!(g.read_history("a", None, None), "Session is empty.");
    assert_eq!(g.read_history("a", Some(5), Some(3)), "Session is empty.");
}

#[test]
fn read_then_resume() {
    let mut g = TerminalGrid::new();
    g.ingest(b"hello\nworld");
    assert_eq!(
        g.read_history("a", None, None),
        "Showing lines 0-2 of 2 (Agent: a)\n---\nhello\nworld"
    );
    assert_eq!(g.read_history("a", None, None), "Showing lines 2-2 of 2 (Agent: a)\n---\n");
    g.ingest(b"!\nnext");
    assert_eq!(g.read_history("a", None, None), "Showing lines 2-3 of 3 (Agent: a)\n---\nnext");
    assert_eq!(
        g.read_history("a", Some(0), Some(2)),
        "Showing lines 0-2 of 3 (Agent: a)\n---\nhello\nworld!"
    );
}

#[test]
fn new_agent_tails_last_lines() {
    let mut g = TerminalGrid::new();
    let mut text = String::new();
    for i in 0..150 {
        text.push_str(&format!("line{}\n", i));
    }
    g.ingest(text.as_bytes());
    // 150 newlines make 151 lines, the last one empty
    let out = g.read_history("b", None, None);
    assert!(out.starts_with("Showing lines 51-151 of 151 (Agent: b)\n---\nline51\n"));
    let out2 = g.read_history("c", None, Some(2));
    assert_eq!(out2, "Showing lines 149-151 of 151 (Agent: c)\n---\nline149\n");
}

#[test]
fn agents_do_not_share_cursors() {
    let mut g = TerminalGrid::new();
    g.ingest(b"1\n2\n3\n4");
    assert_eq!(g.read_history("a", Some(0), Some(1)), "Showing lines 0-1 of 4 (Agent: a)\n---\n1");
    assert_eq!(g.read_history("b", Some(1), Some(2)), "Showing lines 1-3 of 4 (Agent: b)\n---\n2\n3");
    assert_eq!(g.read_history("a", None, Some(1)), "Showing lines 1-2 of 4 (Agent: a)\n---\n2");
    assert_eq!(g.read_history("b", None, Some(5)), "Showing lines 3-4 of 4 (Agent: b)\n---\n4");
}

#[test]
fn start_past_end_is_clamped() {
    let mut g = TerminalGrid::new();
    g.ingest(b"x\ny");
    assert_eq!(g.read_history("a", Some(10), None), "Showing lines 2-2 of 2 (Agent: a)\n---\n");
    assert_eq!(g.read_history("a", None, None), "Showing lines 2-2 of 2 (Agent: a)\n---\n");
}

#[test]
fn output_is_cleaned_and_joined() {
    let mut g = TerminalGrid::new();
    g.ingest(b"\x1b[32mok\x1b[0m\r\n");
    g.ingest(b"par");
    g.ingest(b"tial");
    assert_eq!(
        g.read_history("a", Some(0), None),
        "Showing lines 0-2 of 2 (Agent: a)\n---\nok\npartial"
    );
}

#[test]
fn invalid_utf8_is_replaced() {
    let mut g = TerminalGrid::new();
    g.ingest(&[0x61, 0xff, 0x62]);
    assert_eq!(g.read_history("a", None, None), "Showing lines 0-1 of 1 (Agent: a)\n---\na\u{FFFD}b");
    g.ingest("\né\n".as_bytes());
    assert_eq!(g.read_history("a", None, None), "Showing lines 1-3 of 3 (Agent: a)\n---\né\n");
}

#[test]
fn history_is_capped_and_cursors_follow() {
    let mut g = TerminalGrid::new();
    let mut text = String::new();
    for i in 0..MAX_HISTORY {
        text.push_str(&format!("{}\n", i));
    }
    // MAX_HISTORY newlines: MAX_HISTORY + 1 lines, the oldest one is dropped
    g.ingest(text.as_bytes());
    assert_eq!(
        g.read_history("a", Some(0), Some(1)),
        format!("Showing lines 0-1 of {} (Agent: a)\n---\n1", MAX_HISTORY)
    );
    assert_eq!(g.read_history("a", None, Some(1)), format!("Showing lines 1-2 of {} (Agent: a)\n---\n2", MAX_HISTORY));
    // the empty last line is continued by "a", and "b" and "c" are new lines: the two
    // oldest lines are dropped, and the cursor moves back with them, onto the same line
    g.ingest(b"a\nb\nc");
    assert_eq!(
        g.read_history("a", None, Some(1)),
        format!("Showing lines 0-1 of {} (Agent: a)\n---\n3", MAX_HISTORY)
    );
}

#[test]
fn huge_max_lines_reads_to_the_end() {
    let mut g = TerminalGrid::new();
    g.ingest(b"a\nb");
    assert_eq!(
        g.read_history("x", Some(1), Some(usize::MAX)),
        "Showing lines 1-2 of 2 (Agent: x)\n---\nb"
    );
    assert_eq!(g.read_history("x", None, Some(usize::MAX)), "Showing lines 2-2 of 2 (Agent: x)\n---\n");
    assert_eq!(
        g.read_history("y", None, Some(usize::MAX)),
        "Showing lines 0-2 of 2 (Agent: y)\n---\na\nb"
    );
}

#[test]
fn chunks_cut_outside_escapes_read_the_same() {
    let mut one = TerminalGrid::new();
    one.ingest(b"ab\x1b[1mc\nd");
    let mut two = TerminalGrid::new();
    two.ingest(b"ab");
    two.ingest(b"\x1b[1mc\nd");
    assert_eq!(one.read_history("r", Some(0), None), two.read_history("r", Some(0), None));
    assert_eq!(one.read_history("s", Some(0), None), "Showing lines 0-2 of 2 (Agent: s)\n---\nabc\nd");
}

#[test]
fn a_cut_inside_an_escape_keeps_its_tail() {
    let mut g = TerminalGrid::new();
    g.ingest(b"x\x1b[3");
    g.ingest(b"1my");
    // each chunk is cleaned on its own: the sequence left open by the first
    // chunk ends with it, and the second chunk's text stays
    assert_eq!(g.read_history("a", None, None), "Showing lines 0-1 of 1 (Agent: a)\n---\nx1my");
}

#[test]
fn one_more_line_per_newline() {
    let mut g = TerminalGrid::new();
    g.ingest(b"a\nb\n");
    assert_eq!(g.read_history("a", Some(0), None), "Showing lines 0-3 of 3 (Agent: a)\n---\na\nb\n");
    g.ingest("é\nü".as_bytes());
    assert_eq!(g.read_history("a", Some(2), None), "Showing lines 2-4 of 4 (Agent: a)\n---\né\nü");
}
