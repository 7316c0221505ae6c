use mail_trace::display::display;
use mail_trace::display::label_of;
use mail_trace::display::render;
use mail_trace::display::render_with;
use mail_trace::order::LineRef;
use mail_trace::render::count_chars;
use mail_trace::render::render_frame;
use mail_trace::render::title_of;
use mail_trace::render::widest_of;
use mail_trace::render::Frame;
use mail_trace::state::State;
use std::collections::BTreeSet;

fn bytes(text: &str) -> Vec<u8> {
    text.as_bytes().to_vec()
}

fn frame(id: &str, depth: usize, lines: &[&str], before: &[&str], after: &[&str]) -> Frame {
    Frame {
        id: bytes(id),
        depth,
        lines: lines.iter().map(|l| bytes(l)).collect(),
        predecessors: before.iter().map(|l| bytes(l)).collect(),
        successors: after.iter().map(|l| bytes(l)).collect(),
    }
}

/// The box as the formatting machinery of the standard library lays it out.
fn laid_out(label: &str, depth: usize, lines: &[&str], before: &[&str], after: &[&str]) -> String {
    let indent = 2 + 4 * depth;
    let width = lines.iter().map(|l| l.len()).max().unwrap_or(0);
    let set = |ids: &[&str]| ids.iter().map(|i| i.to_string()).collect::<BTreeSet<String>>();
    let header = if before.is_empty() {
        String::new()
    } else {
        format!(", coming from {:?}", set(before))
    };
    let footer = if after.is_empty() {
        String::new()
    } else {
        format!(", flowing into {:?}", set(after))
    };
    let mut out = String::from("\n");
    out += &format!(
        "{n:indent$}┌─{title:─<width$}─┐\n",
        n = "",
        title = format!("[ {}{} ]", label, header),
        indent = indent,
        width = width,
    );
    for l in lines {
        out += &format!("{n:indent$}│ {l: <width$} │\n", n = "", indent = indent, l = l, width = width);
    }
    out += &format!(
        "{n:indent$}└─{title:─<width$}─┘\n",
        n = "",
        title = format!("[ {}{} ]", label, footer),
        indent = indent,
        width = width,
    );
    out
}

fn text_of(out: Vec<u8>) -> String {
    String::from_utf8(out).expect("the rendering of text is text")
}

#[test]
fn box_of_a_single_transaction() {
    let f = frame("ABC", 0, &["first line here", "second"], &[], &[]);
    let expected = "\n  ┌─[ ABC ]─────────┐\n  │ first line here │\n  │ second          │\n  └─[ ABC ]─────────┘\n";
    assert_eq!(text_of(render_frame(&f, b"ABC")), expected);
}

#[test]
fn box_names_the_other_transactions() {
    let f = frame("B", 1, &["a line that is long enough for both the titles"], &["A"], &["C", "D"]);
    let expected = concat_lines(&[
        "",
        "      ┌─[ B, coming from {\"A\"} ]───────────────────────┐",
        "      │ a line that is long enough for both the titles │",
        "      └─[ B, flowing into {\"C\", \"D\"} ]─────────────────┘",
    ]);
    assert_eq!(text_of(render_frame(&f, b"B")), expected);
}

fn concat_lines(lines: &[&str]) -> String {
    let mut out = String::new();
    for l in lines {
        out += l;
        out += "\n";
    }
    out
}

#[test]
fn box_agrees_with_the_standard_formatting() {
    let cases: Vec<(&str, usize, Vec<&str>, Vec<&str>, Vec<&str>)> = vec![
        ("ABC", 0, vec!["x"], vec![], vec![]),
        ("ABC", 0, vec![""], vec![], vec![]),
        ("ABC", 3, vec!["one", "three", "", "a much longer line than the others are"], vec!["0"], vec![]),
        ("0123456789ABCDEF", 2, vec!["short"], vec!["A", "B", "C"], vec!["D"]),
        ("E", 1, vec!["caf\u{e9} au lait", "na\u{ef}ve \u{2500} \u{1f600}", "plain text of some length"], vec![], vec!["F", "G"]),
        ("E", 0, vec!["\u{1f600}\u{1f600}\u{1f600}\u{1f600}\u{1f600}\u{1f600}"], vec!["A"], vec!["B"]),
    ];
    for (id, depth, lines, before, after) in cases {
        let f = frame(id, depth, &lines, &before, &after);
        assert_eq!(
            text_of(render_frame(&f, id.as_bytes())),
            laid_out(id, depth, &lines, &before, &after)
        );
        let bold = format!("\u{1b}[1m{}\u{1b}[0m", id);
        assert_eq!(
            text_of(render_frame(&f, bold.as_bytes())),
            laid_out(&bold, depth, &lines, &before, &after)
        );
    }
}

#[test]
fn line_is_padded_by_its_characters() {
    let f = frame("A", 0, &["\u{e9}\u{e9}\u{e9}", "abcd"], &[], &[]);
    let out = text_of(render_frame(&f, b"A"));
    // The widest line has six bytes; every line is filled up to six characters.
    assert!(out.contains("│ \u{e9}\u{e9}\u{e9}    │\n"));
    assert!(out.contains("│ abcd   │\n"));
}

#[test]
fn title_wider_than_the_box_is_not_cut() {
    let f = frame("ABCDEF", 0, &["ab"], &["123456"], &[]);
    let out = text_of(render_frame(&f, b"ABCDEF"));
    assert_eq!(
        out,
        "\n  ┌─[ ABCDEF, coming from {\"123456\"} ]─┐\n  │ ab │\n  └─[ ABCDEF ]─┘\n"
    );
}

#[test]
fn characters_are_counted_not_bytes() {
    assert_eq!(count_chars(b""), 0);
    assert_eq!(count_chars(b"abc"), 3);
    assert_eq!(count_chars("\u{e9}".as_bytes()), 1);
    assert_eq!(count_chars("a\u{2500}b\u{1f600}".as_bytes()), 4);
    assert_eq!(count_chars(&[0x80, 0xbf, 0xc0, 0x7f]), 2);
}

#[test]
fn widest_line_is_measured_in_bytes() {
    assert_eq!(widest_of(&vec![]), 0);
    assert_eq!(widest_of(&vec![bytes("abc"), bytes("\u{e9}\u{e9}"), bytes("")]), 4);
}

#[test]
fn title_lists_the_identifiers_between_quotes() {
    assert_eq!(text_of(title_of(b"A", ", coming from ", &vec![])), "[ A ]");
    assert_eq!(
        text_of(title_of(b"A", ", coming from ", &vec![bytes("B")])),
        "[ A, coming from {\"B\"} ]"
    );
    assert_eq!(
        text_of(title_of(b"A", ", flowing into ", &vec![bytes("B"), bytes("C"), bytes("D")])),
        "[ A, flowing into {\"B\", \"C\", \"D\"} ]"
    );
}

#[test]
fn frames_are_rendered_one_after_the_other() {
    let frames = vec![
        frame("A", 0, &["line of A"], &[], &["B"]),
        frame("B", 1, &["line of B"], &["A"], &[]),
    ];
    let labels = vec![bytes("A"), bytes("B")];
    let expected = laid_out("A", 0, &["line of A"], &[], &["B"])
        + &laid_out("B", 1, &["line of B"], &["A"], &[]);
    assert_eq!(text_of(render_with(&frames, &labels)), expected);
    assert_eq!(text_of(render_with(&frames, &vec![])), expected);
    assert_eq!(text_of(render_with(&vec![], &labels)), "");
    let marked = vec![bytes("*A*")];
    let expected = laid_out("*A*", 0, &["line of A"], &[], &["B"])
        + &laid_out("B", 1, &["line of B"], &["A"], &[]);
    assert_eq!(text_of(render_with(&frames, &marked)), expected);
}

#[test]
fn render_labels_each_frame_as_the_terminal_shows_it() {
    let frames = vec![
        frame("A", 0, &["line of A"], &[], &["B"]),
        frame("B", 1, &["line of B"], &["A"], &[]),
    ];
    let labels: Vec<Vec<u8>> = frames.iter().map(|f| label_of(&f.id)).collect();
    assert_eq!(render(&frames), render_with(&frames, &labels));
    for (f, label) in frames.iter().zip(labels.iter()) {
        let plain = f.id.clone();
        let bold = [&b"\x1b[1m"[..], &f.id[..], &b"\x1b[0m"[..]].concat();
        assert!(*label == plain || *label == bold);
        let styled = console::style(String::from_utf8(f.id.clone()).unwrap()).bold().to_string();
        assert_eq!(*label, styled.into_bytes());
    }
}

#[test]
fn label_of_other_than_ascii_text_is_the_text() {
    assert_eq!(label_of("\u{e9}".as_bytes()), "\u{e9}".as_bytes().to_vec());
    assert_eq!(label_of(&[0xff, 0x41]), vec![0xff, 0x41]);
}

#[test]
fn display_renders_the_thread() {
    let lines = [
        "Jan 10 00:00:00 mx1 postfix/smtpd[1]: ABC123: client=host[1.2.3.4]\n",
        "Jan 10 00:00:01 mx1 postfix/cleanup[1]: ABC123: message-id=<m@x>\n",
        "Jan 10 00:00:02 mx1 postfix/qmgr[1]: ABC123: from=<a@b>, size=100, nrcpt=1 (queue active)\n",
        "Jan 10 00:00:03 mx1 postfix/smtp[1]: ABC123: to=<c@d>, relay=r, delay=1, delays=1/0/0/0, dsn=2.0.0, status=sent (250 2.0.0 Ok: queued as DEF456)\n",
        "Jan 10 00:00:04 mx1 postfix/qmgr[1]: DEF456: removed\n",
    ];
    let mut state = State::new();
    for (i, l) in lines.iter().enumerate() {
        state.eat(LineRef { file: 0, number: i as u64 }, l.as_bytes()).unwrap();
    }
    let report = display(&bytes("<m@x>"), &state).unwrap().unwrap();
    let first: Vec<&str> = lines[..4].iter().map(|l| l.trim_end_matches('\n')).collect();
    let second = [lines[4].trim_end_matches('\n')];
    let label = |id: &str| console::style(id).bold().to_string();
    let expected = laid_out(&label("ABC123"), 0, &first, &[], &["DEF456"])
        + &laid_out(&label("DEF456"), 1, &second, &["ABC123"], &[]);
    assert_eq!(text_of(report.text), expected);
    assert!(report.notices.is_empty());
}
