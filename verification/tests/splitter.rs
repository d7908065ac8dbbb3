use journal_window::predicates::Predicates;
use journal_window::session::{join_lines, join_with, render_sessions, RawSession, SEPARATOR_LINE};
use journal_window::splitter::{split_lines, Line, SessionSplitter};

fn line(text: &str) -> Line {
    Line { text: text.to_string(), separator: false }
}

fn sep() -> Line {
    Line { text: SEPARATOR_LINE.to_string(), separator: true }
}

fn pairs(sessions: &[RawSession]) -> Vec<(&str, bool)> {
    sessions.iter().map(|s| (s.text.as_str(), s.complete)).collect()
}

#[test]
fn empty_stream_has_no_sessions() {
    assert!(split_lines(vec![]).is_empty());
}

#[test]
fn separators_alone_give_no_sessions() {
    assert!(split_lines(vec![sep(), sep(), sep()]).is_empty());
}

#[test]
fn stream_without_separator_is_one_incomplete_session() {
    let sessions = split_lines(vec![line("a"), line("b")]);
    assert_eq!(pairs(&sessions), vec![("a\nb", false)]);
}

#[test]
fn session_between_two_separators_is_complete() {
    let sessions = split_lines(vec![sep(), line("a"), line("b"), sep()]);
    assert_eq!(pairs(&sessions), vec![("a\nb", true)]);
}

#[test]
fn first_session_without_leading_separator_is_incomplete() {
    let sessions = split_lines(vec![line("a"), sep(), line("b"), sep()]);
    assert_eq!(pairs(&sessions), vec![("a", false), ("b", true)]);
}

#[test]
fn last_session_without_trailing_separator_is_incomplete() {
    let sessions = split_lines(vec![sep(), line("a"), sep(), line("b"), line("c")]);
    assert_eq!(pairs(&sessions), vec![("a", true), ("b\nc", false)]);
}

#[test]
fn both_ends_open() {
    let sessions = split_lines(vec![line("a"), sep(), line("b"), sep(), line("c")]);
    assert_eq!(pairs(&sessions), vec![("a", false), ("b", true), ("c", false)]);
}

#[test]
fn adjacent_separators_emit_nothing() {
    let sessions = split_lines(vec![sep(), sep(), line("a"), sep(), sep(), sep(), line("b"), sep()]);
    assert_eq!(pairs(&sessions), vec![("a", true), ("b", true)]);
}

#[test]
fn one_session_fewer_than_separators() {
    let lines = vec![sep(), line("a"), sep(), line("b"), line("c"), sep(), line("d"), sep()];
    let separators = lines.iter().filter(|l| l.separator).count();
    let sessions = split_lines(lines);
    assert_eq!(sessions.len(), separators - 1);
}

#[test]
fn span_of_one_empty_line_is_a_session() {
    let sessions = split_lines(vec![sep(), line(""), sep()]);
    assert_eq!(pairs(&sessions), vec![("", true)]);
}

#[test]
fn splitter_hands_out_a_session_at_each_closing_separator() {
    let mut splitter = SessionSplitter::new();
    assert!(splitter.push_line(line("a")).is_none());
    let first = splitter.push_line(sep()).unwrap();
    assert_eq!((first.text.as_str(), first.complete), ("a", false));
    assert!(splitter.push_line(sep()).is_none());
    assert!(splitter.push_line(line("b")).is_none());
    assert!(splitter.push_line(line("c")).is_none());
    let second = splitter.push_line(sep()).unwrap();
    assert_eq!((second.text.as_str(), second.complete), ("b\nc", true));
    assert!(splitter.push_line(line("d")).is_none());
    let last = splitter.finish().unwrap();
    assert_eq!((last.text.as_str(), last.complete), ("d", false));
}

#[test]
fn splitter_with_nothing_pending_ends_with_nothing() {
    let mut splitter = SessionSplitter::new();
    assert!(splitter.push_line(sep()).is_none());
    assert!(splitter.push_line(line("a")).is_none());
    assert!(splitter.push_line(sep()).is_some());
    assert!(splitter.finish().is_none());
    assert!(SessionSplitter::new().finish().is_none());
}

#[test]
fn joining_puts_the_glue_between_neighbours_only() {
    let parts = vec!["a".to_string(), "".to_string(), "b".to_string()];
    assert_eq!(join_with(&parts, ", "), "a, , b");
    assert_eq!(join_lines(&parts), "a\n\nb");
    assert_eq!(join_lines(&vec!["only".to_string()]), "only");
    assert_eq!(join_lines(&vec![]), "");
    assert_eq!(join_with(&vec!["".to_string(), "".to_string()], "-"), "-");
}

#[test]
fn rendering_no_session_gives_two_separators() {
    let expected = format!("{}\n\n{}", SEPARATOR_LINE, SEPARATOR_LINE);
    assert_eq!(render_sessions(&vec![]), expected);
}

#[test]
fn splitting_and_rendering_reproduces_the_stream() {
    let stream = vec![
        SEPARATOR_LINE,
        " CARD INSERTED",
        " TRACE     : 000001",
        SEPARATOR_LINE,
        " CARD INSERTED",
        " RESP CODE : 00 ",
        " TRN TYPE  : FAST CASH",
        " TRACE     : 000002",
        SEPARATOR_LINE,
        " CARD TAKEN",
        SEPARATOR_LINE,
    ];
    let predicates = Predicates::new("000002").unwrap();
    let lines: Vec<Line> = stream.iter().map(|l| predicates.flag(l.to_string())).collect();
    assert_eq!(lines.iter().filter(|l| l.separator).count(), 4);
    let raw = split_lines(lines);
    assert_eq!(raw.len(), 3);
    let sessions: Vec<_> = raw.into_iter().map(|r| predicates.classify(r)).collect();
    assert_eq!(render_sessions(&sessions), stream.join("\n"));
}
