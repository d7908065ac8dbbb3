use journal_window::predicates::ScanError;
use journal_window::scan::{scan_for_trace, Scanner};
use journal_window::session::{render_sessions, Session, SEPARATOR_LINE};
use journal_window::window::ScanResult;

fn stream(lines: &[&str]) -> Vec<String> {
    lines.iter().map(|l| l.to_string()).collect()
}

fn withdrawal(trace: &str) -> Vec<String> {
    vec![
        format!(" TRACE     : {}", trace),
        " RESP CODE : 00 ".to_string(),
        " TRN TYPE  : CASH WITHDRAWAL".to_string(),
    ]
}

fn filler(tag: &str) -> Vec<String> {
    vec![format!(" BALANCE INQUIRY {}", tag), " RESP CODE : 00 ".to_string(), " TRN TYPE  : INQUIRY".to_string()]
}

fn journal(records: &[Vec<String>]) -> Vec<String> {
    let mut out = vec![SEPARATOR_LINE.to_string()];
    for record in records {
        out.extend(record.iter().cloned());
        out.push(SEPARATOR_LINE.to_string());
    }
    out
}

fn texts(sessions: &[Session]) -> Vec<String> {
    sessions.iter().map(|s| s.text.clone()).collect()
}

#[test]
fn separator_line_is_55_asterisks() {
    assert_eq!(SEPARATOR_LINE.len(), 55);
    assert!(SEPARATOR_LINE.chars().all(|c| c == '*'));
}

#[test]
fn target_alone_is_insufficient_after() {
    let lines = journal(&[stream(&["line1"]), withdrawal("000111")]);
    match scan_for_trace(lines, "000111", 1).unwrap() {
        ScanResult::FoundInsufficient { sessions, before_deficit, after_deficit } => {
            assert_eq!(after_deficit, 1);
            assert_eq!(before_deficit, 1);
            assert_eq!(sessions.len(), 2);
            assert_eq!(sessions[0].text, "line1");
            assert!(sessions[0].complete);
            assert!(!sessions[0].is_target);
            assert!(!sessions[0].is_success_withdrawal);
            assert_eq!(
                sessions[1].text,
                " TRACE     : 000111\n RESP CODE : 00 \n TRN TYPE  : CASH WITHDRAWAL"
            );
            assert!(sessions[1].complete);
            assert!(sessions[1].is_target);
            assert!(sessions[1].is_success_withdrawal);
        }
        other => panic!("unexpected result: {:?}", other),
    }
}

#[test]
fn three_before_and_three_after_is_complete() {
    let records = vec![
        withdrawal("000001"),
        withdrawal("000002"),
        withdrawal("000003"),
        withdrawal("000004"),
        withdrawal("000005"),
        withdrawal("000006"),
        withdrawal("000007"),
    ];
    let lines = journal(&records);
    match scan_for_trace(lines, "000004", 3).unwrap() {
        ScanResult::FoundComplete { sessions } => {
            assert_eq!(sessions.len(), 7);
            let expected: Vec<String> = records.iter().map(|r| r.join("\n")).collect();
            assert_eq!(texts(&sessions), expected);
            assert!(sessions[3].is_target);
            assert_eq!(sessions.iter().filter(|s| s.is_target).count(), 1);
        }
        other => panic!("unexpected result: {:?}", other),
    }
}

#[test]
fn fillers_stay_interleaved_in_order() {
    let records = vec![
        withdrawal("000001"),
        filler("a"),
        withdrawal("000002"),
        filler("b"),
        withdrawal("000003"),
        filler("c"),
        withdrawal("000004"),
        filler("d"),
        withdrawal("000005"),
        filler("e"),
        withdrawal("000006"),
        filler("f"),
        withdrawal("000007"),
        filler("g"),
        withdrawal("000008"),
    ];
    let lines = journal(&records);
    match scan_for_trace(lines, "000004", 3).unwrap() {
        ScanResult::FoundComplete { sessions } => {
            let expected: Vec<String> = records[..13].iter().map(|r| r.join("\n")).collect();
            assert_eq!(texts(&sessions), expected);
            let counted = sessions.iter().filter(|s| s.is_success_withdrawal || s.is_target).count();
            assert_eq!(counted, 7);
            assert!(sessions[6].is_target);
        }
        other => panic!("unexpected result: {:?}", other),
    }
}

#[test]
fn absent_trace_is_not_found() {
    let lines = journal(&[withdrawal("000001"), filler("a"), withdrawal("000002")]);
    assert!(matches!(scan_for_trace(lines, "999999", 3), Ok(ScanResult::NotFound)));
}

#[test]
fn trace_must_match_whole_token() {
    let lines = journal(&[stream(&[" TRACE     : 1234"])]);
    assert!(matches!(scan_for_trace(lines, "123", 0), Ok(ScanResult::NotFound)));
    let lines = journal(&[stream(&[" TRACE     : 1234"])]);
    assert!(matches!(scan_for_trace(lines, "1234", 0), Ok(ScanResult::FoundComplete { .. })));
}

#[test]
fn trace_that_is_no_number_is_refused() {
    assert_eq!(scan_for_trace(stream(&[]), "", 3).err(), Some(ScanError::InvalidTrace));
    assert_eq!(scan_for_trace(stream(&[]), "12a", 3).err(), Some(ScanError::InvalidTrace));
    assert_eq!(scan_for_trace(stream(&[]), ".*", 3).err(), Some(ScanError::InvalidTrace));
    assert!(Scanner::new("-5", 3).is_err());
}

#[test]
fn rendering_puts_a_separator_around_each_session() {
    let lines = journal(&[withdrawal("000001"), withdrawal("000002"), withdrawal("000003")]);
    let expected = lines.join("\n");
    match scan_for_trace(lines, "000002", 1).unwrap() {
        ScanResult::FoundComplete { sessions } => {
            assert_eq!(render_sessions(&sessions), expected);
        }
        other => panic!("unexpected result: {:?}", other),
    }
}
