use journal_window::engine::Pattern;
use journal_window::files::{
    journal_file_from_groups, parse_date, read_dates, sort_by_date, validate_journal_files, Date,
    DirectoryEntry, FileNames, JournalFile, FILE_NAME_PATTERN,
};

fn file(terminal_id: &str, date_time: &str) -> JournalFile {
    JournalFile {
        terminal_id: terminal_id.to_string(),
        date_time: date_time.to_string(),
        path: format!("/journals/{}-{}.txt", terminal_id, date_time),
    }
}

fn entry(file_name: &str) -> DirectoryEntry {
    DirectoryEntry { file_name: file_name.to_string(), path: format!("/journals/{}", file_name) }
}

#[test]
fn no_file_is_one_terminal() {
    assert!(validate_journal_files(&vec![]));
}

#[test]
fn one_file_is_one_terminal() {
    assert!(validate_journal_files(&vec![file("12345678", "2020-1-1")]));
}

#[test]
fn files_of_one_terminal_are_valid() {
    let files = vec![file("12345678", "2020-1-1"), file("12345678", "2020-1-2"), file("12345678", "2020-1-3")];
    assert!(validate_journal_files(&files));
}

#[test]
fn files_of_two_terminals_are_invalid() {
    let files = vec![file("12345678", "2020-1-1"), file("87654321", "2020-1-1")];
    assert!(!validate_journal_files(&files));
    let files = vec![file("12345678", "2020-1-1"), file("12345678", "2020-1-2"), file("12345679", "2020-1-3")];
    assert!(!validate_journal_files(&files));
    let files = vec![file("12345679", "2020-1-1"), file("12345678", "2020-1-2"), file("12345678", "2020-1-3")];
    assert!(!validate_journal_files(&files));
}

#[test]
fn file_name_gives_terminal_and_date() {
    let names = FileNames::new().unwrap();
    let found = names.parse("12345678-2020-1-15.txt", "/j/12345678-2020-1-15.txt".to_string()).unwrap();
    assert_eq!(found.terminal_id, "12345678");
    assert_eq!(found.date_time, "2020-1-15");
    assert_eq!(found.path, "/j/12345678-2020-1-15.txt");
    let found = names.parse("00000001-2019-12-03.txt", String::new()).unwrap();
    assert_eq!(found.terminal_id, "00000001");
    assert_eq!(found.date_time, "2019-12-03");
    assert_eq!(found.path, "");
}

#[test]
fn other_names_are_no_journal_files() {
    let names = FileNames::new().unwrap();
    assert!(names.parse("readme.md", String::new()).is_none());
    assert!(names.parse("", String::new()).is_none());
    assert!(names.parse("1234567-2020-1-15.txt", String::new()).is_none());
    assert!(names.parse("12345678-2020-1-15.txt.bak", String::new()).is_none());
    assert!(names.parse("12345678-20-1-15.txt", String::new()).is_none());
    assert!(names.parse("12345678-2020-123-15.txt", String::new()).is_none());
    assert!(names.parse("12345678_2020-1-15.txt", String::new()).is_none());
    assert!(names.parse("12345678-2020-1-15xtxt", String::new()).is_none());
    assert!(names.parse("12345678-2020-1-15.TXT", String::new()).is_none());
    assert!(names.parse("12345678-2020-1-.txt", String::new()).is_none());
    assert!(names.parse("\u{661}2345678-2020-1-15.txt", String::new()).is_none());
    assert!(names.parse("12345678-2020-\u{661}-15.txt", String::new()).is_none());
}

#[test]
fn file_name_is_the_whole_name() {
    let names = FileNames::new().unwrap();
    assert!(names.parse("ej-12345678-2020-1-15.txt", String::new()).is_none());
    assert!(names.parse("912345678-2020-1-15.txt", String::new()).is_none());
    assert!(names.parse(" 12345678-2020-1-15.txt", String::new()).is_none());
    assert!(names.parse("12345678-2020-1-15.txt ", String::new()).is_none());
    assert!(names.parse("12345678-2020-1-15.txt", String::new()).is_some());
}

#[test]
fn select_keeps_journal_files_in_order() {
    let names = FileNames::new().unwrap();
    let entries = vec![
        entry("12345678-2020-1-16.txt"),
        entry("notes.txt"),
        entry("12345678-2020-1-15.txt"),
        entry("output.txt"),
        entry("87654321-2020-1-15.txt"),
    ];
    let files = names.select(entries);
    let got: Vec<(&str, &str, &str)> =
        files.iter().map(|f| (f.terminal_id.as_str(), f.date_time.as_str(), f.path.as_str())).collect();
    assert_eq!(
        got,
        vec![
            ("12345678", "2020-1-16", "/journals/12345678-2020-1-16.txt"),
            ("12345678", "2020-1-15", "/journals/12345678-2020-1-15.txt"),
            ("87654321", "2020-1-15", "/journals/87654321-2020-1-15.txt"),
        ]
    );
    assert!(!validate_journal_files(&files));
    assert!(names.select(vec![]).is_empty());
}

#[test]
fn file_names_need_a_compiled_pattern() {
    assert!(FileNames::from_compiled(Pattern::new("(")).is_none());
    let names = FileNames::from_compiled(Pattern::new("t([0-9]+)_(.+)")).unwrap();
    let found = names.parse("at7_2020-1-2", "p".to_string()).unwrap();
    assert_eq!(found.terminal_id, "7");
    assert_eq!(found.date_time, "2020-1-2");
    assert_eq!(found.path, "p");
    assert!(names.parse("t7_yesterday", String::new()).is_none());
    assert!(names.parse("t_2020-1-2", String::new()).is_none());
    let optional = FileNames::from_compiled(Pattern::new("(a)(2020-1-2)?")).unwrap();
    assert!(optional.parse("a", String::new()).is_none());
    assert!(optional.parse("a2020-1-2", String::new()).is_some());
    assert!(Pattern::new(FILE_NAME_PATTERN).is_ok());
}

fn dates(files: &[JournalFile]) -> Vec<&str> {
    files.iter().map(|f| f.date_time.as_str()).collect()
}

#[test]
fn dates_are_read_as_three_numbers() {
    assert_eq!(parse_date("2020-9-1"), Some(Date { year: 2020, month: 9, day: 1 }));
    assert_eq!(parse_date("2020-10-1"), Some(Date { year: 2020, month: 10, day: 1 }));
    assert_eq!(parse_date("2020-1-15"), Some(Date { year: 2020, month: 1, day: 15 }));
    assert_eq!(parse_date("2019-12-31"), Some(Date { year: 2019, month: 12, day: 31 }));
    assert_eq!(parse_date("2020-01-09"), Some(Date { year: 2020, month: 1, day: 9 }));
    assert_eq!(parse_date("0000-0-0"), Some(Date { year: 0, month: 0, day: 0 }));
    assert_eq!(parse_date("9999-99-99"), Some(Date { year: 9999, month: 99, day: 99 }));
}

#[test]
fn other_texts_are_no_dates() {
    for text in [
        "", "2020", "2020-1", "2020-1-", "2020--1", "2020-1-1-", "2020-1-123", "2020-123-1",
        "202-10-10", "20200-1-1", "2020/1/1", "2020-1 1", "2020-a-1", "2020-1-b", "x020-1-1",
        "2020-1-1 ", " 2020-1-1", "2020-+1-1", "2020-1--1", "-2020-1-1", "2020-01-001",
        "\u{662}020-1-1", "2020-\u{661}-1", "2020-1-\u{661}", "2020-1-1\u{e9}",
    ] {
        assert_eq!(parse_date(text), None, "{:?}", text);
    }
}

#[test]
fn days_are_ordered_by_year_then_month_then_day() {
    let day = |y, m, d| Date { year: y, month: m, day: d };
    assert!(day(2020, 9, 1).is_not_after(&day(2020, 10, 1)));
    assert!(!day(2020, 10, 1).is_not_after(&day(2020, 9, 1)));
    assert!(day(2020, 1, 9).is_not_after(&day(2020, 1, 10)));
    assert!(!day(2020, 1, 10).is_not_after(&day(2020, 1, 9)));
    assert!(day(2019, 12, 31).is_not_after(&day(2020, 1, 1)));
    assert!(!day(2020, 1, 1).is_not_after(&day(2019, 12, 31)));
    assert!(day(2020, 1, 1).is_not_after(&day(2020, 1, 1)));
    assert!(day(2020, 12, 1).is_not_after(&day(2021, 1, 31)));
}

#[test]
fn files_are_sorted_by_date() {
    let files = vec![
        file("12345678", "2020-1-3"),
        file("12345678", "2020-1-1"),
        file("12345678", "2019-12-31"),
        file("12345678", "2020-1-2"),
    ];
    let sorted = sort_by_date(files).unwrap();
    assert_eq!(dates(&sorted), vec!["2019-12-31", "2020-1-1", "2020-1-2", "2020-1-3"]);
    assert_eq!(sort_by_date(vec![]), Some(vec![]));
}

#[test]
fn october_comes_after_september() {
    let files = vec![file("12345678", "2020-10-1"), file("12345678", "2020-9-1")];
    let sorted = sort_by_date(files).unwrap();
    assert_eq!(dates(&sorted), vec!["2020-9-1", "2020-10-1"]);
}

#[test]
fn sorting_follows_the_calendar_not_the_text() {
    let names = [
        "2020-1-10", "2020-1-9", "2020-01-09", "2020-11-1", "2020-2-1", "2020-1-10", "2019-7-7",
        "2020-10-30", "2020-9-30",
    ];
    let sorted = sort_by_date(names.iter().map(|d| file("00000001", d)).collect()).unwrap();
    assert_eq!(
        dates(&sorted),
        vec![
            "2019-7-7", "2020-1-9", "2020-01-09", "2020-1-10", "2020-1-10", "2020-2-1",
            "2020-9-30", "2020-10-30", "2020-11-1",
        ]
    );
}

#[test]
fn files_without_a_date_are_not_sorted() {
    assert_eq!(sort_by_date(vec![file("1", "2020-1-1"), file("1", "")]), None);
    assert_eq!(sort_by_date(vec![file("1", "yesterday")]), None);
    assert_eq!(read_dates(&vec![file("1", "2020-1-1"), file("1", "2020-1")]), None);
    assert_eq!(
        read_dates(&vec![file("1", "2020-10-1"), file("1", "2020-9-1")]),
        Some(vec![Date { year: 2020, month: 10, day: 1 }, Date { year: 2020, month: 9, day: 1 }])
    );
}

#[test]
fn journal_file_needs_both_parts_and_a_date() {
    let some = |s: &str| Some(s.to_string());
    let made = journal_file_from_groups(some("12345678"), some("2020-9-1"), "p".to_string());
    assert_eq!(
        made,
        Some(JournalFile {
            terminal_id: "12345678".to_string(),
            date_time: "2020-9-1".to_string(),
            path: "p".to_string(),
        })
    );
    assert_eq!(journal_file_from_groups(None, some("2020-9-1"), String::new()), None);
    assert_eq!(journal_file_from_groups(some("12345678"), None, String::new()), None);
    assert_eq!(journal_file_from_groups(None, None, String::new()), None);
    assert_eq!(journal_file_from_groups(some("12345678"), some("2020-9"), String::new()), None);
    assert_eq!(journal_file_from_groups(some(""), some("2020-9-1"), String::new()).is_some(), true);
}

#[test]
fn journal_files_of_a_directory_reach_the_scan_in_calendar_order() {
    let names = FileNames::new().unwrap();
    let files = names.select(vec![
        entry("12345678-2020-10-1.txt"),
        entry("notes.txt"),
        entry("12345678-2020-9-1.txt"),
    ]);
    let sorted = sort_by_date(files).unwrap();
    assert_eq!(dates(&sorted), vec!["2020-9-1", "2020-10-1"]);
}

#[test]
fn sorting_keeps_files_of_one_date_in_their_order() {
    let mut files = vec![file("1", "2020-1-2"), file("2", "2020-1-1"), file("3", "2020-1-2"), file("4", "2020-1-1")];
    files[0].path = "a".to_string();
    files[1].path = "b".to_string();
    files[2].path = "c".to_string();
    files[3].path = "d".to_string();
    let sorted = sort_by_date(files).unwrap();
    let paths: Vec<&str> = sorted.iter().map(|f| f.path.as_str()).collect();
    assert_eq!(paths, vec!["b", "d", "a", "c"]);
    let same_day = vec![file("1", "2020-01-02"), file("2", "2020-1-2"), file("3", "2020-1-02")];
    let kept = sort_by_date(same_day.clone()).unwrap();
    assert_eq!(kept, same_day);
}
