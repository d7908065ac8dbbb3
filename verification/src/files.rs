//! Journal files: what is known of a file from its name, the rule that one
//! scan reads the files of one terminal only, and the order of the files
//! by the calendar.

use vstd::prelude::*;
use vstd::seq_lib::{to_multiset_build, to_multiset_contains, to_multiset_remove};
use vstd::string::*;
use crate::engine::{pattern_group, Pattern};
use crate::predicates::is_digit;

verus! {

/// A journal file, as its name describes it.
#[derive(Debug, Clone, PartialEq, Eq)]
pub struct JournalFile {
    /// The terminal that wrote the journal.
    pub terminal_id: String,
    /// The day that the journal covers, as the file's name writes it.
    pub date_time: String,
    /// Where the file lies.
    pub path: String,
}

/// The mathematical value of a [`JournalFile`].
pub ghost struct JournalFileView {
    pub terminal_id: Seq<char>,
    pub date_time: Seq<char>,
    pub path: Seq<char>,
}

impl View for JournalFile {
    type V = JournalFileView;

    open spec fn view(&self) -> JournalFileView {
        JournalFileView {
            terminal_id: self.terminal_id@,
            date_time: self.date_time@,
            path: self.path@,
        }
    }
}

/// The values of a sequence of journal files, one for one.
pub open spec fn journal_file_views(files: Seq<JournalFile>) -> Seq<JournalFileView> {
    Seq::new(files.len(), |i: int| files[i]@)
}

/// All of `files` belong to one terminal.
pub open spec fn single_terminal(files: Seq<JournalFileView>) -> bool {
    forall|i: int, j: int|
        0 <= i < files.len() && 0 <= j < files.len() ==> (#[trigger] files[i]).terminal_id == (
        #[trigger] files[j]).terminal_id
}

/// Says whether all of `files` belong to one terminal. A scan must not be
/// run on the journals of several terminals at once.
pub fn validate_journal_files(files: &Vec<JournalFile>) -> (ok: bool)
    ensures
        ok == single_terminal(journal_file_views(files@)),
{
    let ghost views = journal_file_views(files@);
    let mut i: usize = 1;
    while i < files.len()
        invariant
            1 <= i,
            views == journal_file_views(files@),
            forall|k: int|
                0 <= k < i && k < views.len() ==> (#[trigger] views[k]).terminal_id
                    == views[0].terminal_id,
        decreases files.len() - i,
    {
        if files[i].terminal_id != files[0].terminal_id {
            assert(views[i as int].terminal_id != views[0].terminal_id);
            return false;
        }
        i += 1;
    }
    true
}

/// A day of the calendar.
#[derive(Debug, Clone, Copy, PartialEq, Eq)]
pub struct Date {
    pub year: u32,
    pub month: u32,
    pub day: u32,
}

impl Date {
    /// This day is `other` or comes before it: the earlier year first, in
    /// one year the earlier month, in one month the earlier day.
    pub open spec fn not_after(self, other: Date) -> bool {
        self.year < other.year || (self.year == other.year && (self.month < other.month || (
        self.month == other.month && self.day <= other.day)))
    }

    /// Says whether this day is `other` or comes before it.
    pub fn is_not_after(&self, other: &Date) -> (ordered: bool)
        ensures
            ordered == self.not_after(*other),
    {
        self.year < other.year || (self.year == other.year && (self.month < other.month || (
        self.month == other.month && self.day <= other.day)))
    }
}

/// The number that a decimal digit stands for.
pub open spec fn digit_value(c: char) -> nat {
    (c as u32 - '0' as u32) as nat
}

/// The number that a string of decimal digits writes.
pub open spec fn number_of(digits: Seq<char>) -> nat
    decreases digits.len(),
{
    if digits.len() == 0 {
        0
    } else {
        number_of(digits.drop_last()) * 10 + digit_value(digits.last())
    }
}

/// Every character is a decimal digit.
pub open spec fn all_digits(text: Seq<char>) -> bool {
    forall|i: int| 0 <= i < text.len() ==> is_digit(#[trigger] text[i])
}

/// Where the hyphen behind the month stands in a date: behind a month of
/// one digit or of two.
pub open spec fn month_end(text: Seq<char>) -> int {
    if text.len() > 6 && text[6] == '-' {
        6
    } else {
        7
    }
}

/// A date as a file's name writes it: a year of four digits, a month of
/// one or two, a day of one or two, with a hyphen between each two.
pub open spec fn is_calendar_date(text: Seq<char>) -> bool {
    let cut = month_end(text);
    &&& cut + 1 < text.len() <= cut + 3
    &&& text[4] == '-'
    &&& text[cut] == '-'
    &&& all_digits(text.subrange(0, 4))
    &&& all_digits(text.subrange(5, cut))
    &&& all_digits(text.subrange(cut + 1, text.len() as int))
}

/// The day that a date text names: its three numbers. Nothing for a text
/// that is no date.
pub open spec fn calendar_date(text: Seq<char>) -> Option<Date> {
    if is_calendar_date(text) {
        let cut = month_end(text);
        Some(
            Date {
                year: number_of(text.subrange(0, 4)) as u32,
                month: number_of(text.subrange(5, cut)) as u32,
                day: number_of(text.subrange(cut + 1, text.len() as int)) as u32,
            },
        )
    } else {
        None
    }
}

/// A number of at most four digits is below ten to the number of its
/// digits.
pub proof fn lemma_number_bound(digits: Seq<char>)
    requires
        all_digits(digits),
    ensures
        digits.len() <= 1 ==> number_of(digits) <= 9,
        digits.len() <= 2 ==> number_of(digits) <= 99,
        digits.len() <= 3 ==> number_of(digits) <= 999,
        digits.len() <= 4 ==> number_of(digits) <= 9999,
    decreases digits.len(),
{
    if digits.len() > 0 {
        let earlier = digits.drop_last();
        assert forall|i: int| 0 <= i < earlier.len() implies is_digit(#[trigger] earlier[i]) by {
            assert(earlier[i] == digits[i]);
        }
        lemma_number_bound(earlier);
        assert(is_digit(digits[digits.len() - 1]));
    }
}

/// Reads the number that the characters from `from` up to `to` write, if
/// they are all digits. No more than four are read.
fn read_number(text: &str, from: usize, to: usize) -> (number: Option<u32>)
    requires
        from <= to <= text@.len(),
        to - from <= 4,
    ensures
        number is Some <==> all_digits(text@.subrange(from as int, to as int)),
        number matches Some(n) ==> n == number_of(text@.subrange(from as int, to as int)),
{
    let mut value: u32 = 0;
    let mut i: usize = from;
    proof {
        assert(text@.subrange(from as int, from as int) =~= Seq::<char>::empty());
    }
    while i < to
        invariant
            from <= i <= to <= text@.len(),
            to - from <= 4,
            all_digits(text@.subrange(from as int, i as int)),
            value == number_of(text@.subrange(from as int, i as int)),
        decreases to - i,
    {
        let c = text.get_char(i);
        let ghost read = text@.subrange(from as int, i as int);
        let ghost more = text@.subrange(from as int, i + 1);
        proof {
            assert(more.drop_last() =~= read);
            assert(more.last() == c);
        }
        if c < '0' || c > '9' {
            proof {
                let whole = text@.subrange(from as int, to as int);
                assert(whole[i - from] == c);
            }
            return None;
        }
        proof {
            assert forall|k: int| 0 <= k < more.len() implies is_digit(#[trigger] more[k]) by {
                if k < read.len() {
                    assert(more[k] == read[k]);
                }
            }
            lemma_number_bound(read);
            lemma_number_bound(more);
        }
        value = value * 10 + (c as u32 - '0' as u32);
        i += 1;
    }
    Some(value)
}

/// Reads the day that a date text names, if it is a date as a file's
/// name writes it.
pub fn parse_date(text: &str) -> (date: Option<Date>)
    ensures
        date == calendar_date(text@),
{
    let n = text.unicode_len();
    if n < 8 || n > 10 {
        return None;
    }
    if text.get_char(4) != '-' {
        return None;
    }
    let cut: usize = if text.get_char(6) == '-' { 6 } else { 7 };
    if !(cut + 1 < n && n <= cut + 3) {
        return None;
    }
    if text.get_char(cut) != '-' {
        return None;
    }
    match read_number(text, 0, 4) {
        Some(year) => match read_number(text, 5, cut) {
            Some(month) => match read_number(text, cut + 1, n) {
                Some(day) => Some(Date { year, month, day }),
                None => None,
            },
            None => None,
        },
        None => None,
    }
}

/// The name of a journal file: eight digits that name the terminal, a
/// hyphen, the date as year, month and day, and the ending `.txt`.
pub const FILE_NAME_PATTERN: &'static str =
    "^([0-9]{8})-([0-9]{4}-[0-9]{1,2}-[0-9]{1,2})\\.txt$";

/// The journal file that a terminal, a date and a path make. Both parts
/// of the name must be there, and the date must be one.
pub open spec fn journal_file_of(
    terminal_id: Option<Seq<char>>,
    date_time: Option<Seq<char>>,
    path: Seq<char>,
) -> Option<JournalFileView> {
    match (terminal_id, date_time) {
        (Some(terminal_id), Some(date_time)) => if is_calendar_date(date_time) {
            Some(JournalFileView { terminal_id, date_time, path })
        } else {
            None
        },
        _ => None,
    }
}

/// What the expression written as `pattern` makes of a file name: the
/// terminal is its first group and the date its second. A name that the
/// expression does not match is no journal file.
pub open spec fn journal_file_named(
    pattern: Seq<char>,
    file_name: Seq<char>,
    path: Seq<char>,
) -> Option<JournalFileView> {
    journal_file_of(
        pattern_group(pattern, file_name, 1),
        pattern_group(pattern, file_name, 2),
        path,
    )
}

/// Makes a journal file of the two parts of its name, if both are there
/// and the date is one.
pub fn journal_file_from_groups(
    terminal_id: Option<String>,
    date_time: Option<String>,
    path: String,
) -> (file: Option<JournalFile>)
    ensures
        match file {
            Some(found) => journal_file_of(views_of(terminal_id), views_of(date_time), path@)
                == Some(found@),
            None => journal_file_of(views_of(terminal_id), views_of(date_time), path@).is_none(),
        },
{
    match terminal_id {
        Some(terminal_id) => match date_time {
            Some(date_time) => {
                if parse_date(date_time.as_str()).is_some() {
                    Some(JournalFile { terminal_id, date_time, path })
                } else {
                    None
                }
            },
            None => None,
        },
        None => None,
    }
}

/// The characters of a string that may be missing.
pub open spec fn views_of(text: Option<String>) -> Option<Seq<char>> {
    match text {
        Some(s) => Some(s@),
        None => None,
    }
}

/// One entry of a directory: a file's name and where the file lies.
#[derive(Debug, Clone, PartialEq, Eq)]
pub struct DirectoryEntry {
    pub file_name: String,
    pub path: String,
}

/// The mathematical value of a [`DirectoryEntry`].
pub ghost struct DirectoryEntryView {
    pub file_name: Seq<char>,
    pub path: Seq<char>,
}

impl View for DirectoryEntry {
    type V = DirectoryEntryView;

    open spec fn view(&self) -> DirectoryEntryView {
        DirectoryEntryView { file_name: self.file_name@, path: self.path@ }
    }
}

/// The values of a sequence of directory entries, one for one.
pub open spec fn directory_entry_views(entries: Seq<DirectoryEntry>) -> Seq<DirectoryEntryView> {
    Seq::new(entries.len(), |i: int| entries[i]@)
}

/// The journal files among `entries`, in the order of the entries.
pub open spec fn journal_files_among(pattern: Seq<char>, entries: Seq<DirectoryEntryView>) -> Seq<
    JournalFileView,
>
    decreases entries.len(),
{
    if entries.len() == 0 {
        Seq::empty()
    } else {
        let earlier = journal_files_among(pattern, entries.drop_last());
        match journal_file_named(pattern, entries.last().file_name, entries.last().path) {
            Some(file) => earlier.push(file),
            None => earlier,
        }
    }
}

/// Every file carries a date.
pub open spec fn all_dated(files: Seq<JournalFileView>) -> bool {
    forall|i: int| 0 <= i < files.len() ==> is_calendar_date((#[trigger] files[i]).date_time)
}

/// The journal files found among the entries of a directory all carry a
/// date.
pub proof fn lemma_journal_files_dated(pattern: Seq<char>, entries: Seq<DirectoryEntryView>)
    ensures
        all_dated(journal_files_among(pattern, entries)),
    decreases entries.len(),
{
    if entries.len() > 0 {
        lemma_journal_files_dated(pattern, entries.drop_last());
    }
}

/// The files are in ascending order of the calendar: each carries a date,
/// and no file comes before a file of an earlier day.
pub open spec fn ordered_by_date(files: Seq<JournalFileView>) -> bool {
    forall|i: int, j: int|
        0 <= i < j < files.len() ==> dated_in_order(#[trigger] files[i], #[trigger] files[j])
}

/// Both files carry a date, and the first one's is not after the second
/// one's.
pub open spec fn dated_in_order(first: JournalFileView, second: JournalFileView) -> bool {
    match (calendar_date(first.date_time), calendar_date(second.date_time)) {
        (Some(a), Some(b)) => a.not_after(b),
        _ => false,
    }
}

/// The files of one day among `files`, in their order.
pub open spec fn files_dated(files: Seq<JournalFileView>, date: Date) -> Seq<JournalFileView>
    decreases files.len(),
{
    if files.len() == 0 {
        Seq::empty()
    } else if calendar_date(files.last().date_time) == Some(date) {
        files_dated(files.drop_last(), date).push(files.last())
    } else {
        files_dated(files.drop_last(), date)
    }
}

/// The files of one day in two runs of files, one after the other, are
/// those in the first run and then those in the second.
pub proof fn lemma_files_dated_concat(
    first: Seq<JournalFileView>,
    second: Seq<JournalFileView>,
    date: Date,
)
    ensures
        files_dated(first + second, date) == files_dated(first, date) + files_dated(second, date),
    decreases second.len(),
{
    if second.len() == 0 {
        assert(first + second =~= first);
        assert(files_dated(first, date) + files_dated(second, date) =~= files_dated(first, date));
    } else {
        lemma_files_dated_concat(first, second.drop_last(), date);
        assert((first + second).drop_last() =~= first + second.drop_last());
        assert((first + second).last() == second.last());
        if calendar_date(second.last().date_time) == Some(date) {
            assert(files_dated(first + second, date) =~= files_dated(first, date) + files_dated(
                second,
                date,
            ));
        }
    }
}

/// Where no file is of a day, the files of that day are none.
pub proof fn lemma_files_dated_none(files: Seq<JournalFileView>, date: Date)
    requires
        forall|k: int|
            0 <= k < files.len() ==> calendar_date((#[trigger] files[k]).date_time) != Some(date),
    ensures
        files_dated(files, date) == Seq::<JournalFileView>::empty(),
    decreases files.len(),
{
    if files.len() > 0 {
        let earlier = files.drop_last();
        assert forall|k: int| 0 <= k < earlier.len() implies calendar_date(
            (#[trigger] earlier[k]).date_time,
        ) != Some(date) by {
            assert(earlier[k] == files[k]);
        }
        lemma_files_dated_none(earlier, date);
        assert(calendar_date(files[files.len() - 1].date_time) != Some(date));
    }
}

/// A file put into an ordered sequence behind the last file that is not
/// after it leaves the sequence ordered and adds that file and nothing
/// else. Among the files of its own day it comes last; the files of any
/// other day stay as they are.
pub proof fn lemma_insert_in_order(
    files: Seq<JournalFileView>,
    at: int,
    file: JournalFileView,
    key: Date,
)
    requires
        ordered_by_date(files),
        all_dated(files),
        calendar_date(file.date_time) == Some(key),
        0 <= at <= files.len(),
        at > 0 ==> dated_in_order(files[at - 1], file),
        forall|k: int|
            at <= k < files.len() ==> !(calendar_date(
                (#[trigger] files[k]).date_time,
            )->Some_0.not_after(key)),
    ensures
        ordered_by_date(files.insert(at, file)),
        all_dated(files.insert(at, file)),
        files.insert(at, file).to_multiset() == files.to_multiset().insert(file),
        forall|date: Date|
            #[trigger] files_dated(files.insert(at, file), date) == if date == key {
                files_dated(files, date).push(file)
            } else {
                files_dated(files, date)
            },
{
    let after = files.insert(at, file);
    assert forall|i: int| 0 <= i < after.len() implies is_calendar_date(
        (#[trigger] after[i]).date_time,
    ) by {
        if i < at {
            assert(after[i] == files[i]);
        } else if i > at {
            assert(after[i] == files[i - 1]);
        }
    }
    assert forall|i: int, j: int| 0 <= i < j < after.len() implies dated_in_order(
        #[trigger] after[i],
        #[trigger] after[j],
    ) by {
        if j == at {
            assert(after[i] == files[i]);
            if i < at - 1 {
                assert(dated_in_order(files[i], files[at - 1]));
            }
        } else if i == at {
            assert(after[j] == files[j - 1]);
            assert(is_calendar_date(files[j - 1].date_time));
        } else {
            let bi = if i < at { i } else { i - 1 };
            let bj = if j < at { j } else { j - 1 };
            assert(after[i] == files[bi]);
            assert(after[j] == files[bj]);
        }
    }
    assert(after.remove(at) =~= files);
    to_multiset_remove(after, at);
    assert(after[at] == file);
    to_multiset_contains(after, file);
    assert(after.to_multiset() =~= files.to_multiset().insert(file));
    let head = files.take(at);
    let tail = files.skip(at);
    assert(files =~= head + tail);
    assert(after =~= head + seq![file] + tail);
    assert forall|date: Date| #[trigger] files_dated(after, date) == if date == key {
        files_dated(files, date).push(file)
    } else {
        files_dated(files, date)
    } by {
        lemma_files_dated_concat(head, tail, date);
        lemma_files_dated_concat(head + seq![file], tail, date);
        lemma_files_dated_concat(head, seq![file], date);
        assert(seq![file].drop_last() =~= Seq::<JournalFileView>::empty());
        assert(seq![file].last() == file);
        assert(files_dated(Seq::<JournalFileView>::empty(), date) =~= Seq::<
            JournalFileView,
        >::empty());
        if date == key {
            assert forall|k: int| 0 <= k < tail.len() implies calendar_date(
                (#[trigger] tail[k]).date_time,
            ) != Some(date) by {
                assert(tail[k] == files[k + at]);
                assert(is_calendar_date(files[k + at].date_time));
            }
            lemma_files_dated_none(tail, date);
            assert(files_dated(seq![file], date) =~= seq![file]);
            assert(files_dated(after, date) =~= files_dated(files, date).push(file));
        } else {
            assert(files_dated(seq![file], date) =~= Seq::<JournalFileView>::empty());
            assert(files_dated(after, date) =~= files_dated(files, date));
        }
    }
}

/// Reads the dates of `files`, one for one, if every file carries one.
pub fn read_dates(files: &Vec<JournalFile>) -> (dates: Option<Vec<Date>>)
    ensures
        dates is Some <==> all_dated(journal_file_views(files@)),
        dates matches Some(read) ==> {
            &&& read@.len() == files@.len()
            &&& forall|i: int|
                0 <= i < read@.len() ==> calendar_date(files@[i]@.date_time) == Some(
                    #[trigger] read@[i],
                )
        },
{
    let ghost views = journal_file_views(files@);
    let mut dates: Vec<Date> = Vec::new();
    let mut i: usize = 0;
    while i < files.len()
        invariant
            i <= files@.len(),
            views == journal_file_views(files@),
            dates@.len() == i,
            forall|k: int|
                0 <= k < i ==> calendar_date(files@[k]@.date_time) == Some(#[trigger] dates@[k]),
        decreases files.len() - i,
    {
        match parse_date(files[i].date_time.as_str()) {
            Some(date) => dates.push(date),
            None => {
                assert(!is_calendar_date(views[i as int].date_time));
                return None;
            },
        }
        i += 1;
    }
    proof {
        assert forall|k: int| 0 <= k < views.len() implies is_calendar_date(
            (#[trigger] views[k]).date_time,
        ) by {
            assert(calendar_date(files@[k]@.date_time) == Some(dates@[k]));
        }
    }
    Some(dates)
}

/// Puts journal files in ascending order of the calendar, if every file
/// carries a date. Nothing is added and nothing is lost, and the files of
/// one day keep their order.
pub fn sort_by_date(files: Vec<JournalFile>) -> (sorted: Option<Vec<JournalFile>>)
    ensures
        sorted is Some <==> all_dated(journal_file_views(files@)),
        sorted matches Some(ordered) ==> {
            &&& ordered_by_date(journal_file_views(ordered@))
            &&& journal_file_views(ordered@).to_multiset() == journal_file_views(
                files@,
            ).to_multiset()
            &&& forall|date: Date|
                #[trigger] files_dated(journal_file_views(ordered@), date) == files_dated(
                    journal_file_views(files@),
                    date,
                )
        },
{
    let dates = match read_dates(&files) {
        Some(dates) => dates,
        None => { return None; },
    };
    let ghost all = journal_file_views(files@);
    let mut sorted: Vec<JournalFile> = Vec::new();
    let mut keys: Vec<Date> = Vec::new();
    let mut next: usize = 0;
    proof {
        assert(journal_file_views(sorted@) =~= all.take(0));
    }
    for file in it: files.into_iter()
        invariant
            it.seq() == files@,
            all == journal_file_views(files@),
            all_dated(all),
            next == it.index(),
            dates@.len() == files@.len(),
            forall|i: int|
                0 <= i < dates@.len() ==> calendar_date(files@[i]@.date_time) == Some(
                    #[trigger] dates@[i],
                ),
            keys@.len() == sorted@.len(),
            forall|k: int|
                0 <= k < keys@.len() ==> calendar_date(
                    journal_file_views(sorted@)[k].date_time,
                ) == Some(#[trigger] keys@[k]),
            all_dated(journal_file_views(sorted@)),
            ordered_by_date(journal_file_views(sorted@)),
            journal_file_views(sorted@).to_multiset() == all.take(it.index() as int).to_multiset(),
            forall|date: Date|
                #[trigger] files_dated(journal_file_views(sorted@), date) == files_dated(
                    all.take(it.index() as int),
                    date,
                ),
    {
        let ghost before = journal_file_views(sorted@);
        let ghost old_keys = keys@;
        let key = dates[next];
        let mut at: usize = sorted.len();
        while at > 0 && !keys[at - 1].is_not_after(&key)
            invariant
                at <= keys@.len(),
                keys@ == old_keys,
                forall|k: int| at <= k < keys@.len() ==> !(#[trigger] keys@[k]).not_after(key),
            decreases at,
        {
            at -= 1;
        }
        proof {
            assert(calendar_date(file@.date_time) == Some(key)) by {
                assert(files@[next as int]@ == file@);
            }
            assert forall|k: int| at <= k < before.len() implies !(calendar_date(
                (#[trigger] before[k]).date_time,
            )->Some_0.not_after(key)) by {
                assert(calendar_date(before[k].date_time) == Some(keys@[k]));
            }
            if at > 0 {
                assert(calendar_date(before[at - 1].date_time) == Some(keys@[at - 1]));
            }
            lemma_insert_in_order(before, at as int, file@, key);
            to_multiset_build(all.take(it.index() as int), file@);
            let taken = all.take(it.index() + 1);
            assert(all.take(it.index() as int).push(file@) =~= taken);
            assert(taken.drop_last() =~= all.take(it.index() as int));
            assert(taken.last() == file@);
        }
        sorted.insert(at, file);
        keys.insert(at, key);
        proof {
            let after = journal_file_views(sorted@);
            assert(after =~= before.insert(at as int, file@));
            assert forall|k: int| 0 <= k < keys@.len() implies calendar_date(
                after[k].date_time,
            ) == Some(#[trigger] keys@[k]) by {
                if k < at {
                    assert(after[k] == before[k]);
                    assert(keys@[k] == old_keys[k]);
                } else if k > at {
                    assert(after[k] == before[k - 1]);
                    assert(keys@[k] == old_keys[k - 1]);
                }
            }
        }
        assert(next < dates.len());
        next += 1;
    }
    proof {
        assert(all.take(all.len() as int) =~= all);
    }
    Some(sorted)
}

/// Recognises journal files by their names.
pub struct FileNames {
    pattern: Pattern,
}

impl FileNames {
    /// The pattern that file names are held against.
    pub closed spec fn pattern(&self) -> Seq<char> {
        self.pattern.source()
    }

    /// Compiles the file-name pattern. The engine decides whether that
    /// succeeds.
    pub fn new() -> (made: Option<FileNames>)
        ensures
            made matches Some(names) ==> names.pattern() == FILE_NAME_PATTERN@,
    {
        FileNames::from_compiled(Pattern::new(FILE_NAME_PATTERN))
    }

    /// Takes the compiled file-name pattern, if the engine accepted it.
    pub fn from_compiled(compiled: Result<Pattern, regex::Error>) -> (made: Option<FileNames>)
        ensures
            made is Some <==> compiled is Ok,
            made matches Some(names) ==> names.pattern() == compiled->Ok_0.source(),
    {
        match compiled {
            Ok(pattern) => Some(FileNames { pattern }),
            Err(_) => None,
        }
    }

    /// Reads terminal and date out of a file's name, if it is the name of
    /// a journal file.
    pub fn parse(&self, file_name: &str, path: String) -> (file: Option<JournalFile>)
        ensures
            match file {
                Some(found) => journal_file_named(self.pattern(), file_name@, path@) == Some(
                    found@,
                ),
                None => journal_file_named(self.pattern(), file_name@, path@).is_none(),
            },
    {
        let terminal_id = self.pattern.group(file_name, 1);
        let date_time = self.pattern.group(file_name, 2);
        journal_file_from_groups(terminal_id, date_time, path)
    }

    /// Picks the journal files out of the entries of a directory, in the
    /// order of the entries.
    pub fn select(&self, entries: Vec<DirectoryEntry>) -> (files: Vec<JournalFile>)
        ensures
            journal_file_views(files@) == journal_files_among(
                self.pattern(),
                directory_entry_views(entries@),
            ),
            all_dated(journal_file_views(files@)),
    {
        let ghost all = directory_entry_views(entries@);
        let mut files: Vec<JournalFile> = Vec::new();
        assert(journal_file_views(files@) =~= Seq::<JournalFileView>::empty());
        for entry in it: entries.into_iter()
            invariant
                it.seq() == entries@,
                all == directory_entry_views(entries@),
                journal_file_views(files@) == journal_files_among(
                    self.pattern(),
                    all.take(it.index() as int),
                ),
        {
            proof {
                assert(all.take(it.index() + 1).drop_last() =~= all.take(it.index() as int));
                assert(all.take(it.index() + 1).last() == entry@);
            }
            let ghost before = journal_file_views(files@);
            match self.parse(entry.file_name.as_str(), entry.path) {
                Some(file) => {
                    files.push(file);
                    assert(journal_file_views(files@) =~= before.push(file@));
                },
                None => {},
            }
        }
        proof {
            assert(all.take(all.len() as int) =~= all);
            lemma_journal_files_dated(self.pattern(), all);
        }
        files
    }
}

} // verus!
