//! The predicates of a scan: which lines separate records, which record is
//! the wanted one, and which records are successful cash withdrawals.
//!
//! Each predicate is a regular expression, and what it matches is stated
//! through [`pattern_found`].

use vstd::prelude::*;
use vstd::string::*;
use crate::engine::{pattern_found, Pattern};
use crate::session::{RawSession, RawSessionView, Session, SessionView};
use crate::splitter::{Line, LineView};

verus! {

/// A separator line is 55 asterisks and nothing else, but for a carriage
/// return at its end.
pub const SEPARATOR_PATTERN: &'static str = "^\\*{55}\\r?$";

/// A successful withdrawal: a response code of 00 on one line and a
/// withdrawal transaction type on the next, with either line ending. The
/// code may be followed by one space.
pub const WITHDRAWAL_PATTERN: &'static str =
    " RESP CODE : 00 ?\\r*\\n TRN TYPE  : (CASH WITHDRAWAL|FAST CASH)";

/// What stands before the trace number on a trace line.
pub const TRACE_PREFIX: &'static str = " TRACE     : ";

/// What must follow the trace number: anything but a digit, or the end of
/// the text. Without it the number 123 would be found in 1234.
pub const TRACE_SUFFIX: &'static str = "(?:[^0-9]|$)";

/// The byte of the digit 0.
pub const DIGIT_ZERO: u8 = 48;

/// The byte of the digit 9.
pub const DIGIT_NINE: u8 = 57;

/// Why a scan could not start.
#[derive(Debug, Clone, Copy, PartialEq, Eq)]
pub enum ScanError {
    /// The trace number is empty or holds something other than digits.
    InvalidTrace,
    /// The engine refused the separator pattern.
    SeparatorPattern,
    /// The engine refused the withdrawal pattern.
    WithdrawalPattern,
    /// The engine refused the pattern made of the trace number.
    TracePattern,
}

/// A decimal digit.
pub open spec fn is_digit(c: char) -> bool {
    '0' <= c && c <= '9'
}

/// A trace number is a non-empty string of decimal digits.
pub open spec fn trace_number(trace: Seq<char>) -> bool {
    trace.len() > 0 && forall|i: int| 0 <= i < trace.len() ==> is_digit(#[trigger] trace[i])
}

/// The pattern that finds the trace number `trace` as a whole token.
pub open spec fn trace_pattern_text(trace: Seq<char>) -> Seq<char> {
    TRACE_PREFIX@ + trace + TRACE_SUFFIX@
}

/// Whether `line` separates two records.
pub open spec fn is_separator_line(line: Seq<char>) -> bool {
    pattern_found(SEPARATOR_PATTERN@, line)
}

/// Whether the record `text` carries the trace number `trace`.
pub open spec fn is_target_text(trace: Seq<char>, text: Seq<char>) -> bool {
    pattern_found(trace_pattern_text(trace), text)
}

/// Whether the record `text` is a successful cash withdrawal.
pub open spec fn is_withdrawal_text(text: Seq<char>) -> bool {
    pattern_found(WITHDRAWAL_PATTERN@, text)
}

/// A line with its separator flag.
pub open spec fn flagged(line: Seq<char>) -> LineView {
    LineView { text: line, separator: is_separator_line(line) }
}

/// A record with its two classifications for the trace number `trace`.
pub open spec fn classified(trace: Seq<char>, raw: RawSessionView) -> SessionView {
    SessionView {
        text: raw.text,
        complete: raw.complete,
        is_target: is_target_text(trace, raw.text),
        is_success_withdrawal: is_withdrawal_text(raw.text),
    }
}

/// Says whether `trace` is a trace number.
pub fn is_trace_number(trace: &str) -> (ok: bool)
    ensures
        ok == trace_number(trace@),
{
    if !trace.is_ascii() {
        return false;
    }
    let n = trace.unicode_len();
    if n == 0 {
        return false;
    }
    let mut i: usize = 0;
    while i < n
        invariant
            i <= n,
            n == trace@.len(),
            trace.is_ascii(),
            forall|j: int| 0 <= j < i ==> is_digit(#[trigger] trace@[j]),
        decreases n - i,
    {
        let b = trace.get_ascii(i);
        if b < DIGIT_ZERO || b > DIGIT_NINE {
            assert(!is_digit(trace@[i as int]));
            return false;
        }
        i += 1;
    }
    true
}

/// Writes the pattern that finds `trace` as a whole token.
pub fn trace_pattern(trace: &str) -> (pattern: String)
    ensures
        pattern@ == trace_pattern_text(trace@),
{
    let mut pattern = String::from_str(TRACE_PREFIX);
    pattern.append(trace);
    pattern.append(TRACE_SUFFIX);
    pattern
}

/// The three compiled predicates of one scan.
pub struct Predicates {
    separator: Pattern,
    withdrawal: Pattern,
    target: Pattern,
}

impl Predicates {
    /// The pattern that decides which lines are separators.
    pub closed spec fn separator_pattern(&self) -> Seq<char> {
        self.separator.source()
    }

    /// The pattern that decides which records are successful withdrawals.
    pub closed spec fn withdrawal_pattern(&self) -> Seq<char> {
        self.withdrawal.source()
    }

    /// The pattern that decides which record is the target.
    pub closed spec fn target_pattern(&self) -> Seq<char> {
        self.target.source()
    }

    /// These are the predicates of a scan for the trace number `trace`.
    pub open spec fn scans_for(&self, trace: Seq<char>) -> bool {
        &&& self.separator_pattern() == SEPARATOR_PATTERN@
        &&& self.withdrawal_pattern() == WITHDRAWAL_PATTERN@
        &&& self.target_pattern() == trace_pattern_text(trace)
    }

    /// Compiles the predicates of a scan for `trace`. A trace that is no
    /// trace number is refused. For a trace number the engine decides: an
    /// error names the pattern that it refused.
    pub fn new(trace: &str) -> (made: Result<Predicates, ScanError>)
        ensures
            !trace_number(trace@) ==> made == Err::<Predicates, ScanError>(ScanError::InvalidTrace),
            made matches Ok(p) ==> p.scans_for(trace@),
            made matches Err(e) ==> (e == ScanError::InvalidTrace <==> !trace_number(trace@)),
    {
        if !is_trace_number(trace) {
            return Err(ScanError::InvalidTrace);
        }
        let pattern = trace_pattern(trace);
        let separator = Pattern::new(SEPARATOR_PATTERN);
        let withdrawal = Pattern::new(WITHDRAWAL_PATTERN);
        let target = Pattern::new(pattern.as_str());
        Predicates::assemble(separator, withdrawal, target)
    }

    /// Puts three compiled expressions together, or names the first pattern
    /// that the engine refused: the separator's, then the withdrawal's,
    /// then the target's.
    pub fn assemble(
        separator: Result<Pattern, regex::Error>,
        withdrawal: Result<Pattern, regex::Error>,
        target: Result<Pattern, regex::Error>,
    ) -> (made: Result<Predicates, ScanError>)
        ensures
            made is Ok <==> separator is Ok && withdrawal is Ok && target is Ok,
            made matches Ok(p) ==> {
                &&& p.separator_pattern() == separator->Ok_0.source()
                &&& p.withdrawal_pattern() == withdrawal->Ok_0.source()
                &&& p.target_pattern() == target->Ok_0.source()
            },
            made matches Err(e) ==> e == if separator is Err {
                ScanError::SeparatorPattern
            } else if withdrawal is Err {
                ScanError::WithdrawalPattern
            } else {
                ScanError::TracePattern
            },
    {
        match separator {
            Err(_) => Err(ScanError::SeparatorPattern),
            Ok(separator) => match withdrawal {
                Err(_) => Err(ScanError::WithdrawalPattern),
                Ok(withdrawal) => match target {
                    Err(_) => Err(ScanError::TracePattern),
                    Ok(target) => Ok(Predicates { separator, withdrawal, target }),
                },
            },
        }
    }

    /// Says whether `line` separates two records.
    pub fn is_separator(&self, line: &str) -> (found: bool)
        ensures
            found == pattern_found(self.separator_pattern(), line@),
    {
        self.separator.matches(line)
    }

    /// Says whether the record `text` is the wanted one.
    pub fn is_target(&self, text: &str) -> (found: bool)
        ensures
            found == pattern_found(self.target_pattern(), text@),
    {
        self.target.matches(text)
    }

    /// Says whether the record `text` is a successful cash withdrawal.
    pub fn is_success_withdrawal(&self, text: &str) -> (found: bool)
        ensures
            found == pattern_found(self.withdrawal_pattern(), text@),
    {
        self.withdrawal.matches(text)
    }

    /// Flags one line of the stream as a separator or not.
    pub fn flag(&self, text: String) -> (line: Line)
        ensures
            line@ == (LineView {
                text: text@,
                separator: pattern_found(self.separator_pattern(), text@),
            }),
    {
        let separator = self.is_separator(text.as_str());
        Line { text, separator }
    }

    /// Classifies one record.
    pub fn classify(&self, raw: RawSession) -> (session: Session)
        ensures
            session@ == (SessionView {
                text: raw@.text,
                complete: raw@.complete,
                is_target: pattern_found(self.target_pattern(), raw@.text),
                is_success_withdrawal: pattern_found(self.withdrawal_pattern(), raw@.text),
            }),
    {
        let is_target = self.is_target(raw.text.as_str());
        let is_success_withdrawal = self.is_success_withdrawal(raw.text.as_str());
        Session { text: raw.text, complete: raw.complete, is_target, is_success_withdrawal }
    }
}

} // verus!
