//! The scan: lines in, one at a time or all at once, and the window around
//! the wanted transaction out.

use vstd::prelude::*;
use crate::predicates::{classified, flagged, Predicates, ScanError, trace_number};
use crate::session::{text_views, RawSessionView, SessionView};
use crate::splitter::{
    emitted, lemma_emitted_prefix, split_sessions, LineView, SessionSplitter, SplitterView,
};
use crate::window::{
    lemma_after_count_monotone, lemma_feed, lemma_initial_valid, ScanResult, ScanResultView,
    WindowState, WindowView,
};

verus! {

/// The window size of a scan that is given no other: three successful
/// withdrawals on either side of the target.
pub const DEFAULT_WINDOW: usize = 3;

/// The lines of a stream, each with its separator flag.
pub open spec fn flagged_lines(lines: Seq<Seq<char>>) -> Seq<LineView> {
    Seq::new(lines.len(), |i: int| flagged(lines[i]))
}

/// The records of a stream, each classified for the trace number `trace`.
pub open spec fn classified_sessions(trace: Seq<char>, records: Seq<RawSessionView>) -> Seq<
    SessionView,
> {
    Seq::new(records.len(), |i: int| classified(trace, records[i]))
}

/// The selector's state after the lines read so far: it has consumed the
/// records that a separator has closed.
pub open spec fn progress(lines: Seq<Seq<char>>, trace: Seq<char>, window: nat) -> WindowView {
    WindowView::initial(window).feed(classified_sessions(trace, emitted(flagged_lines(lines))))
}

/// What a scan for `trace` with window size `window` reports of a stream
/// that consists of `lines`.
pub open spec fn scan_outcome(
    lines: Seq<Seq<char>>,
    trace: Seq<char>,
    window: nat,
) -> ScanResultView {
    WindowView::initial(window).feed(
        classified_sessions(trace, split_sessions(flagged_lines(lines))),
    ).outcome()
}

/// One more line lets the selector consume the record that the line
/// closes, if it closes one.
pub proof fn lemma_progress_push(
    lines: Seq<Seq<char>>,
    line: Seq<char>,
    trace: Seq<char>,
    window: nat,
)
    ensures
        progress(lines.push(line), trace, window) == match SplitterView::initial().feed(
            flagged_lines(lines),
        ).emits(flagged(line)) {
            Some(record) => progress(lines, trace, window).step(classified(trace, record)),
            None => progress(lines, trace, window),
        },
        SplitterView::initial().feed(flagged_lines(lines.push(line))) == SplitterView::initial().feed(
            flagged_lines(lines),
        ).step(flagged(line)),
{
    let more = flagged_lines(lines.push(line));
    assert(more.drop_last() =~= flagged_lines(lines));
    assert(more.last() == flagged(line));
    match SplitterView::initial().feed(flagged_lines(lines)).emits(flagged(line)) {
        Some(record) => {
            let records = emitted(flagged_lines(lines));
            let sessions = classified_sessions(trace, records.push(record));
            assert(sessions.drop_last() =~= classified_sessions(trace, records));
            assert(sessions.last() == classified(trace, record));
        },
        None => {},
    }
}

/// The outcome of a stream is the outcome of the selector's state after
/// its last line, once that state has consumed the record left open.
pub proof fn lemma_outcome_at_end(lines: Seq<Seq<char>>, trace: Seq<char>, window: nat)
    ensures
        scan_outcome(lines, trace, window) == match SplitterView::initial().feed(
            flagged_lines(lines),
        ).trailing() {
            Some(record) => progress(lines, trace, window).step(
                classified(trace, record),
            ).outcome(),
            None => progress(lines, trace, window).outcome(),
        },
{
    match SplitterView::initial().feed(flagged_lines(lines)).trailing() {
        Some(record) => {
            let records = emitted(flagged_lines(lines));
            let sessions = classified_sessions(trace, records.push(record));
            assert(sessions.drop_last() =~= classified_sessions(trace, records));
            assert(sessions.last() == classified(trace, record));
        },
        None => {},
    }
}

/// At every point of a scan the selector's state is valid: before the
/// target is found it retains at most `window` successful withdrawals, and
/// after it is found it has counted at most `window` of them.
pub proof fn lemma_progress_valid(lines: Seq<Seq<char>>, trace: Seq<char>, window: nat)
    ensures
        progress(lines, trace, window).valid(),
        progress(lines, trace, window).window == window,
{
    lemma_initial_valid(window);
    lemma_feed(
        WindowView::initial(window),
        classified_sessions(trace, emitted(flagged_lines(lines))),
    );
}

/// Once the scan is over, nothing that follows in the stream changes its
/// state or its outcome: the scan reads no further than the last session
/// of the window.
pub proof fn lemma_scan_stops(
    lines: Seq<Seq<char>>,
    rest: Seq<Seq<char>>,
    trace: Seq<char>,
    window: nat,
)
    requires
        progress(lines, trace, window).done(),
    ensures
        progress(lines + rest, trace, window) == progress(lines, trace, window),
        scan_outcome(lines + rest, trace, window) == scan_outcome(lines, trace, window),
    decreases rest.len(),
{
    if rest.len() == 0 {
        assert(lines + rest =~= lines);
    } else {
        let earlier = lines + rest.drop_last();
        lemma_scan_stops(lines, rest.drop_last(), trace, window);
        assert(lines + rest =~= earlier.push(rest.last()));
        lemma_progress_push(earlier, rest.last(), trace, window);
    }
    lemma_outcome_at_end(lines, trace, window);
    lemma_outcome_at_end(lines + rest, trace, window);
}

/// While the scan goes on, the count of successful withdrawals after the
/// target never goes down, and a target that was found stays found.
pub proof fn lemma_scan_monotone(
    lines: Seq<Seq<char>>,
    rest: Seq<Seq<char>>,
    trace: Seq<char>,
    window: nat,
)
    ensures
        progress(lines, trace, window).target_found ==> progress(
            lines + rest,
            trace,
            window,
        ).target_found,
        progress(lines, trace, window).successes_after <= progress(
            lines + rest,
            trace,
            window,
        ).successes_after <= window,
{
    let all = flagged_lines(lines + rest);
    assert(all.take(lines.len() as int) =~= flagged_lines(lines));
    lemma_emitted_prefix(all, lines.len() as int);
    let long = classified_sessions(trace, emitted(all));
    let short = classified_sessions(trace, emitted(flagged_lines(lines)));
    assert(long.take(short.len() as int) =~= short);
    assert(long.take(long.len() as int) =~= long);
    lemma_after_count_monotone(long, window, short.len() as int, long.len() as int);
}

/// Two scans that were handed the same lines, for the same trace number
/// and the same window size, stand in the same state, and what they
/// report when they end is the same.
pub proof fn lemma_scan_repeatable(scanned: Scanner, again: Scanner)
    requires
        scanned.wf(),
        again.wf(),
        scanned.lines() == again.lines(),
        scanned.trace() == again.trace(),
        scanned.window() == again.window(),
    ensures
        scanned.state() == again.state(),
        scan_outcome(scanned.lines(), scanned.trace(), scanned.window()) == scan_outcome(
            again.lines(),
            again.trace(),
            again.window(),
        ),
{
}

/// A scan in progress: it takes the stream line by line.
pub struct Scanner {
    predicates: Predicates,
    splitter: SessionSplitter,
    state: WindowState,
    trace: String,
    window: usize,
    lines: Ghost<Seq<Seq<char>>>,
}

impl Scanner {
    /// The lines handed to the scan so far.
    pub closed spec fn lines(&self) -> Seq<Seq<char>> {
        self.lines@
    }

    /// The trace number that the scan looks for.
    pub closed spec fn trace(&self) -> Seq<char> {
        self.trace@
    }

    /// The window size N.
    pub closed spec fn window(&self) -> nat {
        self.window as nat
    }

    /// The parts of the scanner agree with the lines it has been handed.
    pub closed spec fn wf(&self) -> bool {
        &&& self.predicates.scans_for(self.trace@)
        &&& self.state.wf()
        &&& self.state@ == progress(self.lines@, self.trace@, self.window as nat)
        &&& !self.state@.done() ==> self.splitter@ == SplitterView::initial().feed(
            flagged_lines(self.lines@),
        )
    }

    /// The selector's state after the lines handed over so far.
    pub open spec fn state(&self) -> WindowView {
        progress(self.lines(), self.trace(), self.window())
    }

    /// Starts a scan for `trace` with window size `window`. A trace that
    /// is no trace number is refused. For a trace number the engine
    /// decides: an error names the pattern that it refused.
    pub fn new(trace: &str, window: usize) -> (made: Result<Scanner, ScanError>)
        ensures
            !trace_number(trace@) ==> made == Err::<Scanner, ScanError>(ScanError::InvalidTrace),
            made matches Ok(scanner) ==> {
                &&& scanner.wf()
                &&& scanner.lines() == Seq::<Seq<char>>::empty()
                &&& scanner.trace() == trace@
                &&& scanner.window() == window
            },
            made matches Err(e) ==> (e == ScanError::InvalidTrace <==> !trace_number(trace@)),
    {
        match Predicates::new(trace) {
            Ok(predicates) => Ok(Scanner::with_predicates(predicates, trace, window)),
            Err(e) => Err(e),
        }
    }

    /// Starts a scan with predicates that are already compiled.
    pub fn with_predicates(predicates: Predicates, trace: &str, window: usize) -> (scanner: Scanner)
        requires
            predicates.scans_for(trace@),
        ensures
            scanner.wf(),
            scanner.lines() == Seq::<Seq<char>>::empty(),
            scanner.trace() == trace@,
            scanner.window() == window,
    {
        let scanner = Scanner {
            predicates,
            splitter: SessionSplitter::new(),
            state: WindowState::new(window),
            trace: trace.to_owned(),
            window,
            lines: Ghost(Seq::empty()),
        };
        proof {
            assert(flagged_lines(Seq::<Seq<char>>::empty()) =~= Seq::<LineView>::empty());
            assert(classified_sessions(trace@, Seq::<RawSessionView>::empty()) =~= Seq::<
                SessionView,
            >::empty());
        }
        scanner
    }

    /// Whether the scan is over: no further line will change its outcome.
    pub fn is_done(&self) -> (done: bool)
        requires
            self.wf(),
        ensures
            done == self.state().done(),
    {
        self.state.is_done()
    }

    /// Hands the next line of the stream to the scan, and says whether the
    /// scan is over. Once it is over, lines are taken and ignored.
    pub fn feed_line(&mut self, line: String) -> (done: bool)
        requires
            old(self).wf(),
        ensures
            final(self).wf(),
            final(self).lines() == old(self).lines().push(line@),
            final(self).trace() == old(self).trace(),
            final(self).window() == old(self).window(),
            done == final(self).state().done(),
            old(self).state().done() ==> final(self).state() == old(self).state(),
    {
        proof {
            lemma_progress_push(self.lines@, line@, self.trace@, self.window as nat);
        }
        self.lines = Ghost(self.lines@.push(line@));
        if self.state.is_done() {
            return true;
        }
        let flagged = self.predicates.flag(line);
        match self.splitter.push_line(flagged) {
            Some(record) => {
                let session = self.predicates.classify(record);
                self.state.consume(session)
            },
            None => false,
        }
    }

    /// Ends the stream and reports what the scan found.
    pub fn finish(self) -> (result: ScanResult)
        requires
            self.wf(),
        ensures
            result@ == scan_outcome(self.lines(), self.trace(), self.window()),
    {
        proof {
            lemma_outcome_at_end(self.lines@, self.trace@, self.window as nat);
        }
        if self.state.is_done() {
            return self.state.finish();
        }
        let Scanner { predicates, splitter, state, .. } = self;
        let mut state = state;
        match splitter.finish() {
            Some(record) => {
                let session = predicates.classify(record);
                state.consume(session);
            },
            None => {},
        }
        state.finish()
    }
}

/// Scans a whole stream for the trace number `trace` and selects the
/// window of `window` successful withdrawals on either side of it.
pub fn scan_for_trace(lines: Vec<String>, trace: &str, window: usize) -> (result: Result<
    ScanResult,
    ScanError,
>)
    ensures
        !trace_number(trace@) ==> result == Err::<ScanResult, ScanError>(ScanError::InvalidTrace),
        result matches Ok(found) ==> found@ == scan_outcome(
            text_views(lines@),
            trace@,
            window as nat,
        ),
        result matches Err(e) ==> (e == ScanError::InvalidTrace <==> !trace_number(trace@)),
{
    match Scanner::new(trace, window) {
        Ok(scanner) => Ok(scan_lines(scanner, lines)),
        Err(e) => Err(e),
    }
}

/// Hands a whole stream to a scan that has read nothing yet, and reports
/// what it found.
pub fn scan_lines(scanner: Scanner, lines: Vec<String>) -> (result: ScanResult)
    requires
        scanner.wf(),
        scanner.lines() == Seq::<Seq<char>>::empty(),
    ensures
        result@ == scan_outcome(text_views(lines@), scanner.trace(), scanner.window()),
{
    let ghost all = text_views(lines@);
    let ghost trace = scanner.trace();
    let ghost window = scanner.window();
    let mut scanner = scanner;
    proof {
        assert(all.take(0) =~= Seq::<Seq<char>>::empty());
    }
    for line in it: lines.into_iter()
        invariant
            it.seq() == lines@,
            all == text_views(lines@),
            scanner.wf(),
            scanner.trace() == trace,
            scanner.window() == window,
            scanner.lines() == all.take(it.index() as int),
    {
        proof {
            assert(all.take(it.index() as int).push(line@) =~= all.take(it.index() + 1));
        }
        scanner.feed_line(line);
    }
    proof {
        assert(all.take(all.len() as int) =~= all);
    }
    scanner.finish()
}

} // verus!
