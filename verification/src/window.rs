//! The window selector: the state machine that consumes classified sessions
//! one at a time, keeps a bounded backlog before the target, counts the
//! successful withdrawals after it, and decides when to stop and whether
//! the context on both sides is sufficient.

use vstd::prelude::*;
use std::collections::VecDeque;
use crate::session::{session_views, Session, SessionView};

verus! {

/// What a session adds to a count of successful withdrawals: one if it is
/// one, nothing if it is not.
pub open spec fn success_value(s: SessionView) -> nat {
    if s.is_success_withdrawal {
        1
    } else {
        0
    }
}

/// How many of `sessions` are successful withdrawals.
pub open spec fn count_successes(sessions: Seq<SessionView>) -> nat
    decreases sessions.len(),
{
    if sessions.len() == 0 {
        0
    } else {
        count_successes(sessions.drop_last()) + success_value(sessions.last())
    }
}

/// The position of the first target among `sessions`, or their number if
/// none of them is a target.
pub open spec fn first_target(sessions: Seq<SessionView>) -> int
    decreases sessions.len(),
{
    if sessions.len() == 0 {
        0
    } else {
        let earlier = first_target(sessions.drop_last());
        if earlier < sessions.len() - 1 {
            earlier
        } else if sessions.last().is_target {
            sessions.len() - 1
        } else {
            sessions.len() as int
        }
    }
}

/// The longest tail of `backlog` that holds at most `window` successful
/// withdrawals: sessions leave from the front, one at a time, while there
/// are more.
pub open spec fn trimmed(backlog: Seq<SessionView>, window: nat) -> Seq<SessionView>
    decreases backlog.len(),
{
    if backlog.len() > 0 && count_successes(backlog) > window {
        trimmed(backlog.drop_first(), window)
    } else {
        backlog
    }
}

/// The outcome of a scan.
#[derive(Debug, Clone, PartialEq, Eq)]
pub enum ScanResult {
    /// No session carried the wanted trace number.
    NotFound,
    /// The target was found with a full window on both sides.
    FoundComplete { sessions: Vec<Session> },
    /// The target was found, but one side or both lack context. The
    /// deficits say how many successful withdrawals are missing before and
    /// after the target.
    FoundInsufficient { sessions: Vec<Session>, before_deficit: usize, after_deficit: usize },
}

/// The mathematical value of a [`ScanResult`].
pub ghost enum ScanResultView {
    NotFound,
    FoundComplete { sessions: Seq<SessionView> },
    FoundInsufficient { sessions: Seq<SessionView>, before_deficit: nat, after_deficit: nat },
}

impl View for ScanResult {
    type V = ScanResultView;

    open spec fn view(&self) -> ScanResultView {
        match self {
            ScanResult::NotFound => ScanResultView::NotFound,
            ScanResult::FoundComplete { sessions } => ScanResultView::FoundComplete {
                sessions: session_views(sessions@),
            },
            ScanResult::FoundInsufficient {
                sessions,
                before_deficit,
                after_deficit,
            } => ScanResultView::FoundInsufficient {
                sessions: session_views(sessions@),
                before_deficit: *before_deficit as nat,
                after_deficit: *after_deficit as nat,
            },
        }
    }
}

impl ScanResultView {
    /// History may be missing before the reported sessions: successful
    /// withdrawals are wanting, or no separator opened the first session.
    pub open spec fn lacks_before(self) -> bool {
        match self {
            ScanResultView::FoundInsufficient { sessions, before_deficit, .. } => before_deficit > 0
                || (sessions.len() > 0 && !sessions.first().complete),
            _ => false,
        }
    }

    /// The stream may go on after the reported sessions: successful
    /// withdrawals are wanting, or no separator closed the last session.
    pub open spec fn lacks_after(self) -> bool {
        match self {
            ScanResultView::FoundInsufficient { sessions, after_deficit, .. } => after_deficit > 0
                || (sessions.len() > 0 && !sessions.last().complete),
            _ => false,
        }
    }
}

impl ScanResult {
    /// Says whether context is missing before the target.
    pub fn lacks_before(&self) -> (lacking: bool)
        ensures
            lacking == self@.lacks_before(),
    {
        match self {
            ScanResult::FoundInsufficient { sessions, before_deficit, .. } => {
                *before_deficit > 0 || (sessions.len() > 0 && !sessions[0].complete)
            },
            _ => false,
        }
    }

    /// Says whether context is missing after the target.
    pub fn lacks_after(&self) -> (lacking: bool)
        ensures
            lacking == self@.lacks_after(),
    {
        match self {
            ScanResult::FoundInsufficient { sessions, after_deficit, .. } => {
                *after_deficit > 0 || (sessions.len() > 0 && !sessions[sessions.len() - 1].complete)
            },
            _ => false,
        }
    }
}

/// Where a scan stands.
#[derive(Debug, Clone, Copy, PartialEq, Eq)]
pub enum Phase {
    /// The target has not been found yet.
    Scanning,
    /// The target was found, and the window after it is not full yet.
    TargetFound,
    /// The target was found and the window after it is full.
    Done,
}

impl Phase {
    /// The phases in the order in which a scan goes through them.
    pub open spec fn rank(self) -> nat {
        match self {
            Phase::Scanning => 0,
            Phase::TargetFound => 1,
            Phase::Done => 2,
        }
    }
}

/// The mathematical value of a [`WindowState`].
pub ghost struct WindowView {
    /// The sessions retained so far, in stream order.
    pub backlog: Seq<SessionView>,
    /// Whether a target has been consumed.
    pub target_found: bool,
    /// Successful withdrawals retained before the target.
    pub successes_before: nat,
    /// Successful withdrawals consumed after the target.
    pub successes_after: nat,
    /// The window size N.
    pub window: nat,
}

impl WindowView {
    /// The state before any session was consumed.
    pub open spec fn initial(window: nat) -> WindowView {
        WindowView {
            backlog: Seq::empty(),
            target_found: false,
            successes_before: 0,
            successes_after: 0,
            window,
        }
    }

    /// The scan is over: the target was found and the window after it is
    /// full.
    pub open spec fn done(self) -> bool {
        self.target_found && self.successes_after >= self.window
    }

    /// Where the scan stands in this state.
    pub open spec fn phase(self) -> Phase {
        if !self.target_found {
            Phase::Scanning
        } else if self.done() {
            Phase::Done
        } else {
            Phase::TargetFound
        }
    }

    /// The counters agree with the backlog, and neither exceeds the window.
    pub open spec fn valid(self) -> bool {
        let t = first_target(self.backlog);
        if self.target_found {
            &&& t < self.backlog.len()
            &&& self.successes_before == count_successes(self.backlog.take(t))
            &&& self.successes_after == count_successes(self.backlog.skip(t + 1))
            &&& self.successes_before <= self.window
            &&& self.successes_after <= self.window
        } else {
            &&& t == self.backlog.len()
            &&& self.successes_before == count_successes(self.backlog)
            &&& self.successes_before <= self.window
            &&& self.successes_after == 0
        }
    }

    /// The state after one more session. A finished scan consumes nothing.
    /// The first target latches `target_found` and counts on neither side.
    /// Before the target a successful withdrawal counts as one before, and
    /// the backlog is trimmed when that makes more than the window; after
    /// the target it counts as one after.
    pub open spec fn step(self, s: SessionView) -> WindowView {
        let one = success_value(s);
        if self.done() {
            self
        } else if self.target_found {
            WindowView {
                backlog: self.backlog.push(s),
                successes_after: self.successes_after + one,
                ..self
            }
        } else if s.is_target {
            WindowView { backlog: self.backlog.push(s), target_found: true, ..self }
        } else if self.successes_before + one > self.window {
            WindowView {
                backlog: trimmed(self.backlog.push(s), self.window),
                successes_before: self.window,
                ..self
            }
        } else {
            WindowView {
                backlog: self.backlog.push(s),
                successes_before: self.successes_before + one,
                ..self
            }
        }
    }

    /// The state after consuming `sessions` in order.
    pub open spec fn feed(self, sessions: Seq<SessionView>) -> WindowView
        decreases sessions.len(),
    {
        if sessions.len() == 0 {
            self
        } else {
            self.feed(sessions.drop_last()).step(sessions.last())
        }
    }

    /// History may be missing before the window: too few successful
    /// withdrawals, or a first session that no separator opened.
    pub open spec fn insufficient_before(self) -> bool {
        self.successes_before < self.window || !self.backlog.first().complete
    }

    /// The stream may go on after the window: too few successful
    /// withdrawals, or a last session that no separator closed.
    pub open spec fn insufficient_after(self) -> bool {
        self.successes_after < self.window || !self.backlog.last().complete
    }

    /// What the scan reports when it ends in this state.
    pub open spec fn outcome(self) -> ScanResultView {
        if !self.target_found {
            ScanResultView::NotFound
        } else if self.insufficient_before() || self.insufficient_after() {
            ScanResultView::FoundInsufficient {
                sessions: self.backlog,
                before_deficit: (self.window - self.successes_before) as nat,
                after_deficit: (self.window - self.successes_after) as nat,
            }
        } else {
            ScanResultView::FoundComplete { sessions: self.backlog }
        }
    }
}

/// What a scan with window size `window` reports of `sessions`.
pub open spec fn window_outcome(sessions: Seq<SessionView>, window: nat) -> ScanResultView {
    WindowView::initial(window).feed(sessions).outcome()
}


/// Counting one session more adds one if it is a successful withdrawal.
pub proof fn lemma_count_push(sessions: Seq<SessionView>, s: SessionView)
    ensures
        count_successes(sessions.push(s)) == count_successes(sessions) + success_value(s),
{
    assert(sessions.push(s).drop_last() =~= sessions);
}

/// The count can be taken from the front as well as from the back.
pub proof fn lemma_count_front(sessions: Seq<SessionView>)
    requires
        sessions.len() > 0,
    ensures
        count_successes(sessions) == count_successes(sessions.drop_first()) + success_value(
            sessions[0],
        ),
    decreases sessions.len(),
{
    if sessions.len() == 1 {
        assert(sessions.drop_last() =~= Seq::<SessionView>::empty());
        assert(sessions.drop_first() =~= Seq::<SessionView>::empty());
    } else {
        lemma_count_front(sessions.drop_last());
        assert(sessions.drop_last().drop_first() =~= sessions.drop_first().drop_last());
    }
}

/// No more sessions are successful withdrawals than there are sessions.
pub proof fn lemma_count_bound(sessions: Seq<SessionView>)
    ensures
        count_successes(sessions) <= sessions.len(),
    decreases sessions.len(),
{
    if sessions.len() > 0 {
        lemma_count_bound(sessions.drop_last());
    }
}

/// The count of a sequence is the sum of the counts of its two parts.
pub proof fn lemma_count_split(sessions: Seq<SessionView>, at: int)
    requires
        0 <= at <= sessions.len(),
    ensures
        count_successes(sessions) == count_successes(sessions.take(at)) + count_successes(
            sessions.skip(at),
        ),
    decreases sessions.len(),
{
    if at == sessions.len() {
        assert(sessions.take(at) =~= sessions);
        assert(sessions.skip(at) =~= Seq::<SessionView>::empty());
    } else {
        lemma_count_split(sessions.drop_last(), at);
        assert(sessions.drop_last().take(at) =~= sessions.take(at));
        assert(sessions.skip(at).drop_last() =~= sessions.drop_last().skip(at));
    }
}

/// `first_target` is what its name says: no session before it is a target,
/// and it is one itself unless it lies past the end.
pub proof fn lemma_first_target(sessions: Seq<SessionView>)
    ensures
        0 <= first_target(sessions) <= sessions.len(),
        forall|i: int| 0 <= i < first_target(sessions) ==> !(#[trigger] sessions[i]).is_target,
        first_target(sessions) < sessions.len() ==> sessions[first_target(sessions)].is_target,
    decreases sessions.len(),
{
    if sessions.len() > 0 {
        lemma_first_target(sessions.drop_last());
        assert forall|i: int| 0 <= i < first_target(sessions) implies !(
        #[trigger] sessions[i]).is_target by {
            if i < sessions.len() - 1 {
                assert(sessions[i] == sessions.drop_last()[i]);
            }
        }
    }
}

/// A position that holds a target, with none before it, is the first
/// target's.
pub proof fn lemma_first_target_is(sessions: Seq<SessionView>, at: int)
    requires
        0 <= at <= sessions.len(),
        forall|i: int| 0 <= i < at ==> !(#[trigger] sessions[i]).is_target,
        at < sessions.len() ==> sessions[at].is_target,
    ensures
        first_target(sessions) == at,
{
    lemma_first_target(sessions);
}

/// Trimming drops a prefix, leaves at most `window` successful withdrawals,
/// and drops no more than it must: where anything left, the last session
/// to leave was a successful withdrawal and exactly `window` remain.
pub proof fn lemma_trimmed(backlog: Seq<SessionView>, window: nat)
    ensures
        trimmed(backlog, window).len() <= backlog.len(),
        trimmed(backlog, window) == backlog.skip(backlog.len() - trimmed(backlog, window).len()),
        count_successes(trimmed(backlog, window)) <= window,
        count_successes(backlog) <= window ==> trimmed(backlog, window) == backlog,
        count_successes(backlog) > window ==> {
            let dropped = backlog.len() - trimmed(backlog, window).len();
            &&& dropped > 0
            &&& backlog[dropped - 1].is_success_withdrawal
            &&& count_successes(trimmed(backlog, window)) == window
        },
    decreases backlog.len(),
{
    if backlog.len() > 0 && count_successes(backlog) > window {
        let rest = backlog.drop_first();
        lemma_trimmed(rest, window);
        lemma_count_front(backlog);
        let kept = trimmed(rest, window);
        let dropped = rest.len() - kept.len();
        assert(rest.skip(dropped) =~= backlog.skip(dropped + 1));
        if count_successes(rest) > window {
            assert(rest[dropped - 1] == backlog[dropped]);
        }
    } else {
        assert(backlog.skip(0) =~= backlog);
        lemma_count_bound(backlog);
    }
}

/// Every step keeps the state valid. Before the target is found, no more
/// than `window` successful withdrawals are retained; once it is found,
/// `target_found` stays, the count after it never goes down, and it never
/// goes past `window`.
pub proof fn lemma_step(state: WindowView, s: SessionView)
    requires
        state.valid(),
    ensures
        state.step(s).valid(),
        state.step(s).window == state.window,
        state.target_found ==> state.step(s).target_found,
        state.target_found ==> state.step(s).successes_before == state.successes_before,
        state.step(s).successes_after >= state.successes_after,
        state.step(s).successes_after <= state.successes_after + 1,
        state.step(s).successes_after <= state.window,
        !state.step(s).target_found ==> state.step(s).successes_before <= state.window,
{
    let grown = state.backlog.push(s);
    lemma_first_target(state.backlog);
    lemma_count_push(state.backlog, s);
    if state.done() {
    } else if state.target_found {
        let t = first_target(state.backlog);
        lemma_first_target_is(grown, t);
        assert(grown.take(t) =~= state.backlog.take(t));
        assert(grown.skip(t + 1) =~= state.backlog.skip(t + 1).push(s));
        lemma_count_push(state.backlog.skip(t + 1), s);
    } else if s.is_target {
        let t = state.backlog.len() as int;
        lemma_first_target_is(grown, t);
        assert(grown.take(t) =~= state.backlog);
        assert(grown.skip(t + 1) =~= Seq::<SessionView>::empty());
    } else {
        lemma_first_target_is(grown, grown.len() as int);
        lemma_trimmed(grown, state.window);
        let kept = trimmed(grown, state.window);
        let dropped = grown.len() - kept.len();
        assert forall|i: int| 0 <= i < kept.len() implies !(#[trigger] kept[i]).is_target by {
            assert(kept[i] == grown[i + dropped]);
        }
        lemma_first_target_is(kept, kept.len() as int);
    }
}

/// A scan never goes back: from scanning it can only go on to the target,
/// and from there to the end, where it stays.
pub proof fn lemma_phase_advances(state: WindowView, s: SessionView)
    requires
        state.valid(),
    ensures
        state.step(s).phase().rank() >= state.phase().rank(),
        state.phase() == Phase::Done ==> state.step(s) == state,
        state.phase() == Phase::Scanning && state.step(s).phase() != Phase::Scanning
            <==> !state.target_found && s.is_target,
{
    lemma_step(state, s);
}

/// A finished scan consumes nothing more, whatever follows.
pub proof fn lemma_done_is_final(state: WindowView, sessions: Seq<SessionView>)
    requires
        state.done(),
    ensures
        state.feed(sessions) == state,
    decreases sessions.len(),
{
    if sessions.len() > 0 {
        lemma_done_is_final(state, sessions.drop_last());
    }
}

/// Consuming two runs of sessions one after the other is consuming them
/// as one run.
pub proof fn lemma_feed_concat(state: WindowView, first: Seq<SessionView>, second: Seq<SessionView>)
    ensures
        state.feed(first + second) == state.feed(first).feed(second),
    decreases second.len(),
{
    if second.len() == 0 {
        assert(first + second =~= first);
    } else {
        lemma_feed_concat(state, first, second.drop_last());
        assert((first + second).drop_last() =~= first + second.drop_last());
        assert((first + second).last() == second.last());
    }
}

/// Over any run of sessions the state stays valid, so that at every point
/// before the target is found at most `window` successful withdrawals are
/// retained. Once the target is found it stays found, and the count after
/// it grows monotonically and stops at `window`: the scan never
/// overshoots.
pub proof fn lemma_feed(state: WindowView, sessions: Seq<SessionView>)
    requires
        state.valid(),
    ensures
        state.feed(sessions).valid(),
        state.feed(sessions).window == state.window,
        state.target_found ==> state.feed(sessions).target_found,
        state.target_found ==> state.feed(sessions).successes_before == state.successes_before,
        state.successes_after <= state.feed(sessions).successes_after <= state.window,
        !state.feed(sessions).target_found ==> state.feed(sessions).successes_before
            <= state.window,
    decreases sessions.len(),
{
    if sessions.len() > 0 {
        lemma_feed(state, sessions.drop_last());
        lemma_step(state.feed(sessions.drop_last()), sessions.last());
    }
}

/// Between any two points of a scan, the count of successful withdrawals
/// after the target does not go down, and a found target stays found.
pub proof fn lemma_after_count_monotone(
    sessions: Seq<SessionView>,
    window: nat,
    earlier: int,
    later: int,
)
    requires
        0 <= earlier <= later <= sessions.len(),
    ensures
        ({
            let a = WindowView::initial(window).feed(sessions.take(earlier));
            let b = WindowView::initial(window).feed(sessions.take(later));
            &&& a.target_found ==> b.target_found
            &&& a.successes_after <= b.successes_after <= window
        }),
{
    let a = WindowView::initial(window).feed(sessions.take(earlier));
    lemma_initial_valid(window);
    lemma_feed(WindowView::initial(window), sessions.take(earlier));
    let rest = sessions.subrange(earlier, later);
    assert(sessions.take(later) =~= sessions.take(earlier) + rest);
    lemma_feed_concat(WindowView::initial(window), sessions.take(earlier), rest);
    lemma_feed(a, rest);
}

/// A scan starts in a valid state.
pub proof fn lemma_initial_valid(window: nat)
    ensures
        WindowView::initial(window).valid(),
{
}

/// The scan reports `NotFound` exactly when no session is a target.
pub proof fn lemma_not_found(sessions: Seq<SessionView>, window: nat)
    ensures
        window_outcome(sessions, window) is NotFound <==> first_target(sessions) == sessions.len(),
        WindowView::initial(window).feed(sessions).target_found <==> first_target(sessions)
            < sessions.len(),
    decreases sessions.len(),
{
    lemma_first_target(sessions);
    if sessions.len() > 0 {
        lemma_not_found(sessions.drop_last(), window);
        lemma_first_target(sessions.drop_last());
        lemma_initial_valid(window);
        lemma_feed(WindowView::initial(window), sessions.drop_last());
    }
}

/// How many sessions at the end of `sessions` are no successful
/// withdrawals.
pub open spec fn tail_run(sessions: Seq<SessionView>) -> nat
    decreases sessions.len(),
{
    if sessions.len() == 0 || sessions.last().is_success_withdrawal {
        0
    } else {
        tail_run(sessions.drop_last()) + 1
    }
}

/// The length of the longest run of neighbours in `sessions` none of which
/// is a successful withdrawal.
pub open spec fn longest_gap(sessions: Seq<SessionView>) -> nat
    decreases sessions.len(),
{
    if sessions.len() == 0 {
        0
    } else if longest_gap(sessions.drop_last()) >= tail_run(sessions) {
        longest_gap(sessions.drop_last())
    } else {
        tail_run(sessions)
    }
}

/// A part of a stream has no longer gap than the stream.
pub proof fn lemma_gap_subrange(sessions: Seq<SessionView>, from: int, to: int)
    requires
        0 <= from <= to <= sessions.len(),
    ensures
        longest_gap(sessions.subrange(from, to)) <= longest_gap(sessions),
{
    lemma_gap_take(sessions, to);
    lemma_gap_skip(sessions.take(to), from);
    assert(sessions.take(to).skip(from) =~= sessions.subrange(from, to));
}

proof fn lemma_gap_take(sessions: Seq<SessionView>, to: int)
    requires
        0 <= to <= sessions.len(),
    ensures
        longest_gap(sessions.take(to)) <= longest_gap(sessions),
    decreases sessions.len(),
{
    if to == sessions.len() {
        assert(sessions.take(to) =~= sessions);
    } else {
        lemma_gap_take(sessions.drop_last(), to);
        assert(sessions.drop_last().take(to) =~= sessions.take(to));
    }
}

proof fn lemma_tail_run_skip(sessions: Seq<SessionView>, from: int)
    requires
        0 <= from <= sessions.len(),
    ensures
        tail_run(sessions.skip(from)) <= tail_run(sessions),
    decreases sessions.len(),
{
    if from < sessions.len() {
        assert(sessions.skip(from).last() == sessions.last());
        if !sessions.last().is_success_withdrawal {
            lemma_tail_run_skip(sessions.drop_last(), from);
            assert(sessions.skip(from).drop_last() =~= sessions.drop_last().skip(from));
        }
    }
}

proof fn lemma_gap_skip(sessions: Seq<SessionView>, from: int)
    requires
        0 <= from <= sessions.len(),
    ensures
        longest_gap(sessions.skip(from)) <= longest_gap(sessions),
    decreases sessions.len(),
{
    if from < sessions.len() {
        lemma_gap_skip(sessions.drop_last(), from);
        assert(sessions.skip(from).drop_last() =~= sessions.drop_last().skip(from));
        lemma_tail_run_skip(sessions, from);
    }
}

/// A stream is no longer than its successful withdrawals, a gap after each
/// of them, and the run at its end.
proof fn lemma_length_by_gaps(sessions: Seq<SessionView>, gap: nat)
    requires
        longest_gap(sessions) <= gap,
    ensures
        sessions.len() <= count_successes(sessions) + count_successes(sessions) * gap + tail_run(
            sessions,
        ),
        tail_run(sessions) <= gap,
    decreases sessions.len(),
{
    if sessions.len() > 0 {
        let rest = sessions.drop_last();
        lemma_length_by_gaps(rest, gap);
        let c = count_successes(rest);
        assert((c + 1) * gap == c * gap + gap) by (nonlinear_arith);
    }
}

/// The backlog is always a run of neighbours of the stream: the sessions
/// from some position up to the last one consumed, with nothing left out
/// in between. Nothing leaves it without need: if it does not start at
/// the start of the stream, the session just before it is a successful
/// withdrawal, and a full `window` of them is retained before the target.
/// The target that it holds is the first target of the stream.
pub proof fn lemma_backlog_range(sessions: Seq<SessionView>, window: nat) -> (range: (int, int))
    ensures
        0 <= range.0 <= range.1 <= sessions.len(),
        WindowView::initial(window).feed(sessions).backlog == sessions.subrange(range.0, range.1),
        !WindowView::initial(window).feed(sessions).done() ==> range.1 == sessions.len(),
        range.0 > 0 ==> sessions[range.0 - 1].is_success_withdrawal && WindowView::initial(
            window,
        ).feed(sessions).successes_before == window,
        WindowView::initial(window).feed(sessions).target_found ==> range.0 + first_target(
            WindowView::initial(window).feed(sessions).backlog,
        ) == first_target(sessions),
    decreases sessions.len(),
{
    if sessions.len() == 0 {
        assert(sessions.subrange(0, 0) =~= Seq::<SessionView>::empty());
        (0, 0)
    } else {
        let earlier = sessions.drop_last();
        let (from, to) = lemma_backlog_range(earlier, window);
        let before = WindowView::initial(window).feed(earlier);
        let after = before.step(sessions.last());
        lemma_initial_valid(window);
        lemma_feed(WindowView::initial(window), earlier);
        assert(earlier.subrange(from, to) =~= sessions.subrange(from, to));
        if before.done() {
            (from, to)
        } else {
            let grown = before.backlog.push(sessions.last());
            assert(grown =~= sessions.subrange(from, sessions.len() as int));
            lemma_trimmed(grown, window);
            lemma_count_push(before.backlog, sessions.last());
            lemma_step(before, sessions.last());
            lemma_not_found(earlier, window);
            lemma_first_target(before.backlog);
            if before.target_found {
                lemma_first_target_is(grown, first_target(before.backlog));
            } else if sessions.last().is_target {
                lemma_first_target_is(grown, before.backlog.len() as int);
            }
            let dropped = grown.len() - after.backlog.len();
            assert(grown.skip(dropped) =~= sessions.subrange(
                from + dropped,
                sessions.len() as int,
            ));
            (from + dropped, sessions.len() as int)
        }
    }
}

/// The backlog stays bounded: by the window size and the longest run of
/// sessions in the stream that are no successful withdrawals. Before the
/// target is found it holds at most `window` successful withdrawals and
/// the gaps around them; afterwards at most `2 * window + 1`.
pub proof fn lemma_backlog_bound(sessions: Seq<SessionView>, window: nat)
    ensures
        ({
            let state = WindowView::initial(window).feed(sessions);
            let gap = longest_gap(sessions);
            &&& state.backlog.len() <= (2 * window + 1) + (2 * window + 2) * gap
            &&& !state.target_found ==> state.backlog.len() <= window + (window + 1) * gap
        }),
{
    let state = WindowView::initial(window).feed(sessions);
    let gap = longest_gap(sessions);
    let (from, to) = lemma_backlog_range(sessions, window);
    lemma_gap_subrange(sessions, from, to);
    lemma_length_by_gaps(state.backlog, gap);
    lemma_initial_valid(window);
    lemma_feed(WindowView::initial(window), sessions);
    let c = count_successes(state.backlog);
    if state.target_found {
        let t = first_target(state.backlog);
        lemma_first_target(state.backlog);
        lemma_count_split(state.backlog, t);
        lemma_count_split(state.backlog.skip(t), 1);
        lemma_count_bound(state.backlog.skip(t).take(1));
        assert(state.backlog.skip(t).skip(1) =~= state.backlog.skip(t + 1));
        assert(c <= 2 * window + 1);
        assert(c + c * gap + gap <= (2 * window + 1) + (2 * window + 2) * gap) by (nonlinear_arith)
            requires
                c <= 2 * window + 1,
        ;
    } else {
        assert(c + c * gap + gap <= window + (window + 1) * gap) by (nonlinear_arith)
            requires
                c <= window,
        ;
        assert(window + (window + 1) * gap <= (2 * window + 1) + (2 * window + 2) * gap)
            by (nonlinear_arith);
    }
}

/// The outcome names the side that lacks context: a found target is
/// reported as lacking before or after exactly when the state is
/// insufficient on that side, and as complete when it is on neither.
pub proof fn lemma_outcome_sides(state: WindowView)
    requires
        state.valid(),
        state.target_found,
    ensures
        state.outcome().lacks_before() == state.insufficient_before(),
        state.outcome().lacks_after() == state.insufficient_after(),
        state.outcome() is FoundComplete <==> !state.insufficient_before()
            && !state.insufficient_after(),
{
    lemma_first_target(state.backlog);
}

/// The selector's state during one scan. The backlog is a queue: sessions
/// join it at the back and leave it at the front.
pub struct WindowState {
    backlog: VecDeque<Session>,
    target_found: bool,
    successes_before: usize,
    successes_after: usize,
    window: usize,
}

impl View for WindowState {
    type V = WindowView;

    closed spec fn view(&self) -> WindowView {
        WindowView {
            backlog: session_views(self.backlog@),
            target_found: self.target_found,
            successes_before: self.successes_before as nat,
            successes_after: self.successes_after as nat,
            window: self.window as nat,
        }
    }
}

impl WindowState {
    /// The state is one that a scan can be in.
    pub open spec fn wf(&self) -> bool {
        self@.valid()
    }

    /// A fresh state for a scan with window size `window`.
    pub fn new(window: usize) -> (state: WindowState)
        ensures
            state.wf(),
            state@ == WindowView::initial(window as nat),
    {
        let state = WindowState {
            backlog: VecDeque::new(),
            target_found: false,
            successes_before: 0,
            successes_after: 0,
            window,
        };
        assert(session_views(state.backlog@) =~= Seq::<SessionView>::empty());
        state
    }

    /// Whether the scan is over: the target was found and the window after
    /// it is full.
    pub fn is_done(&self) -> (done: bool)
        ensures
            done == self@.done(),
    {
        self.target_found && self.successes_after >= self.window
    }

    /// Where the scan stands.
    pub fn phase(&self) -> (phase: Phase)
        ensures
            phase == self@.phase(),
    {
        if !self.target_found {
            Phase::Scanning
        } else if self.successes_after >= self.window {
            Phase::Done
        } else {
            Phase::TargetFound
        }
    }

    /// Whether the target has been consumed.
    pub fn target_found(&self) -> (found: bool)
        ensures
            found == self@.target_found,
    {
        self.target_found
    }

    /// Successful withdrawals retained before the target.
    pub fn successes_before(&self) -> (count: usize)
        ensures
            count == self@.successes_before,
    {
        self.successes_before
    }

    /// Successful withdrawals consumed after the target.
    pub fn successes_after(&self) -> (count: usize)
        ensures
            count == self@.successes_after,
    {
        self.successes_after
    }

    /// The window size N.
    pub fn window(&self) -> (size: usize)
        ensures
            size == self@.window,
    {
        self.window
    }

    /// The number of sessions retained.
    pub fn retained(&self) -> (count: usize)
        ensures
            count == self@.backlog.len(),
    {
        self.backlog.len()
    }

    /// Consumes one session and says whether the scan is over.
    pub fn consume(&mut self, session: Session) -> (done: bool)
        requires
            old(self).wf(),
        ensures
            final(self).wf(),
            final(self)@ == old(self)@.step(session@),
            done == final(self)@.done(),
    {
        if self.is_done() {
            return true;
        }
        let ghost before = self@;
        let ghost s = session@;
        let ghost grown = before.backlog.push(s);
        let is_target = session.is_target;
        let success = session.is_success_withdrawal;
        self.backlog.push_back(session);
        proof {
            lemma_step(before, s);
            assert(session_views(self.backlog@) =~= grown);
        }
        if self.target_found {
            if success {
                self.successes_after += 1;
            }
        } else if is_target {
            self.target_found = true;
        } else {
            proof {
                lemma_count_push(before.backlog, s);
                lemma_count_bound(grown);
                lemma_trimmed(grown, before.window);
                assert(grown.len() == self.backlog.len());
            }
            if success {
                self.successes_before += 1;
            }
            while self.successes_before > self.window
                invariant
                    self.window == before.window,
                    self.target_found == before.target_found,
                    self.successes_after == before.successes_after,
                    self.successes_before == count_successes(session_views(self.backlog@)),
                    trimmed(session_views(self.backlog@), before.window) == trimmed(
                        grown,
                        before.window,
                    ),
                decreases self.backlog@.len(),
            {
                let ghost current = session_views(self.backlog@);
                proof {
                    lemma_count_bound(current);
                    lemma_count_front(current);
                }
                let removed = self.backlog.pop_front();
                proof {
                    assert(session_views(self.backlog@) =~= current.drop_first());
                }
                match removed {
                    Some(session) => {
                        if session.is_success_withdrawal {
                            self.successes_before -= 1;
                        }
                    },
                    None => {},
                }
            }
        }
        self.is_done()
    }

    /// Ends the scan and reports what it found.
    pub fn finish(self) -> (result: ScanResult)
        requires
            self.wf(),
        ensures
            result@ == self@.outcome(),
    {
        if !self.target_found {
            return ScanResult::NotFound;
        }
        proof {
            lemma_first_target(self@.backlog);
        }
        let last = self.backlog.len() - 1;
        let insufficient_before = self.successes_before < self.window || !self.backlog[0].complete;
        let insufficient_after = self.successes_after < self.window
            || !self.backlog[last].complete;
        let sessions = into_vec(self.backlog);
        if insufficient_before || insufficient_after {
            ScanResult::FoundInsufficient {
                sessions,
                before_deficit: self.window - self.successes_before,
                after_deficit: self.window - self.successes_after,
            }
        } else {
            ScanResult::FoundComplete { sessions }
        }
    }
}

/// Empties a queue of sessions into a vector, front first.
fn into_vec(queue: VecDeque<Session>) -> (sessions: Vec<Session>)
    ensures
        sessions@ == queue@,
{
    let mut queue = queue;
    let ghost all = queue@;
    let mut sessions: Vec<Session> = Vec::new();
    loop
        invariant
            sessions@ + queue@ == all,
        ensures
            sessions@ == all,
        decreases queue@.len(),
    {
        match queue.pop_front() {
            Some(session) => {
                sessions.push(session);
                assert(sessions@ + queue@ =~= all);
            },
            None => {
                assert(sessions@ + queue@ =~= sessions@);
                break;
            },
        }
    }
    sessions
}

/// Runs the selector over `sessions` and reports what it found.
pub fn select_window(sessions: Vec<Session>, window: usize) -> (result: ScanResult)
    ensures
        result@ == window_outcome(session_views(sessions@), window as nat),
{
    let ghost all = session_views(sessions@);
    let mut state = WindowState::new(window);
    for session in it: sessions.into_iter()
        invariant
            it.seq() == sessions@,
            all == session_views(sessions@),
            state.wf(),
            state@ == WindowView::initial(window as nat).feed(all.take(it.index() as int)),
    {
        proof {
            assert(all.take(it.index() + 1).drop_last() =~= all.take(it.index() as int));
            assert(all.take(it.index() + 1).last() == session@);
        }
        state.consume(session);
    }
    proof {
        assert(all.take(all.len() as int) =~= all);
    }
    state.finish()
}

} // verus!
