//! The session splitter: cuts a stream of lines into records at the
//! separator lines, and marks each record as complete or not.

use vstd::prelude::*;
use crate::session::{
    join_lines, raw_session_views, record_text, text_views, RawSession, RawSessionView,
};

verus! {

/// One line of the stream, with the answer to "is it a separator?".
#[derive(Debug, Clone, PartialEq, Eq)]
pub struct Line {
    /// The line, without its line ending.
    pub text: String,
    /// Whether the line separates two records.
    pub separator: bool,
}

/// The mathematical value of a [`Line`].
pub ghost struct LineView {
    pub text: Seq<char>,
    pub separator: bool,
}

impl View for Line {
    type V = LineView;

    open spec fn view(&self) -> LineView {
        LineView { text: self.text@, separator: self.separator }
    }
}

/// The values of a sequence of lines, one for one.
pub open spec fn line_views(lines: Seq<Line>) -> Seq<LineView> {
    Seq::new(lines.len(), |i: int| lines[i]@)
}

/// The mathematical value of a [`SessionSplitter`].
pub ghost struct SplitterView {
    /// The lines gathered since the last separator.
    pub pending: Seq<Seq<char>>,
    /// Whether any separator has been seen so far.
    pub seen_separator: bool,
}

impl SplitterView {
    /// The state before any line was read.
    pub open spec fn initial() -> SplitterView {
        SplitterView { pending: Seq::empty(), seen_separator: false }
    }

    /// The state after one more line: a separator empties the accumulator
    /// and is remembered; any other line joins the accumulator.
    pub open spec fn step(self, line: LineView) -> SplitterView {
        if line.separator {
            SplitterView { pending: Seq::empty(), seen_separator: true }
        } else {
            SplitterView { pending: self.pending.push(line.text), ..self }
        }
    }

    /// The record that one more line closes, if it closes one: a separator
    /// that comes after gathered lines. The record is complete if a
    /// separator came before it too.
    pub open spec fn emits(self, line: LineView) -> Option<RawSessionView> {
        if line.separator && self.pending.len() > 0 {
            Some(RawSessionView { text: record_text(self.pending), complete: self.seen_separator })
        } else {
            None
        }
    }

    /// The record left over when the stream ends: the gathered lines, if
    /// any, as an incomplete record.
    pub open spec fn trailing(self) -> Option<RawSessionView> {
        if self.pending.len() > 0 {
            Some(RawSessionView { text: record_text(self.pending), complete: false })
        } else {
            None
        }
    }

    /// The state after reading `lines` in order.
    pub open spec fn feed(self, lines: Seq<LineView>) -> SplitterView
        decreases lines.len(),
    {
        if lines.len() == 0 {
            self
        } else {
            self.feed(lines.drop_last()).step(lines.last())
        }
    }
}

/// A sequence with one more element, if there is one.
pub open spec fn with_optional<T>(items: Seq<T>, more: Option<T>) -> Seq<T> {
    match more {
        Some(item) => items.push(item),
        None => items,
    }
}

/// The records that the separators among `lines` close, in stream order.
pub open spec fn emitted(lines: Seq<LineView>) -> Seq<RawSessionView>
    decreases lines.len(),
{
    if lines.len() == 0 {
        Seq::empty()
    } else {
        with_optional(
            emitted(lines.drop_last()),
            SplitterView::initial().feed(lines.drop_last()).emits(lines.last()),
        )
    }
}

/// All records of a stream that ends after `lines`: those that a separator
/// closed, then the trailing one if lines are left over.
pub open spec fn split_sessions(lines: Seq<LineView>) -> Seq<RawSessionView> {
    with_optional(emitted(lines), SplitterView::initial().feed(lines).trailing())
}

/// Whether a span of lines between separators starts at position `at`: the
/// line is no separator, and it is the first line or follows a separator.
pub open spec fn starts_span(lines: Seq<LineView>, at: int) -> bool {
    !lines[at].separator && (at == 0 || lines[at - 1].separator)
}

/// The number of non-empty spans in `lines`: the maximal runs of lines
/// that are no separators.
pub open spec fn span_count(lines: Seq<LineView>) -> nat
    decreases lines.len(),
{
    if lines.len() == 0 {
        0
    } else {
        span_count(lines.drop_last()) + if starts_span(lines, lines.len() - 1) {
            1nat
        } else {
            0nat
        }
    }
}

/// The number of separators among `lines`.
pub open spec fn separator_count(lines: Seq<LineView>) -> nat
    decreases lines.len(),
{
    if lines.len() == 0 {
        0
    } else {
        separator_count(lines.drop_last()) + if lines.last().separator {
            1nat
        } else {
            0nat
        }
    }
}

/// Lines are pending exactly when the last line read was no separator, and
/// a separator has been seen once the last line read was one.
pub proof fn lemma_pending(lines: Seq<LineView>)
    ensures
        SplitterView::initial().feed(lines).pending.len() > 0 <==> lines.len() > 0
            && !lines.last().separator,
        lines.len() > 0 && lines.last().separator ==> SplitterView::initial().feed(
            lines,
        ).seen_separator,
{
}

/// The pending lines are the span at the end of the stream: the lines
/// after the last separator, in order, and all of them.
pub proof fn lemma_pending_is_last_span(lines: Seq<LineView>)
    ensures
        ({
            let pending = SplitterView::initial().feed(lines).pending;
            let start = lines.len() - pending.len();
            &&& 0 <= start <= lines.len()
            &&& start > 0 ==> lines[start - 1].separator
            &&& forall|i: int|
                start <= i < lines.len() ==> !(#[trigger] lines[i]).separator && pending[i - start]
                    == lines[i].text
        }),
    decreases lines.len(),
{
    if lines.len() > 0 {
        let earlier = lines.drop_last();
        lemma_pending_is_last_span(earlier);
        let before = SplitterView::initial().feed(earlier).pending;
        let pending = SplitterView::initial().feed(lines).pending;
        let start = lines.len() - pending.len();
        if !lines.last().separator {
            assert forall|i: int| start <= i < lines.len() implies !(#[trigger] lines[i]).separator
                && pending[i - start] == lines[i].text by {
                if i < lines.len() - 1 {
                    assert(lines[i] == earlier[i]);
                }
            }
            if start > 0 {
                assert(lines[start - 1] == earlier[start - 1]);
            }
        }
    }
}

/// A separator counts as seen exactly when the stream holds one.
pub proof fn lemma_seen_separator(lines: Seq<LineView>)
    ensures
        SplitterView::initial().feed(lines).seen_separator <==> exists|i: int|
            0 <= i < lines.len() && (#[trigger] lines[i]).separator,
    decreases lines.len(),
{
    if lines.len() > 0 {
        let earlier = lines.drop_last();
        lemma_seen_separator(earlier);
        if lines.last().separator {
            assert(lines[lines.len() - 1].separator);
        } else if SplitterView::initial().feed(earlier).seen_separator {
            let i = choose|i: int| 0 <= i < earlier.len() && (#[trigger] earlier[i]).separator;
            assert(lines[i].separator);
        } else {
            assert forall|i: int| 0 <= i < lines.len() implies !(#[trigger] lines[i]).separator by {
                if i < lines.len() - 1 {
                    assert(lines[i] == earlier[i]);
                }
            }
        }
    }
}

/// The splitter produces one session for every non-empty span of lines
/// between separators, the spans at the two ends of the stream included.
pub proof fn lemma_session_count(lines: Seq<LineView>)
    ensures
        split_sessions(lines).len() == span_count(lines),
    decreases lines.len(),
{
    if lines.len() > 0 {
        let earlier = lines.drop_last();
        lemma_session_count(earlier);
        lemma_pending(earlier);
        lemma_pending(lines);
        if earlier.len() > 0 {
            assert(earlier.last() == lines[lines.len() - 2]);
        }
    }
}

/// In a stream that starts and ends with a separator and has no two
/// separators side by side, there is one session fewer than separators.
pub proof fn lemma_sessions_between_separators(lines: Seq<LineView>)
    requires
        lines.len() > 0,
        lines[0].separator,
        lines.last().separator,
        forall|i: int|
            0 <= i < lines.len() - 1 && (#[trigger] lines[i]).separator ==> !lines[i + 1].separator,
    ensures
        split_sessions(lines).len() == separator_count(lines) - 1,
{
    lemma_session_count(lines);
    lemma_spans_follow_separators(lines);
}

proof fn lemma_spans_follow_separators(lines: Seq<LineView>)
    requires
        lines.len() > 0,
        lines[0].separator,
        forall|i: int|
            0 <= i < lines.len() - 1 && (#[trigger] lines[i]).separator ==> !lines[i + 1].separator,
    ensures
        span_count(lines) + (if lines.last().separator {
            1nat
        } else {
            0nat
        }) == separator_count(lines),
    decreases lines.len(),
{
    let earlier = lines.drop_last();
    if earlier.len() == 0 {
        assert(span_count(earlier) == 0);
        assert(separator_count(earlier) == 0);
    } else {
        assert(earlier[0] == lines[0]);
        assert forall|i: int| 0 <= i < earlier.len() - 1 && (
        #[trigger] earlier[i]).separator implies !earlier[i + 1].separator by {
            assert(earlier[i] == lines[i]);
            assert(earlier[i + 1] == lines[i + 1]);
        }
        lemma_spans_follow_separators(earlier);
        assert(earlier.last() == lines[lines.len() - 2]);
    }
}

/// Whether the first session of a stream is complete depends on the
/// leading separator alone: it is complete exactly when the stream starts
/// with a separator, provided that a separator closes the session at all.
pub proof fn lemma_first_session_complete(lines: Seq<LineView>)
    requires
        split_sessions(lines).len() > 0,
    ensures
        lines.len() > 0,
        split_sessions(lines)[0].complete <==> lines[0].separator && emitted(lines).len() > 0,
{
    lemma_first_emitted(lines);
}

proof fn lemma_first_emitted(lines: Seq<LineView>)
    ensures
        emitted(lines).len() > 0 ==> lines.len() > 0 && emitted(lines)[0].complete
            == lines[0].separator,
        emitted(lines).len() == 0 && lines.len() > 0 ==> SplitterView::initial().feed(
            lines,
        ).seen_separator == lines[0].separator,
    decreases lines.len(),
{
    if lines.len() > 0 {
        let earlier = lines.drop_last();
        lemma_first_emitted(earlier);
        lemma_pending(earlier);
        if earlier.len() > 0 {
            assert(earlier[0] == lines[0]);
        }
    }
}

/// A stream that does not end with a separator ends with a session that
/// is not complete.
pub proof fn lemma_trailing_session_incomplete(lines: Seq<LineView>)
    requires
        lines.len() > 0,
        !lines.last().separator,
    ensures
        split_sessions(lines).len() > 0,
        !split_sessions(lines).last().complete,
{
    lemma_pending(lines);
}

/// Reading on never changes the sessions that were already closed: those
/// of a prefix of the stream come first among those of the stream.
pub proof fn lemma_emitted_prefix(lines: Seq<LineView>, upto: int)
    requires
        0 <= upto <= lines.len(),
    ensures
        emitted(lines.take(upto)).len() <= emitted(lines).len(),
        emitted(lines.take(upto)) == emitted(lines).take(emitted(lines.take(upto)).len() as int),
    decreases lines.len(),
{
    if upto == lines.len() {
        assert(lines.take(upto) =~= lines);
        assert(emitted(lines).take(emitted(lines).len() as int) =~= emitted(lines));
    } else {
        lemma_emitted_prefix(lines.drop_last(), upto);
        assert(lines.drop_last().take(upto) =~= lines.take(upto));
        let short = emitted(lines.take(upto));
        assert(emitted(lines).take(short.len() as int) =~= emitted(lines.drop_last()).take(
            short.len() as int,
        ));
    }
}

/// The splitter's state while it reads a stream.
pub struct SessionSplitter {
    parts: Vec<String>,
    seen_separator: bool,
}

impl View for SessionSplitter {
    type V = SplitterView;

    closed spec fn view(&self) -> SplitterView {
        SplitterView { pending: text_views(self.parts@), seen_separator: self.seen_separator }
    }
}

impl SessionSplitter {
    /// A splitter at the start of a stream.
    pub fn new() -> (splitter: SessionSplitter)
        ensures
            splitter@ == SplitterView::initial(),
    {
        let splitter = SessionSplitter { parts: Vec::new(), seen_separator: false };
        assert(text_views(splitter.parts@) =~= Seq::<Seq<char>>::empty());
        splitter
    }

    /// Reads one line, and hands out the record that it closes, if any.
    pub fn push_line(&mut self, line: Line) -> (out: Option<RawSession>)
        ensures
            final(self)@ == old(self)@.step(line@),
            match out {
                Some(record) => old(self)@.emits(line@) == Some(record@),
                None => old(self)@.emits(line@).is_none(),
            },
    {
        if !line.separator {
            let ghost before = text_views(self.parts@);
            self.parts.push(line.text);
            assert(text_views(self.parts@) =~= before.push(line@.text));
            return None;
        }
        let mut out: Option<RawSession> = None;
        if self.parts.len() > 0 {
            let text = join_lines(&self.parts);
            out = Some(RawSession { text, complete: self.seen_separator });
            self.parts.clear();
        }
        self.seen_separator = true;
        assert(text_views(self.parts@) =~= Seq::<Seq<char>>::empty());
        out
    }

    /// Ends the stream, and hands out the record that was left open, if
    /// any. It is never complete: the journal may go on elsewhere.
    pub fn finish(self) -> (out: Option<RawSession>)
        ensures
            match out {
                Some(record) => self@.trailing() == Some(record@),
                None => self@.trailing().is_none(),
            },
    {
        if self.parts.len() > 0 {
            let text = join_lines(&self.parts);
            Some(RawSession { text, complete: false })
        } else {
            None
        }
    }
}

/// Splits a whole stream into its records.
pub fn split_lines(lines: Vec<Line>) -> (sessions: Vec<RawSession>)
    ensures
        raw_session_views(sessions@) == split_sessions(line_views(lines@)),
{
    let ghost all = line_views(lines@);
    let mut splitter = SessionSplitter::new();
    let mut sessions: Vec<RawSession> = Vec::new();
    assert(raw_session_views(sessions@) =~= Seq::<RawSessionView>::empty());
    for line in it: lines.into_iter()
        invariant
            it.seq() == lines@,
            all == line_views(lines@),
            splitter@ == SplitterView::initial().feed(all.take(it.index() as int)),
            raw_session_views(sessions@) == emitted(all.take(it.index() as int)),
    {
        proof {
            assert(all.take(it.index() + 1).drop_last() =~= all.take(it.index() as int));
            assert(all.take(it.index() + 1).last() == line@);
        }
        let ghost before = raw_session_views(sessions@);
        match splitter.push_line(line) {
            Some(record) => {
                sessions.push(record);
                assert(raw_session_views(sessions@) =~= before.push(record@));
            },
            None => {},
        }
    }
    proof {
        assert(all.take(all.len() as int) =~= all);
    }
    let ghost before = raw_session_views(sessions@);
    match splitter.finish() {
        Some(record) => {
            sessions.push(record);
            assert(raw_session_views(sessions@) =~= before.push(record@));
        },
        None => {},
    }
    sessions
}

} // verus!
