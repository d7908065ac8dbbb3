//! Sessions: the transaction records of a journal, and the text operations
//! on them.

use vstd::prelude::*;
use vstd::string::*;

verus! {

/// The line that separates two sessions in a rendered journal extract.
pub const SEPARATOR_LINE: &'static str = "*******************************************************";

/// A record as the splitter cuts it out of the stream, not yet classified.
#[derive(Debug, Clone, PartialEq, Eq)]
pub struct RawSession {
    /// The lines of the record, joined by newlines, in stream order.
    pub text: String,
    /// Whether a separator was seen on both sides of the record.
    pub complete: bool,
}

/// The mathematical value of a [`RawSession`].
pub ghost struct RawSessionView {
    pub text: Seq<char>,
    pub complete: bool,
}

impl View for RawSession {
    type V = RawSessionView;

    open spec fn view(&self) -> RawSessionView {
        RawSessionView { text: self.text@, complete: self.complete }
    }
}

/// A classified record: the unit that the window selector works on.
#[derive(Debug, Clone, PartialEq, Eq)]
pub struct Session {
    /// The lines of the record, joined by newlines, in stream order.
    pub text: String,
    /// Whether a separator was seen on both sides of the record.
    pub complete: bool,
    /// Whether the record carries the wanted trace number.
    pub is_target: bool,
    /// Whether the record is a successful cash withdrawal.
    pub is_success_withdrawal: bool,
}

/// The mathematical value of a [`Session`].
pub ghost struct SessionView {
    pub text: Seq<char>,
    pub complete: bool,
    pub is_target: bool,
    pub is_success_withdrawal: bool,
}

impl View for Session {
    type V = SessionView;

    open spec fn view(&self) -> SessionView {
        SessionView {
            text: self.text@,
            complete: self.complete,
            is_target: self.is_target,
            is_success_withdrawal: self.is_success_withdrawal,
        }
    }
}

/// The values of a sequence of sessions, one for one.
pub open spec fn session_views(sessions: Seq<Session>) -> Seq<SessionView> {
    Seq::new(sessions.len(), |i: int| sessions[i]@)
}

/// The values of a sequence of raw sessions, one for one.
pub open spec fn raw_session_views(sessions: Seq<RawSession>) -> Seq<RawSessionView> {
    Seq::new(sessions.len(), |i: int| sessions[i]@)
}

/// The character sequences of a sequence of strings, one for one.
pub open spec fn text_views(lines: Seq<String>) -> Seq<Seq<char>> {
    Seq::new(lines.len(), |i: int| lines[i]@)
}

/// The texts of a sequence of sessions, one for one.
pub open spec fn session_texts(sessions: Seq<SessionView>) -> Seq<Seq<char>> {
    Seq::new(sessions.len(), |i: int| sessions[i].text)
}

/// `parts` written one after another with `glue` between each two
/// neighbours: nothing before the first part and nothing after the last.
pub open spec fn joined(parts: Seq<Seq<char>>, glue: Seq<char>) -> Seq<char>
    decreases parts.len(),
{
    if parts.len() == 0 {
        Seq::empty()
    } else if parts.len() == 1 {
        parts[0]
    } else {
        joined(parts.drop_last(), glue) + glue + parts.last()
    }
}

/// The single-character sequence that ends a line.
pub open spec fn newline() -> Seq<char> {
    seq!['\n']
}

/// The text of a record that spans `lines`.
pub open spec fn record_text(lines: Seq<Seq<char>>) -> Seq<char> {
    joined(lines, newline())
}

/// What separates two sessions in a rendered extract: a separator line on a
/// line of its own.
pub open spec fn render_glue() -> Seq<char> {
    newline() + SEPARATOR_LINE@ + newline()
}

/// A journal extract: the session texts with a separator line before the
/// first, between each two, and after the last.
pub open spec fn rendered(texts: Seq<Seq<char>>) -> Seq<char> {
    SEPARATOR_LINE@ + newline() + joined(texts, render_glue()) + newline() + SEPARATOR_LINE@
}

/// The separator line is 55 asterisks.
pub proof fn lemma_separator_line()
    ensures
        SEPARATOR_LINE@.len() == 55,
        forall|i: int| 0 <= i < 55 ==> SEPARATOR_LINE@[i] == '*',
{
    reveal_strlit("*******************************************************");
}

/// Joining one part more appends the glue and the part, unless it is the
/// first.
pub proof fn lemma_joined_push(parts: Seq<Seq<char>>, glue: Seq<char>, part: Seq<char>)
    ensures
        joined(parts.push(part), glue) == if parts.len() == 0 {
            part
        } else {
            joined(parts, glue) + glue + part
        },
{
    assert(parts.push(part).drop_last() =~= parts);
    assert(parts.push(part).last() == part);
}

/// Joins `parts` with `glue` between each two neighbours.
pub fn join_with(parts: &Vec<String>, glue: &str) -> (out: String)
    ensures
        out@ == joined(text_views(parts@), glue@),
{
    let mut out = String::new();
    let mut i: usize = 0;
    while i < parts.len()
        invariant
            i <= parts.len(),
            out@ == joined(text_views(parts@).take(i as int), glue@),
        decreases parts.len() - i,
    {
        proof {
            let done = text_views(parts@).take(i as int);
            lemma_joined_push(done, glue@, parts[i as int]@);
            assert(done.push(parts[i as int]@) =~= text_views(parts@).take(i + 1));
        }
        if i > 0 {
            out.append(glue);
        }
        out.append(parts[i].as_str());
        i += 1;
    }
    proof {
        assert(text_views(parts@).take(i as int) =~= text_views(parts@));
    }
    out
}

/// Joins the lines of one record by newlines.
pub fn join_lines(lines: &Vec<String>) -> (out: String)
    ensures
        out@ == record_text(text_views(lines@)),
{
    proof {
        reveal_strlit("\n");
        assert("\n"@ =~= newline());
    }
    join_with(lines, "\n")
}

/// Renders the selected sessions as a journal extract: a separator line,
/// then each session's text followed by a separator line.
pub fn render_sessions(sessions: &Vec<Session>) -> (out: String)
    ensures
        out@ == rendered(session_texts(session_views(sessions@))),
{
    let ghost texts = session_texts(session_views(sessions@));
    let mut out = String::from_str(SEPARATOR_LINE);
    out.append("\n");
    proof {
        reveal_strlit("\n");
        assert("\n"@ =~= newline());
    }
    let mut i: usize = 0;
    while i < sessions.len()
        invariant
            i <= sessions.len(),
            texts == session_texts(session_views(sessions@)),
            "\n"@ == newline(),
            out@ == SEPARATOR_LINE@ + newline() + joined(texts.take(i as int), render_glue()),
        decreases sessions.len() - i,
    {
        proof {
            let done = texts.take(i as int);
            lemma_joined_push(done, render_glue(), texts[i as int]);
            assert(done.push(texts[i as int]) =~= texts.take(i + 1));
        }
        let ghost before = out@;
        if i > 0 {
            out.append("\n");
            out.append(SEPARATOR_LINE);
            out.append("\n");
            assert(out@ =~= before + render_glue());
        }
        out.append(sessions[i].text.as_str());
        assert(out@ =~= SEPARATOR_LINE@ + newline() + joined(texts.take(i + 1), render_glue()));
        i += 1;
    }
    proof {
        assert(texts.take(i as int) =~= texts);
    }
    out.append("\n");
    out.append(SEPARATOR_LINE);
    assert(out@ =~= rendered(texts));
    out
}

} // verus!
