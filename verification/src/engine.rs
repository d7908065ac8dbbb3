//! The regular-expression engine, as far as this library relies on it.
//!
//! Nothing in this module is proved: the contracts below are what the rest
//! of the library believes of the `regex` crate.

use vstd::prelude::*;

verus! {

/// Declares `regex::Error`, the engine's reason for refusing a pattern, as
/// a type whose inside is not looked at.
#[verifier::external_type_specification]
#[verifier::external_body]
pub struct ExRegexError(regex::Error);

/// An expression that the engine compiled with its default options. The
/// field is private and only [`compile`] fills it, so that what an
/// expression matches is settled by the text it was compiled from.
#[verifier::external_body]
pub struct Pattern {
    engine: regex::Regex,
}

/// The text that a compiled expression was built from: what
/// `regex::Regex::as_str` returns for it.
pub uninterp spec fn pattern_source(pattern: Pattern) -> Seq<char>;

/// Whether the expression written as `source`, compiled with the engine's
/// default options, matches anywhere in `haystack`: what
/// `regex::Regex::is_match` returns for it.
pub uninterp spec fn pattern_found(source: Seq<char>, haystack: Seq<char>) -> bool;

/// The text that capture group number `group` took in the leftmost match
/// of the expression written as `source`, compiled with the engine's
/// default options, in `haystack`; nothing where the expression does not
/// match, has no such group, or matched without it. This is what
/// `regex::Regex::captures`, then `regex::Captures::get` and
/// `regex::Match::as_str`, return.
pub uninterp spec fn pattern_group(source: Seq<char>, haystack: Seq<char>, group: nat) -> Option<
    Seq<char>,
>;

/// Calls `regex::Regex::new`, which compiles with the default options. The
/// engine may refuse any pattern (a syntax error, or a program over its
/// size limit), so success is not promised. An expression that does come
/// back remembers the text it was compiled from.
#[verifier::external_body]
pub(crate) fn compile(source: &str) -> (made: Result<Pattern, regex::Error>)
    ensures
        made matches Ok(pattern) ==> pattern_source(pattern) == source@,
{
    regex::Regex::new(source).map(|engine| Pattern { engine })
}

/// Calls `regex::Regex::is_match`: true if and only if the expression
/// matches somewhere in the haystack. For an expression compiled with the
/// default options the answer depends on its text and the haystack alone.
#[verifier::external_body]
pub(crate) fn is_match(pattern: &Pattern, haystack: &str) -> (found: bool)
    ensures
        found == pattern_found(pattern_source(*pattern), haystack@),
{
    pattern.engine.is_match(haystack)
}

/// Calls `regex::Regex::captures` and takes one group out of the result
/// with `regex::Captures::get`. For an expression compiled with the
/// default options the outcome depends on its text, the haystack and the
/// group's number alone.
#[verifier::external_body]
pub(crate) fn capture_group(pattern: &Pattern, haystack: &str, group: usize) -> (text: Option<
    String,
>)
    ensures
        match text {
            Some(taken) => pattern_group(pattern_source(*pattern), haystack@, group as nat)
                == Some(taken@),
            None => pattern_group(pattern_source(*pattern), haystack@, group as nat).is_none(),
        },
{
    pattern.engine.captures(haystack).and_then(|found| found.get(group)).map(
        |m| m.as_str().to_owned(),
    )
}

impl Pattern {
    /// The text that the expression was compiled from.
    pub open spec fn source(&self) -> Seq<char> {
        pattern_source(*self)
    }

    /// Compiles `source` with the engine's default options. The engine
    /// decides whether it accepts the text.
    pub fn new(source: &str) -> (made: Result<Pattern, regex::Error>)
        ensures
            made matches Ok(pattern) ==> pattern.source() == source@,
    {
        compile(source)
    }

    /// Says whether the expression matches anywhere in `haystack`.
    pub fn matches(&self, haystack: &str) -> (found: bool)
        ensures
            found == pattern_found(self.source(), haystack@),
    {
        is_match(self, haystack)
    }

    /// The text that capture group number `group` took in the leftmost
    /// match in `haystack`, if there is a match and the group took part.
    pub fn group(&self, haystack: &str, group: usize) -> (text: Option<String>)
        ensures
            match text {
                Some(taken) => pattern_group(self.source(), haystack@, group as nat) == Some(
                    taken@,
                ),
                None => pattern_group(self.source(), haystack@, group as nat).is_none(),
            },
    {
        capture_group(self, haystack, group)
    }
}

} // verus!
