//! The compiled matcher: a bounded-backtracking regex built from the pattern
//! text, and one-step capture search over a text buffer.
//!
//! The regex engine itself is outside code; each call the engine makes is
//! wrapped here with a contract. One search step is a function of the pattern
//! text, the input text and the start position alone, which `caps_of` names.

use vstd::prelude::*;
use vstd::string::*;
use vstd::utf8::*;

verus! {

#[verifier::external_type_specification]
#[verifier::external_body]
pub struct ExRegex(fancy_regex::Regex);

/// The pattern text a regex was built from, as `fancy_regex::Regex::as_str`
/// reports it.
pub uninterp spec fn regex_pattern(re: fancy_regex::Regex) -> Seq<char>;

/// The outcome of one capture search, as a mathematical value: either a match
/// of the whole pattern at `m_start..m_end` whose reported capture group
/// spans `g_start..g_end` (byte offsets) and reads `g_text`, or one of the
/// ways a search ends without a usable match.
pub enum CapOutcome {
    Found { m_start: int, m_end: int, g_start: int, g_end: int, g_text: Seq<char> },
    NoGroup,
    NoMatch,
    Budget,
    Failed,
}

/// What one bounded-backtracking capture search returns for a given pattern,
/// text and start position. The engine is deterministic and every matcher is
/// built by `build_regex` with the same fixed options, so the outcome is a
/// function of these three values alone.
pub uninterp spec fn caps_of(pattern: Seq<char>, text: Seq<char>, pos: int) -> CapOutcome;

/// Whether the engine's builder, under the fixed options, accepts a pattern
/// text. Compilation is deterministic, so acceptance is a function of the
/// pattern text alone.
pub uninterp spec fn pattern_compiles(pattern: Seq<char>) -> bool;

/// The outcome of one capture search as executable data.
pub enum CapStep {
    Found { m_start: usize, m_end: usize, g_start: usize, g_end: usize, g_text: String },
    NoGroup,
    NoMatch,
    Budget,
    Failed { message: String },
}

/// The fixed backtracking step budget every matcher is built with.
pub const BACKTRACK_LIMIT: usize = 1000000;

/// Relies on `fancy_regex::RegexBuilder::{new, backtrack_limit, build}` and
/// `fancy_regex::Regex::as_str`: building is deterministic in the pattern
/// text, and a successfully built regex reports exactly the pattern text it
/// was built from.
#[verifier::external_body]
pub(crate) fn build_regex(pattern: &str) -> (r: Result<fancy_regex::Regex, String>)
    ensures
        r matches Ok(re) ==> regex_pattern(re) == pattern@,
        (r is Ok <==> pattern_compiles(pattern@)),
{
    match fancy_regex::RegexBuilder::new(pattern).backtrack_limit(BACKTRACK_LIMIT).build() {
        Ok(re) => Ok(re),
        Err(e) => Err(format!("{e}")),
    }
}

/// Relies on `fancy_regex::Regex::captures_from_pos` and the `Captures` and
/// `Match` accessors: the search is deterministic in the pattern, text and
/// position; a reported match begins at or after `pos` and ends within the
/// text, the reported spans lie on character boundaries, and the captured
/// text is the input's text at the capture span. The group reported is the
/// first participating capture group. A runtime error of the engine is one
/// of its bounded resources running out — the backtracking budget or its
/// fixed stack; any other error is reported as `Failed`. The start position
/// must lie on a character boundary: on a position inside a character's
/// encoding the engine can report a span there, and slicing the capture
/// would panic.
#[verifier::external_body]
pub(crate) fn captures_at(re: &fancy_regex::Regex, text: &str, pos: usize) -> (r: CapStep)
    requires
        pos <= text.spec_bytes().len(),
        is_char_boundary(text.spec_bytes(), pos as int),
    ensures
        (r is Found <==> caps_of(regex_pattern(*re), text@, pos as int) is Found),
        (r is NoGroup <==> caps_of(regex_pattern(*re), text@, pos as int) is NoGroup),
        (r is NoMatch <==> caps_of(regex_pattern(*re), text@, pos as int) is NoMatch),
        (r is Budget <==> caps_of(regex_pattern(*re), text@, pos as int) is Budget),
        (r is Failed <==> caps_of(regex_pattern(*re), text@, pos as int) is Failed),
        r matches CapStep::Found { m_start, m_end, g_start, g_end, g_text } ==> {
            &&& caps_of(regex_pattern(*re), text@, pos as int) == (CapOutcome::Found {
                m_start: m_start as int,
                m_end: m_end as int,
                g_start: g_start as int,
                g_end: g_end as int,
                g_text: g_text@,
            })
            &&& pos <= m_start <= m_end <= text.spec_bytes().len()
            &&& g_start <= g_end <= text.spec_bytes().len()
            &&& is_char_boundary(text.spec_bytes(), m_end as int)
            &&& is_char_boundary(text.spec_bytes(), g_start as int)
            &&& is_char_boundary(text.spec_bytes(), g_end as int)
            &&& encode_utf8(g_text@) == text.spec_bytes().subrange(g_start as int, g_end as int)
        },
{
    match re.captures_from_pos(text, pos) {
        Err(fancy_regex::Error::RuntimeError(_)) => CapStep::Budget,
        Err(e) => CapStep::Failed { message: format!("{e}") },
        Ok(None) => CapStep::NoMatch,
        Ok(Some(caps)) => match (caps.get(0), caps.get(1).or(caps.get(2))) {
            (Some(whole), Some(group)) => CapStep::Found {
                m_start: whole.start(),
                m_end: whole.end(),
                g_start: group.start(),
                g_end: group.end(),
                g_text: group.as_str().to_string(),
            },
            _ => CapStep::NoGroup,
        },
    }
}

} // verus!
