//! The splicing collaborator: an immutable source text plus an ordered set of
//! non-overlapping byte-range edits, rendered into the edited text.
//!
//! The heavy lifting is done by `string_wizard::MagicString`, held behind a
//! struct whose contents are named by `splicer_text` and `splicer_edits` and
//! reached only through the wrappers below.

use vstd::prelude::*;
use vstd::string::*;
use vstd::utf8::*;

verus! {

#[verifier::external_body]
pub struct Splicer {
    inner: string_wizard::MagicString<'static>,
}

/// The source text the splicer was created over.
pub uninterp spec fn splicer_text(s: Splicer) -> Seq<char>;

/// The edits recorded so far: byte start, byte end, replacement text, in the
/// order they were recorded.
pub uninterp spec fn splicer_edits(s: Splicer) -> Seq<(int, int, Seq<char>)>;

/// Edits are well formed over `src` between `from` and the end of `src`:
/// each begins at or after the previous one ended, is non-empty, stays within
/// `src`, and cuts on character boundaries.
pub open spec fn edits_wf(src: Seq<u8>, edits: Seq<(int, int, Seq<char>)>, from: int) -> bool
    decreases edits.len(),
{
    if edits.len() == 0 {
        0 <= from <= src.len()
    } else {
        let e = edits[0];
        &&& 0 <= from <= e.0
        &&& e.0 < e.1 <= src.len()
        &&& is_char_boundary(src, e.0)
        &&& is_char_boundary(src, e.1)
        &&& edits_wf(src, edits.skip(1), e.1)
    }
}

/// The bytes of the edited text: the source from `from` on, with each edit's
/// range replaced by the UTF-8 encoding of its replacement.
pub open spec fn splice_bytes(src: Seq<u8>, edits: Seq<(int, int, Seq<char>)>, from: int) -> Seq<
    u8,
>
    decreases edits.len(),
{
    if edits.len() == 0 {
        src.skip(from)
    } else {
        let e = edits[0];
        src.subrange(from, e.0) + encode_utf8(e.2) + splice_bytes(src, edits.skip(1), e.1)
    }
}

/// Splicing no edits yields the source unchanged.
pub proof fn lemma_splice_no_edits(src: Seq<u8>)
    ensures
        splice_bytes(src, Seq::<(int, int, Seq<char>)>::empty(), 0) == src,
{
    assert(src.skip(0) =~= src);
}

/// Relies on `string_wizard::MagicString::new`: a fresh splicer holds the
/// given source text and no edits.
#[verifier::external_body]
pub(crate) fn splicer_new(text: &str) -> (s: Splicer)
    requires
        text.spec_bytes().len() <= 0xFFFF_FFFF,
    ensures
        splicer_text(s) == text@,
        splicer_edits(s) == Seq::<(int, int, Seq<char>)>::empty(),
{
    Splicer { inner: string_wizard::MagicString::new(text.to_string()) }
}

/// Relies on `string_wizard::MagicString::update`: replacing a non-empty,
/// in-bounds byte range that begins at or after the end of every edit
/// recorded so far succeeds, records that one edit, and leaves the source
/// text untouched.
#[verifier::external_body]
pub(crate) fn splicer_update(s: &mut Splicer, start: usize, end: usize, rep: &str)
    requires
        start < end,
        end <= encode_utf8(splicer_text(*old(s))).len(),
        end <= 0xFFFF_FFFF,
        is_char_boundary(encode_utf8(splicer_text(*old(s))), start as int),
        is_char_boundary(encode_utf8(splicer_text(*old(s))), end as int),
        forall|i: int|
            0 <= i < splicer_edits(*old(s)).len() ==> (#[trigger] splicer_edits(*old(s))[i]).1
                <= start,
    ensures
        splicer_text(*final (s)) == splicer_text(*old(s)),
        splicer_edits(*final (s)) == splicer_edits(*old(s)).push(
            (start as int, end as int, rep@),
        ),
{
    let _ = s.inner.update(start as u32, end as u32, rep.to_string());
}

/// Relies on `string_wizard`'s `ToString` for `MagicString`: with well-formed
/// edits the output is the source text with every recorded edit's byte range
/// replaced by its replacement text.
#[verifier::external_body]
pub(crate) fn splicer_render(s: &Splicer) -> (r: String)
    requires
        edits_wf(encode_utf8(splicer_text(*s)), splicer_edits(*s), 0),
    ensures
        encode_utf8(r@) == splice_bytes(encode_utf8(splicer_text(*s)), splicer_edits(*s), 0),
{
    s.inner.to_string()
}

} // verus!
