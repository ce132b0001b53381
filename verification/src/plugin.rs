//! The replacement plugin: a compiled matcher over a replacement table, and
//! the substitution engine that applies it to a text buffer.

use vstd::prelude::*;
use vstd::string::*;
use vstd::utf8::*;

use crate::matcher::{build_regex, captures_at, regex_pattern, caps_of, pattern_compiles, CapOutcome, CapStep};
use crate::pattern::{build_pattern, byte_len, spec_pattern, spec_pattern_with_literals};
use crate::splice::{
    edits_wf, splice_bytes, splicer_edits, splicer_new, splicer_render, splicer_text,
    splicer_update, Splicer,
};

verus! {

/// Configuration of a replacement pass: the table of target/replacement
/// pairs, the pair of boundary delimiter fragments put around their
/// alternation, and a companion set of literal rules — typically the output
/// of the `typeof` expander — matched anywhere, without the delimiters.
pub struct ReplaceOptions {
    pub values: Vec<(String, String)>,
    pub delimiters: (String, String),
    pub literal_values: Vec<(String, String)>,
}

impl Default for ReplaceOptions {
    /// An empty table with the default word-boundary delimiters; the right
    /// delimiter refuses a following `.` so that a target does not match as
    /// the head of a longer dotted path.
    fn default() -> (r: ReplaceOptions)
        ensures
            r.values@.len() == 0,
            r.delimiters.0@ == "\\b"@,
            r.delimiters.1@ == "\\b(?!\\.)"@,
            r.literal_values@.len() == 0,
    {
        ReplaceOptions {
            values: Vec::new(),
            delimiters: (String::from_str("\\b"), String::from_str("\\b(?!\\.)")),
            literal_values: Vec::new(),
        }
    }
}

/// The ways a replacement pass can fail.
#[derive(Debug)]
pub enum ReplaceError {
    /// The final pattern did not compile: a configuration error, surfaced at
    /// construction time.
    InvalidPattern(String),
    /// The matching engine reported an internal error other than exhausting
    /// its bounded resources.
    MatchFailed(String),
}

/// The keys of a table, in table order.
pub open spec fn table_keys(tbl: Seq<(Seq<char>, Seq<char>)>) -> Seq<Seq<char>> {
    tbl.map_values(|p: (Seq<char>, Seq<char>)| p.0)
}

/// No two entries share a key.
pub open spec fn keys_unique(tbl: Seq<(Seq<char>, Seq<char>)>) -> bool {
    forall|i: int, j: int| 0 <= i < j < tbl.len() ==> (#[trigger] tbl[i]).0 != (#[trigger] tbl[j]).0
}

/// The replacement recorded for `k`, if any.
pub open spec fn lookup_spec(tbl: Seq<(Seq<char>, Seq<char>)>, k: Seq<char>) -> Option<Seq<char>>
    decreases tbl.len(),
{
    if tbl.len() == 0 {
        Option::None
    } else if tbl[0].0 == k {
        Option::Some(tbl[0].1)
    } else {
        lookup_spec(tbl.skip(1), k)
    }
}

/// The smallest character boundary of `bytes` at or after `i`.
pub open spec fn next_boundary_from(bytes: Seq<u8>, i: int) -> int
    decreases bytes.len() - i
        when i <= bytes.len()
{
    if i >= bytes.len() {
        i
    } else if is_char_boundary(bytes, i) {
        i
    } else {
        next_boundary_from(bytes, i + 1)
    }
}

proof fn lemma_next_boundary_bounds(bytes: Seq<u8>, i: int)
    requires
        0 <= i <= bytes.len(),
    ensures
        i <= next_boundary_from(bytes, i) <= bytes.len(),
    decreases bytes.len() - i,
{
    if i < bytes.len() && !is_char_boundary(bytes, i) {
        lemma_next_boundary_bounds(bytes, i + 1);
    }
}

/// The edit replaces a verbatim occurrence of a table target: its byte span
/// in the source holds the UTF-8 encoding of a key whose recorded
/// replacement is the edit's text.
pub open spec fn edit_replaces_target(
    tbl: Seq<(Seq<char>, Seq<char>)>,
    src: Seq<u8>,
    e: (int, int, Seq<char>),
) -> bool {
    exists|k: Seq<char>|
        #[trigger] lookup_spec(tbl, k) == Some(e.2) && encode_utf8(k) == src.subrange(e.0, e.1)
}

/// What one whole scan of `text` yields: the edits recorded, whether any
/// match was found and looked up, and whether the engine failed hard.
pub struct ScanResult {
    pub edits: Seq<(int, int, Seq<char>)>,
    pub changed: bool,
    pub failed: bool,
}

/// The scan of `text` from byte position `pos`, with `last` the end of the
/// last recorded edit. Matches are taken left to right as the engine reports
/// them; each match's captured target is looked up in the table and its span
/// replaced by the table's value. A lookup miss, a missing group, no further
/// match, or an exhausted backtracking budget ends the scan quietly; any
/// other engine error ends it with `failed`. An edit is recorded only if its
/// span is non-empty, in bounds, on character boundaries and after every
/// earlier edit; the scan resumes after the whole match, or at the next
/// character boundary when the match was empty.
pub open spec fn spec_scan(
    pat: Seq<char>,
    tbl: Seq<(Seq<char>, Seq<char>)>,
    text: Seq<char>,
    pos: int,
    last: int,
) -> ScanResult
    decreases byte_len(text) - pos
        when 0 <= pos <= byte_len(text)
        via spec_scan_decreases
{
    match caps_of(pat, text, pos) {
        CapOutcome::Found { m_start, m_end, g_start, g_end, g_text } => {
            if !(pos <= m_start && m_start <= m_end && m_end <= byte_len(text)) {
                ScanResult { edits: Seq::empty(), changed: false, failed: false }
            } else {
                match lookup_spec(tbl, g_text) {
                    Option::None => ScanResult {
                        edits: Seq::empty(),
                        changed: false,
                        failed: false,
                    },
                    Option::Some(rep) => {
                        let bytes = encode_utf8(text);
                        let ok_edit = last <= g_start && g_start < g_end && g_end <= byte_len(text)
                            && is_char_boundary(bytes, g_start) && is_char_boundary(bytes, g_end);
                        let these = if ok_edit {
                            seq![(g_start, g_end, rep)]
                        } else {
                            Seq::<(int, int, Seq<char>)>::empty()
                        };
                        let new_last = if ok_edit {
                            g_end
                        } else {
                            last
                        };
                        if m_start < m_end {
                            let rest = spec_scan(pat, tbl, text, m_end, new_last);
                            ScanResult {
                                edits: these + rest.edits,
                                changed: true,
                                failed: rest.failed,
                            }
                        } else if m_end >= byte_len(text) {
                            ScanResult { edits: these, changed: true, failed: false }
                        } else {
                            let rest = spec_scan(
                                pat,
                                tbl,
                                text,
                                next_boundary_from(bytes, m_end + 1),
                                new_last,
                            );
                            ScanResult {
                                edits: these + rest.edits,
                                changed: true,
                                failed: rest.failed,
                            }
                        }
                    },
                }
            }
        },
        CapOutcome::NoGroup => ScanResult { edits: Seq::empty(), changed: false, failed: false },
        CapOutcome::NoMatch => ScanResult { edits: Seq::empty(), changed: false, failed: false },
        CapOutcome::Budget => ScanResult { edits: Seq::empty(), changed: false, failed: false },
        CapOutcome::Failed => ScanResult { edits: Seq::empty(), changed: false, failed: true },
    }
}

#[via_fn]
proof fn spec_scan_decreases(
    pat: Seq<char>,
    tbl: Seq<(Seq<char>, Seq<char>)>,
    text: Seq<char>,
    pos: int,
    last: int,
) {
    match caps_of(pat, text, pos) {
        CapOutcome::Found { m_start, m_end, g_start, g_end, g_text } => {
            if pos <= m_start && m_start <= m_end && m_end <= byte_len(text) {
                if !(m_start < m_end) && m_end < byte_len(text) {
                    lemma_next_boundary_bounds(encode_utf8(text), m_end + 1);
                }
            }
        },
        _ => {},
    }
}

/// Each match that the engine reports, the table resolves, and the edit
/// guard accepts contributes exactly one edit, and the scan continues right
/// after the match: on a text with `k` such matches in a row the scan
/// records exactly `k` edits and reports a change.
pub proof fn lemma_scan_found_step(
    pat: Seq<char>,
    tbl: Seq<(Seq<char>, Seq<char>)>,
    text: Seq<char>,
    pos: int,
    last: int,
)
    requires
        0 <= pos <= byte_len(text),
        caps_of(pat, text, pos) matches CapOutcome::Found {
            m_start,
            m_end,
            g_start,
            g_end,
            g_text,
        } && {
            &&& pos <= m_start < m_end <= byte_len(text)
            &&& lookup_spec(tbl, g_text) is Some
            &&& last <= g_start
            &&& g_start < g_end <= byte_len(text)
            &&& is_char_boundary(encode_utf8(text), g_start)
            &&& is_char_boundary(encode_utf8(text), g_end)
        },
    ensures
        spec_scan(pat, tbl, text, pos, last).changed,
        caps_of(pat, text, pos) matches CapOutcome::Found { m_end, g_start, g_end, g_text, .. }
            ==> {
            &&& (lookup_spec(tbl, g_text) matches Some(rep) ==> spec_scan(
                pat,
                tbl,
                text,
                pos,
                last,
            ).edits == seq![(g_start, g_end, rep)] + spec_scan(pat, tbl, text, m_end, g_end).edits)
            &&& spec_scan(pat, tbl, text, pos, last).failed == spec_scan(
                pat,
                tbl,
                text,
                m_end,
                g_end,
            ).failed
        },
{
}

/// The end of the last of `edits`, or `from` if there is none.
pub open spec fn edits_end(edits: Seq<(int, int, Seq<char>)>, from: int) -> int
    decreases edits.len(),
{
    if edits.len() == 0 {
        from
    } else {
        edits_end(edits.skip(1), edits[0].1)
    }
}

proof fn lemma_edits_wf_push(
    src: Seq<u8>,
    edits: Seq<(int, int, Seq<char>)>,
    from: int,
    e: (int, int, Seq<char>),
)
    requires
        edits_wf(src, edits, from),
        edits_end(edits, from) <= e.0,
        e.0 < e.1 <= src.len(),
        is_char_boundary(src, e.0),
        is_char_boundary(src, e.1),
    ensures
        edits_wf(src, edits.push(e), from),
        edits_end(edits.push(e), from) == e.1,
    decreases edits.len(),
{
    if edits.len() == 0 {
        assert(edits.push(e).skip(1) =~~= Seq::<(int, int, Seq<char>)>::empty());
        assert(edits.push(e)[0] == e);
        assert(edits_end(edits, from) == from);
        assert(edits_wf(src, edits.push(e).skip(1), e.1));
        assert(edits_wf(src, edits.push(e), from));
        assert(edits_end(edits.push(e).skip(1), e.1) == e.1);
        assert(edits_end(edits.push(e), from) == e.1);
    } else {
        lemma_edits_wf_push(src, edits.skip(1), edits[0].1, e);
        assert(edits.push(e).skip(1) =~~= edits.skip(1).push(e));
        assert(edits.push(e)[0] == edits[0]);
        assert(edits_wf(src, edits.push(e).skip(1), edits[0].1));
        assert(edits_wf(src, edits.push(e), from));
        assert(edits_end(edits.push(e).skip(1), edits[0].1) == e.1);
        assert(edits_end(edits.push(e), from) == e.1);
    }
}

proof fn lemma_edits_end_bound(src: Seq<u8>, edits: Seq<(int, int, Seq<char>)>, from: int)
    requires
        edits_wf(src, edits, from),
    ensures
        from <= edits_end(edits, from) <= src.len(),
    decreases edits.len(),
{
    if edits.len() > 0 {
        lemma_edits_end_bound(src, edits.skip(1), edits[0].1);
    }
}

proof fn lemma_edits_all_end_before(src: Seq<u8>, edits: Seq<(int, int, Seq<char>)>, from: int)
    requires
        edits_wf(src, edits, from),
    ensures
        forall|i: int|
            0 <= i < edits.len() ==> (#[trigger] edits[i]).1 <= edits_end(edits, from),
    decreases edits.len(),
{
    if edits.len() > 0 {
        lemma_edits_all_end_before(src, edits.skip(1), edits[0].1);
        lemma_edits_end_bound(src, edits.skip(1), edits[0].1);
        assert forall|i: int| 0 <= i < edits.len() implies (#[trigger] edits[i]).1 <= edits_end(
            edits,
            from,
        ) by {
            if i > 0 {
                assert(edits[i] == edits.skip(1)[i - 1]);
            }
        }
    }
}

/// Compilation is deterministic: two plugins whose compiled pattern and
/// table agree — as every two plugins built from the same options do, since
/// the pattern is a function of the options alone — behave identically on
/// every text, position and edit floor.
pub proof fn lemma_compile_deterministic(p1: &ReplacePlugin, p2: &ReplacePlugin)
    requires
        p1.pattern_view() == p2.pattern_view(),
        p1.table_view() == p2.table_view(),
    ensures
        forall|text: Seq<char>, pos: int, last: int|
            #[trigger] spec_scan(p1.pattern_view(), p1.table_view(), text, pos, last) == spec_scan(
                p2.pattern_view(),
                p2.table_view(),
                text,
                pos,
                last,
            ),
{
}

/// A text in which the matcher finds nothing is left untouched: the scan
/// records no edit and reports the buffer unchanged.
pub proof fn lemma_no_match_unchanged(
    pat: Seq<char>,
    tbl: Seq<(Seq<char>, Seq<char>)>,
    text: Seq<char>,
)
    requires
        caps_of(pat, text, 0) is NoMatch,
    ensures
        !spec_scan(pat, tbl, text, 0, 0).changed,
        spec_scan(pat, tbl, text, 0, 0).edits == Seq::<(int, int, Seq<char>)>::empty(),
        !spec_scan(pat, tbl, text, 0, 0).failed,
{
}

/// The keys of the given table entries, in order.
fn collect_keys(values: &Vec<(String, String)>) -> (keys: Vec<String>)
    ensures
        keys.deep_view() == table_keys(values.deep_view()),
{
    let ghost tv = values.deep_view();
    let mut keys: Vec<String> = Vec::new();
    let mut i: usize = 0;
    proof {
        assert(keys.deep_view() =~~= table_keys(tv).take(0));
    }
    while i < values.len()
        invariant
            0 <= i <= values.len(),
            tv == values.deep_view(),
            tv.len() == values.len(),
            keys.deep_view() == table_keys(tv).take(i as int),
        decreases values.len() - i,
    {
        let ghost pre = keys.deep_view();
        keys.push(values[i].0.clone());
        proof {
            assert(tv[i as int] == values@[i as int].deep_view());
            assert(keys.deep_view() =~~= pre.push(tv[i as int].0));
            assert(keys.deep_view() =~~= table_keys(tv).take(i + 1));
        }
        i += 1;
    }
    proof {
        assert(table_keys(tv).take(tv.len() as int) =~~= table_keys(tv));
    }
    keys
}

/// The compiled replacement pass: one bounded-backtracking matcher built from
/// the table's keys, shared read-only by every substitution call, and the
/// table the captured targets are looked up in.
pub struct ReplacePlugin {
    matcher: fancy_regex::Regex,
    pattern: String,
    table: Vec<(String, String)>,
}

impl ReplacePlugin {
    /// The pattern the matcher was built from equals the recorded pattern
    /// text.
    pub closed spec fn wf(&self) -> bool {
        regex_pattern(self.matcher) == self.pattern@
    }

    /// The pattern text of this plugin's matcher.
    pub closed spec fn pattern_view(&self) -> Seq<char> {
        self.pattern@
    }

    /// The replacement table as target/replacement character sequences.
    pub closed spec fn table_view(&self) -> Seq<(Seq<char>, Seq<char>)> {
        self.table.deep_view()
    }

    /// Compiles a plugin from a table with the default delimiters.
    pub fn new(values: Vec<(String, String)>) -> (r: Result<ReplacePlugin, ReplaceError>)
        requires
            keys_unique(values.deep_view()),
        ensures
            r matches Ok(p) ==> {
                &&& p.wf()
                &&& p.pattern_view() == spec_pattern(
                    table_keys(values.deep_view()),
                    "\\b"@,
                    "\\b(?!\\.)"@,
                )
                &&& p.table_view() == values.deep_view()
            },
            (r is Ok <==> pattern_compiles(
                spec_pattern(table_keys(values.deep_view()), "\\b"@, "\\b(?!\\.)"@),
            )),
            r matches Err(e) ==> e is InvalidPattern,
    {
        let defaults = ReplaceOptions::default();
        let ghost tv = values.deep_view();
        let options = ReplaceOptions {
            values,
            delimiters: defaults.delimiters,
            literal_values: Vec::new(),
        };
        proof {
            assert(options.literal_values.deep_view() =~~= Seq::<(Seq<char>, Seq<char>)>::empty());
            assert(options.values.deep_view() + options.literal_values.deep_view() =~~= tv);
            assert(table_keys(options.literal_values.deep_view()) =~~= Seq::<Seq<char>>::empty());
        }
        let r = Self::with_options(options);
        proof {
            assert(spec_pattern_with_literals(
                table_keys(tv),
                "\\b"@,
                "\\b(?!\\.)"@,
                Seq::<Seq<char>>::empty(),
            ) == spec_pattern(table_keys(tv), "\\b"@, "\\b(?!\\.)"@));
        }
        r
    }

    /// Compiles a plugin: sorts the target keys by descending byte length,
    /// escapes them, joins them into one alternation wrapped in the
    /// delimiters — with one more, undelimited alternation branch for the
    /// literal companion rules — and builds the bounded-backtracking matcher
    /// from that pattern. An uncompilable pattern is a construction error.
    pub fn with_options(options: ReplaceOptions) -> (r: Result<ReplacePlugin, ReplaceError>)
        requires
            keys_unique(options.values.deep_view() + options.literal_values.deep_view()),
        ensures
            r matches Ok(p) ==> {
                &&& p.wf()
                &&& p.pattern_view() == spec_pattern_with_literals(
                    table_keys(options.values.deep_view()),
                    options.delimiters.0@,
                    options.delimiters.1@,
                    table_keys(options.literal_values.deep_view()),
                )
                &&& p.table_view() == options.values.deep_view()
                    + options.literal_values.deep_view()
            },
            (r is Ok <==> pattern_compiles(
                spec_pattern_with_literals(
                    table_keys(options.values.deep_view()),
                    options.delimiters.0@,
                    options.delimiters.1@,
                    table_keys(options.literal_values.deep_view()),
                ),
            )),
            r matches Err(e) ==> e is InvalidPattern,
    {
        let ghost tv = options.values.deep_view();
        let ghost lv = options.literal_values.deep_view();
        let keys = collect_keys(&options.values);
        let literal_keys = collect_keys(&options.literal_values);
        let pattern = build_pattern(
            keys,
            options.delimiters.0.as_str(),
            options.delimiters.1.as_str(),
            literal_keys,
        );
        match build_regex(pattern.as_str()) {
            Ok(re) => {
                let mut table = options.values;
                let mut extra = options.literal_values;
                table.append(&mut extra);
                proof {
                    assert(table.deep_view() =~~= tv + lv);
                }
                Ok(ReplacePlugin { matcher: re, pattern, table })
            },
            Err(msg) => Err(ReplaceError::InvalidPattern(msg)),
        }
    }

    /// The plugin's name in a host pipeline.
    pub fn name(&self) -> (r: String)
        ensures
            r@ == "builtin:replace"@,
    {
        String::from_str("builtin:replace")
    }

    /// Looks the captured target up in the table.
    fn lookup(&self, key: &String) -> (r: Option<String>)
        ensures
            r matches Some(v) ==> lookup_spec(self.table_view(), key@) == Some(v@),
            r is None <==> lookup_spec(self.table_view(), key@) is None,
    {
        let ghost tv = self.table_view();
        let mut i: usize = 0;
        proof {
            assert(tv.skip(0) =~~= tv);
        }
        while i < self.table.len()
            invariant
                0 <= i <= self.table.len(),
                tv == self.table.deep_view(),
                tv.len() == self.table.len(),
                lookup_spec(tv, key@) == lookup_spec(tv.skip(i as int), key@),
            decreases self.table.len() - i,
        {
            proof {
                assert(tv[i as int] == self.table@[i as int].deep_view());
                assert(tv.skip(i as int)[0] == tv[i as int]);
                assert(tv.skip(i as int).skip(1) =~~= tv.skip(i + 1));
            }
            if self.table[i].0 == *key {
                let v = self.table[i].1.clone();
                assert(lookup_spec(tv.skip(i as int), key@) == Some(tv[i as int].1));
                return Some(v);
            }
            assert(tv.skip(i as int)[0].0 != key@);
            i += 1;
        }
        proof {
            assert(tv.skip(tv.len() as int) =~~= Seq::<(Seq<char>, Seq<char>)>::empty());
        }
        None
    }

    /// Scans `code` and records every resulting edit in `splicer`. Returns
    /// whether any match was found and looked up; a hard engine error is
    /// returned as `MatchFailed`, while a lookup miss or an exhausted
    /// backtracking budget merely ends the scan with the edits found so far.
    fn try_replace(&self, code: &str, splicer: &mut Splicer) -> (r: Result<bool, ReplaceError>)
        requires
            self.wf(),
            splicer_text(*old(splicer)) == code@,
            splicer_edits(*old(splicer)) == Seq::<(int, int, Seq<char>)>::empty(),
            code.spec_bytes().len() <= 0xFFFF_FFFF,
        ensures
            splicer_text(*final (splicer)) == code@,
            splicer_edits(*final (splicer)) == spec_scan(
                self.pattern_view(),
                self.table_view(),
                code@,
                0,
                0,
            ).edits,
            edits_wf(
                encode_utf8(code@),
                spec_scan(self.pattern_view(), self.table_view(), code@, 0, 0).edits,
                0,
            ),
            r matches Ok(changed) ==> changed == spec_scan(
                self.pattern_view(),
                self.table_view(),
                code@,
                0,
                0,
            ).changed,
            (r is Err <==> spec_scan(self.pattern_view(), self.table_view(), code@, 0, 0).failed),
            r matches Err(e) ==> e is MatchFailed,
            forall|i: int|
                0 <= i < spec_scan(self.pattern_view(), self.table_view(), code@, 0, 0).edits.len()
                    ==> edit_replaces_target(
                    self.table_view(),
                    encode_utf8(code@),
                    #[trigger] spec_scan(
                        self.pattern_view(),
                        self.table_view(),
                        code@,
                        0,
                        0,
                    ).edits[i],
                ),
    {
        let ghost pat = self.pattern_view();
        let ghost tbl = self.table_view();
        let ghost full = spec_scan(pat, tbl, code@, 0, 0);
        let ghost bytes = encode_utf8(code@);
        let n = code.as_bytes().len();
        let mut pos: usize = 0;
        let mut last: usize = 0;
        let mut changed = false;
        proof {
            assert(splicer_edits(*splicer) + full.edits =~~= full.edits);
            encode_utf8_valid_utf8(code@);
            assert(is_char_boundary(bytes, 0));
        }
        while pos <= n
            invariant
                self.wf(),
                pat == self.pattern_view(),
                tbl == self.table_view(),
                full == spec_scan(pat, tbl, code@, 0, 0),
                bytes == encode_utf8(code@),
                n == bytes.len(),
                n <= 0xFFFF_FFFF,
                code.spec_bytes().len() <= 0xFFFF_FFFF,
                0 <= pos <= n,
                last <= n,
                valid_utf8(bytes),
                is_char_boundary(bytes, pos as int),
                splicer_text(*splicer) == code@,
                edits_wf(bytes, splicer_edits(*splicer), 0),
                forall|i: int|
                    0 <= i < splicer_edits(*splicer).len() ==> edit_replaces_target(
                        tbl,
                        bytes,
                        #[trigger] splicer_edits(*splicer)[i],
                    ),
                edits_end(splicer_edits(*splicer), 0) <= last as int,
                full.edits == splicer_edits(*splicer) + spec_scan(
                    pat,
                    tbl,
                    code@,
                    pos as int,
                    last as int,
                ).edits,
                full.changed == (changed || spec_scan(
                    pat,
                    tbl,
                    code@,
                    pos as int,
                    last as int,
                ).changed),
                full.failed == spec_scan(pat, tbl, code@, pos as int, last as int).failed,
            decreases n - pos,
        {
            let ghost sub = spec_scan(pat, tbl, code@, pos as int, last as int);
            let step = captures_at(&self.matcher, code, pos);
            match step {
                CapStep::Found { m_start, m_end, g_start, g_end, g_text } => {
                    let rep_opt = self.lookup(&g_text);
                    match rep_opt {
                        Option::None => {
                            proof {
                                assert(sub.edits =~~= Seq::<(int, int, Seq<char>)>::empty());
                                assert(full.edits =~~= splicer_edits(*splicer));
                            }
                            return Ok(changed);
                        },
                        Option::Some(rep) => {
                            changed = true;
                            let ok_edit = last <= g_start && g_start < g_end && g_end <= n
                                && code.is_char_boundary(g_start) && code.is_char_boundary(g_end);
                            let ghost pre_edits = splicer_edits(*splicer);
                            proof {
                                assert(sub.changed);
                                assert(full.changed);
                            }
                            if ok_edit {
                                proof {
                                    lemma_edits_all_end_before(bytes, pre_edits, 0);
                                    lemma_edits_wf_push(
                                        bytes,
                                        pre_edits,
                                        0,
                                        (g_start as int, g_end as int, rep@),
                                    );
                                }
                                splicer_update(splicer, g_start, g_end, rep.as_str());
                                last = g_end;
                                proof {
                                    let e = (g_start as int, g_end as int, rep@);
                                    assert(lookup_spec(tbl, g_text@) == Some(rep@));
                                    assert(edit_replaces_target(tbl, bytes, e));
                                    assert forall|i: int|
                                        0 <= i < splicer_edits(*splicer).len() implies edit_replaces_target(
                                        tbl,
                                        bytes,
                                        #[trigger] splicer_edits(*splicer)[i],
                                    ) by {
                                        if i < pre_edits.len() {
                                            assert(splicer_edits(*splicer)[i] == pre_edits[i]);
                                        } else {
                                            assert(splicer_edits(*splicer)[i] == e);
                                        }
                                    }
                                }
                            }
                            if m_start < m_end {
                                proof {
                                    let rest = spec_scan(pat, tbl, code@, m_end as int, last as int);
                                    assert(sub.edits =~~= (if ok_edit {
                                        seq![(g_start as int, g_end as int, rep@)]
                                    } else {
                                        Seq::<(int, int, Seq<char>)>::empty()
                                    }) + rest.edits);
                                    assert(full.edits =~~= splicer_edits(*splicer) + rest.edits);
                                }
                                pos = m_end;
                            } else if m_end >= n {
                                proof {
                                    assert(sub.edits =~~= (if ok_edit {
                                        seq![(g_start as int, g_end as int, rep@)]
                                    } else {
                                        Seq::<(int, int, Seq<char>)>::empty()
                                    }));
                                    assert(full.edits =~~= splicer_edits(*splicer));
                                }
                                return Ok(true);
                            } else {
                                let next = self.next_boundary(code, m_end);
                                proof {
                                    let rest = spec_scan(pat, tbl, code@, next as int, last as int);
                                    assert(sub.edits =~~= (if ok_edit {
                                        seq![(g_start as int, g_end as int, rep@)]
                                    } else {
                                        Seq::<(int, int, Seq<char>)>::empty()
                                    }) + rest.edits);
                                    assert(full.edits =~~= splicer_edits(*splicer) + rest.edits);
                                }
                                pos = next;
                            }
                        },
                    }
                },
                CapStep::NoGroup => {
                    proof {
                        assert(full.edits =~~= splicer_edits(*splicer));
                    }
                    return Ok(changed);
                },
                CapStep::NoMatch => {
                    proof {
                        assert(full.edits =~~= splicer_edits(*splicer));
                    }
                    return Ok(changed);
                },
                CapStep::Budget => {
                    proof {
                        assert(full.edits =~~= splicer_edits(*splicer));
                    }
                    return Ok(changed);
                },
                CapStep::Failed { message } => {
                    proof {
                        assert(full.edits =~~= splicer_edits(*splicer));
                    }
                    return Err(ReplaceError::MatchFailed(message));
                },
            }
        }
        // Every scan ends by returning from inside the loop: the position
        // only moves forward and never leaves the text.
        proof {
            assert(false);
        }
        Ok(changed)
    }

    /// The smallest character boundary of `code` after `q`.
    fn next_boundary(&self, code: &str, q: usize) -> (r: usize)
        requires
            q < code.spec_bytes().len(),
        ensures
            r == next_boundary_from(code.spec_bytes(), q + 1),
            q < r <= code.spec_bytes().len(),
            is_char_boundary(code.spec_bytes(), r as int),
    {
        let n = code.as_bytes().len();
        let mut i: usize = q + 1;
        while i < n && !code.is_char_boundary(i)
            invariant
                q + 1 <= i <= n,
                n == code.spec_bytes().len(),
                next_boundary_from(code.spec_bytes(), (q + 1) as int) == next_boundary_from(
                    code.spec_bytes(),
                    i as int,
                ),
            decreases n - i,
        {
            i += 1;
        }
        proof {
            if i == n {
                encode_utf8_valid_utf8(code@);
                is_char_boundary_start_end_of_seq(encode_utf8(code@));
            }
        }
        i
    }

    /// Applies the whole substitution to `code`: `Ok(None)` when nothing
    /// matched, so the input is authoritative; `Ok(Some(out))` when matches
    /// were found, with every recorded edit spliced in; `Err` only for a hard
    /// matching-engine error.
    pub fn transform(&self, code: &str) -> (r: Result<Option<String>, ReplaceError>)
        requires
            self.wf(),
            code.spec_bytes().len() <= 0xFFFF_FFFF,
        ensures
            r matches Ok(Some(out)) ==> {
                &&& spec_scan(self.pattern_view(), self.table_view(), code@, 0, 0).changed
                &&& edits_wf(
                    encode_utf8(code@),
                    spec_scan(self.pattern_view(), self.table_view(), code@, 0, 0).edits,
                    0,
                )
                &&& encode_utf8(out@) == splice_bytes(
                    encode_utf8(code@),
                    spec_scan(self.pattern_view(), self.table_view(), code@, 0, 0).edits,
                    0,
                )
                &&& forall|i: int|
                    0 <= i < spec_scan(
                        self.pattern_view(),
                        self.table_view(),
                        code@,
                        0,
                        0,
                    ).edits.len() ==> edit_replaces_target(
                        self.table_view(),
                        encode_utf8(code@),
                        #[trigger] spec_scan(
                            self.pattern_view(),
                            self.table_view(),
                            code@,
                            0,
                            0,
                        ).edits[i],
                    )
            },
            r matches Ok(None) ==> !spec_scan(
                self.pattern_view(),
                self.table_view(),
                code@,
                0,
                0,
            ).changed,
            (r is Err <==> spec_scan(self.pattern_view(), self.table_view(), code@, 0, 0).failed),
            r matches Err(e) ==> e is MatchFailed,
    {
        let mut splicer = splicer_new(code);
        match self.try_replace(code, &mut splicer) {
            Ok(true) => Ok(Some(splicer_render(&splicer))),
            Ok(false) => Ok(None),
            Err(e) => Err(e),
        }
    }
}

} // verus!
