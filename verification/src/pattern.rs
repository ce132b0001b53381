//! Construction of the alternation pattern from a replacement table.
//!
//! Target keys are sorted by descending byte length (ties keep their original
//! order), escaped so that each is matched literally, joined with `|`, and
//! wrapped in the configured boundary delimiters around a capturing group.
//! A literal companion rule set, when present, forms one more capturing
//! alternation branch outside the delimiters, matched anywhere.

use vstd::prelude::*;
use vstd::string::*;
use vstd::utf8::*;

verus! {

/// The byte length of a character sequence in its UTF-8 encoding.
pub open spec fn byte_len(s: Seq<char>) -> nat {
    encode_utf8(s).len()
}

/// Characters the escaping step must neutralize so the key is matched
/// literally.
pub open spec fn is_special(c: char) -> bool {
    c == '\\' || c == '.' || c == '+' || c == '*' || c == '?' || c == '(' || c == ')' || c == '|'
        || c == '[' || c == ']' || c == '{' || c == '}' || c == '^' || c == '$' || c == '#'
}

/// The escaped form of one character. Backslash, newline, tab and carriage
/// return become two-character escape sequences; other special characters are
/// preceded by a backslash; anything else stands unchanged.
pub open spec fn escaped_char(c: char) -> Seq<char> {
    if c == '\\' {
        seq!['\\', '\\']
    } else if c == '\n' {
        seq!['\\', 'n']
    } else if c == '\t' {
        seq!['\\', 't']
    } else if c == '\r' {
        seq!['\\', 'r']
    } else if is_special(c) {
        seq!['\\', c]
    } else {
        seq![c]
    }
}

pub open spec fn escape_chars(s: Seq<char>) -> Seq<char>
    decreases s.len(),
{
    if s.len() == 0 {
        Seq::empty()
    } else {
        escaped_char(s[0]) + escape_chars(s.skip(1))
    }
}

pub open spec fn has_special(s: Seq<char>) -> bool {
    exists|i: int| 0 <= i < s.len() && is_special(#[trigger] s[i])
}

/// The escaped form of a whole key: a key without special characters stands
/// unchanged, any other key is rewritten character by character.
pub open spec fn spec_escape(s: Seq<char>) -> Seq<char> {
    if has_special(s) {
        escape_chars(s)
    } else {
        s
    }
}

/// Inserts `k` into a descending-by-byte-length sequence, after every element
/// at least as long as `k`.
pub open spec fn insert_key(k: Seq<char>, sorted: Seq<Seq<char>>) -> Seq<Seq<char>>
    decreases sorted.len(),
{
    if sorted.len() > 0 && byte_len(sorted[0]) >= byte_len(k) {
        seq![sorted[0]] + insert_key(k, sorted.skip(1))
    } else {
        seq![k] + sorted
    }
}

/// Stable sort of the keys by descending byte length.
pub open spec fn sort_keys(keys: Seq<Seq<char>>) -> Seq<Seq<char>>
    decreases keys.len(),
{
    if keys.len() == 0 {
        Seq::empty()
    } else {
        insert_key(keys.last(), sort_keys(keys.drop_last()))
    }
}

/// The alternation body: the given sequences joined with `|`.
pub open spec fn joined(keys: Seq<Seq<char>>) -> Seq<char>
    decreases keys.len(),
{
    if keys.len() == 0 {
        Seq::empty()
    } else if keys.len() == 1 {
        keys[0]
    } else {
        keys[0] + seq!['|'] + joined(keys.skip(1))
    }
}

/// Every key escaped, in order.
pub open spec fn escape_all(keys: Seq<Seq<char>>) -> Seq<Seq<char>> {
    keys.map_values(|k: Seq<char>| spec_escape(k))
}

/// The suffix of a join: `|` followed by each further piece.
pub open spec fn tail_join(keys: Seq<Seq<char>>) -> Seq<char>
    decreases keys.len(),
{
    if keys.len() == 0 {
        Seq::empty()
    } else {
        seq!['|'] + keys[0] + tail_join(keys.skip(1))
    }
}

/// One parenthesized alternation group: the keys escaped, sorted by
/// descending byte length, and joined with `|`.
pub open spec fn alternation_group(keys: Seq<Seq<char>>) -> Seq<char> {
    seq!['('] + joined(escape_all(sort_keys(keys))) + seq![')']
}

/// The delimited pattern text built from the table's keys:
/// `<left>(<escaped keys sorted by descending length, joined with |>)<right>`.
pub open spec fn spec_pattern(keys: Seq<Seq<char>>, dl: Seq<char>, dr: Seq<char>) -> Seq<char> {
    dl + alternation_group(keys) + dr
}

/// The full pattern text: the delimited alternation over the table's keys,
/// and — when a literal companion set is present — one more alternation
/// branch over the literal keys, outside the delimiters, so that literal
/// rules match anywhere.
pub open spec fn spec_pattern_with_literals(
    keys: Seq<Seq<char>>,
    dl: Seq<char>,
    dr: Seq<char>,
    lits: Seq<Seq<char>>,
) -> Seq<char> {
    if lits.len() == 0 {
        spec_pattern(keys, dl, dr)
    } else {
        spec_pattern(keys, dl, dr) + seq!['|'] + alternation_group(lits)
    }
}

proof fn lemma_joined_tail(keys: Seq<Seq<char>>)
    requires
        keys.len() >= 1,
    ensures
        joined(keys) == keys[0] + tail_join(keys.skip(1)),
    decreases keys.len(),
{
    if keys.len() == 1 {
        assert(keys.skip(1) =~~= Seq::<Seq<char>>::empty());
        assert(keys[0] + tail_join(keys.skip(1)) =~= keys[0]);
    } else {
        lemma_joined_tail(keys.skip(1));
        assert(keys.skip(1).skip(1) =~~= keys.skip(2));
        assert(tail_join(keys.skip(1)) =~= seq!['|'] + keys.skip(1)[0] + tail_join(
            keys.skip(1).skip(1),
        ));
        assert(joined(keys) =~= keys[0] + tail_join(keys.skip(1)));
    }
}

proof fn lemma_insert_key_len(k: Seq<char>, sorted: Seq<Seq<char>>)
    ensures
        insert_key(k, sorted).len() == sorted.len() + 1,
    decreases sorted.len(),
{
    if sorted.len() > 0 && byte_len(sorted[0]) >= byte_len(k) {
        lemma_insert_key_len(k, sorted.skip(1));
    }
}

/// Inserting into a sorted sequence at the scan position `j` — the number of
/// leading elements at least as long as `k` — splices `k` in at index `j`.
proof fn lemma_insert_key_at(k: Seq<char>, sorted: Seq<Seq<char>>, j: int)
    requires
        0 <= j <= sorted.len(),
        forall|i: int| 0 <= i < j ==> byte_len(#[trigger] sorted[i]) >= byte_len(k),
        j < sorted.len() ==> byte_len(sorted[j]) < byte_len(k),
    ensures
        insert_key(k, sorted) == sorted.take(j) + seq![k] + sorted.skip(j),
    decreases j,
{
    if j == 0 {
        if sorted.len() > 0 && byte_len(sorted[0]) >= byte_len(k) {
            assert(byte_len(sorted[0]) < byte_len(k));
        }
        assert(insert_key(k, sorted) =~~= sorted.take(0) + seq![k] + sorted.skip(0));
    } else {
        lemma_insert_key_at(k, sorted.skip(1), j - 1);
        assert(sorted.skip(1).take(j - 1) =~~= sorted.take(j).skip(1));
        assert(sorted.skip(1).skip(j - 1) =~~= sorted.skip(j));
        assert(seq![sorted[0]] + (sorted.take(j).skip(1) + seq![k] + sorted.skip(j)) =~~= sorted.take(
            j,
        ) + seq![k] + sorted.skip(j));
        assert(insert_key(k, sorted) =~~= sorted.take(j) + seq![k] + sorted.skip(j));
    }
}

proof fn lemma_insert_key_sorted(k: Seq<char>, sorted: Seq<Seq<char>>)
    requires
        forall|i: int, j: int|
            0 <= i < j < sorted.len() ==> byte_len(#[trigger] sorted[i]) >= byte_len(
                #[trigger] sorted[j],
            ),
    ensures
        forall|i: int, j: int|
            0 <= i < j < insert_key(k, sorted).len() ==> byte_len(
                #[trigger] insert_key(k, sorted)[i],
            ) >= byte_len(#[trigger] insert_key(k, sorted)[j]),
    decreases sorted.len(),
{
    let r = insert_key(k, sorted);
    if sorted.len() > 0 && byte_len(sorted[0]) >= byte_len(k) {
        lemma_insert_key_sorted(k, sorted.skip(1));
        lemma_insert_key_len(k, sorted.skip(1));
        let rr = insert_key(k, sorted.skip(1));
        assert forall|i: int, j: int| 0 <= i < j < r.len() implies byte_len(#[trigger] r[i])
            >= byte_len(#[trigger] r[j]) by {
            if i == 0 {
                if j >= 1 {
                    assert(r[j] == rr[j - 1]);
                    if sorted.len() == 1 {
                        assert(rr =~~= seq![k]);
                    } else {
                        if byte_len(sorted.skip(1)[0]) >= byte_len(k) {
                            assert(rr[0] == sorted.skip(1)[0]);
                        } else {
                            assert(rr[0] == k);
                        }
                    }
                    assert(byte_len(r[0]) >= byte_len(rr[0]));
                    if j - 1 > 0 {
                        assert(byte_len(rr[0]) >= byte_len(rr[j - 1]));
                    }
                }
            } else {
                assert(r[i] == rr[i - 1]);
                assert(r[j] == rr[j - 1]);
            }
        }
    } else {
        assert forall|i: int, j: int| 0 <= i < j < r.len() implies byte_len(#[trigger] r[i])
            >= byte_len(#[trigger] r[j]) by {
            if i == 0 {
                assert(r[j] == sorted[j - 1]);
                if sorted.len() > 0 {
                    if j - 1 == 0 {
                        assert(byte_len(k) > byte_len(sorted[0]));
                    } else {
                        assert(byte_len(sorted[0]) >= byte_len(sorted[j - 1]));
                        assert(byte_len(k) > byte_len(sorted[0]));
                    }
                }
            } else {
                assert(r[i] == sorted[i - 1]);
                assert(r[j] == sorted[j - 1]);
            }
        }
    }
}

proof fn lemma_insert_key_contains(k: Seq<char>, sorted: Seq<Seq<char>>, x: Seq<char>)
    ensures
        insert_key(k, sorted).contains(x) <==> (x == k || sorted.contains(x)),
    decreases sorted.len(),
{
    let r = insert_key(k, sorted);
    if sorted.len() > 0 && byte_len(sorted[0]) >= byte_len(k) {
        lemma_insert_key_contains(k, sorted.skip(1), x);
        let rr = insert_key(k, sorted.skip(1));
        if r.contains(x) {
            let i = choose|i: int| 0 <= i < r.len() && r[i] == x;
            if i == 0 {
                assert(sorted[0] == x);
                assert(sorted.contains(x));
            } else {
                assert(rr[i - 1] == x);
                assert(rr.contains(x));
                if x != k {
                    let t = choose|t: int| 0 <= t < sorted.skip(1).len() && sorted.skip(1)[t] == x;
                    assert(sorted[t + 1] == x);
                }
            }
        }
        if x == k {
            assert(rr.contains(x));
            let t = choose|t: int| 0 <= t < rr.len() && rr[t] == x;
            assert(r[t + 1] == x);
        }
        if sorted.contains(x) {
            let i = choose|i: int| 0 <= i < sorted.len() && sorted[i] == x;
            if i == 0 {
                assert(r[0] == x);
            } else {
                assert(sorted.skip(1)[i - 1] == x);
                assert(sorted.skip(1).contains(x));
                assert(rr.contains(x));
                let t = choose|t: int| 0 <= t < rr.len() && rr[t] == x;
                assert(r[t + 1] == x);
            }
        }
    } else {
        if r.contains(x) {
            let i = choose|i: int| 0 <= i < r.len() && r[i] == x;
            if i > 0 {
                assert(sorted[i - 1] == x);
            }
        }
        if sorted.contains(x) {
            let i = choose|i: int| 0 <= i < sorted.len() && sorted[i] == x;
            assert(r[i + 1] == x);
        }
        assert(r[0] == k);
    }
}

/// Sorting neither loses nor invents targets: the sorted sequence holds
/// exactly the keys of the original sequence.
pub proof fn lemma_sort_keys_contains(keys: Seq<Seq<char>>, x: Seq<char>)
    ensures
        sort_keys(keys).contains(x) <==> keys.contains(x),
    decreases keys.len(),
{
    if keys.len() > 0 {
        lemma_sort_keys_contains(keys.drop_last(), x);
        lemma_insert_key_contains(keys.last(), sort_keys(keys.drop_last()), x);
        if keys.drop_last().contains(x) {
            let i = choose|i: int| 0 <= i < keys.drop_last().len() && keys.drop_last()[i] == x;
            assert(keys[i] == x);
        }
        if x == keys.last() {
            assert(keys[keys.len() - 1] == x);
        }
        if keys.contains(x) {
            let i = choose|i: int| 0 <= i < keys.len() && keys[i] == x;
            if i < keys.len() - 1 {
                assert(keys.drop_last()[i] == x);
            }
        }
    }
}

/// The sorted keys stand in descending byte-length order, so in the built
/// alternation — whose branches are tried in declared order — a longer
/// target always precedes, and therefore beats, any shorter one that could
/// match at the same position.
pub proof fn lemma_sort_keys_sorted(keys: Seq<Seq<char>>)
    ensures
        forall|i: int, j: int|
            0 <= i < j < sort_keys(keys).len() ==> byte_len(#[trigger] sort_keys(keys)[i])
                >= byte_len(#[trigger] sort_keys(keys)[j]),
    decreases keys.len(),
{
    if keys.len() > 0 {
        lemma_sort_keys_sorted(keys.drop_last());
        lemma_insert_key_sorted(keys.last(), sort_keys(keys.drop_last()));
    }
}

/// Whether `s` contains a character the escaping step rewrites.
fn contains_special(s: &str) -> (b: bool)
    ensures
        b == has_special(s@),
{
    let n = s.unicode_len();
    let mut i: usize = 0;
    while i < n
        invariant
            0 <= i <= n,
            n == s@.len(),
            forall|j: int| 0 <= j < i ==> !is_special(#[trigger] s@[j]),
        decreases n - i,
    {
        let c = s.get_char(i);
        let u = c as u32;
        if u == 0x5C || u == 0x2E || u == 0x2B || u == 0x2A || u == 0x3F || u == 0x28 || u == 0x29
            || u == 0x7C || u == 0x5B || u == 0x5D || u == 0x7B || u == 0x7D || u == 0x5E || u
            == 0x24 || u == 0x23 {
            assert(is_special(s@[i as int]));
            return true;
        }
        assert(!is_special(s@[i as int]));
        i += 1;
    }
    false
}

/// Escapes one key so it is matched literally inside the alternation.
pub fn escape(s: &str) -> (r: String)
    ensures
        r@ == spec_escape(s@),
{
    if !contains_special(s) {
        return s.to_owned();
    }
    let n = s.unicode_len();
    let mut out = String::new();
    let mut i: usize = 0;
    proof {
        assert(s@.skip(0) =~= s@);
        assert(out@ + escape_chars(s@.skip(0)) =~= escape_chars(s@));
    }
    while i < n
        invariant
            0 <= i <= n,
            n == s@.len(),
            escape_chars(s@) == out@ + escape_chars(s@.skip(i as int)),
        decreases n - i,
    {
        let ghost pre = out@;
        let c = s.get_char(i);
        let u = c as u32;
        if u == 0x5C {
            out.append("\\\\");
            proof {
                reveal_strlit("\\\\");
                assert(out@ =~= pre + escaped_char(c));
            }
        } else if u == 0x0A {
            out.append("\\n");
            proof {
                reveal_strlit("\\n");
                assert(out@ =~= pre + escaped_char(c));
            }
        } else if u == 0x09 {
            out.append("\\t");
            proof {
                reveal_strlit("\\t");
                assert(out@ =~= pre + escaped_char(c));
            }
        } else if u == 0x0D {
            out.append("\\r");
            proof {
                reveal_strlit("\\r");
                assert(out@ =~= pre + escaped_char(c));
            }
        } else if u == 0x2E || u == 0x2B || u == 0x2A || u == 0x3F || u == 0x28 || u == 0x29 || u
            == 0x7C || u == 0x5B || u == 0x5D || u == 0x7B || u == 0x7D || u == 0x5E || u == 0x24
            || u == 0x23 {
            out.append("\\");
            let piece = s.substring_char(i, i + 1);
            out.append(piece);
            proof {
                reveal_strlit("\\");
                assert(piece@ =~= seq![s@[i as int]]);
                assert(is_special(c));
                assert(out@ =~= pre + escaped_char(c));
            }
        } else {
            let piece = s.substring_char(i, i + 1);
            out.append(piece);
            proof {
                assert(piece@ =~= seq![s@[i as int]]);
                assert(!is_special(c) && u != 0x5C && u != 0x0A && u != 0x09 && u != 0x0D);
                assert(out@ =~= pre + escaped_char(c));
            }
        }
        proof {
            assert(s@.skip(i as int).skip(1) =~= s@.skip(i + 1));
            assert(escape_chars(s@.skip(i as int)) =~= escaped_char(s@[i as int]) + escape_chars(
                s@.skip(i + 1),
            ));
            assert(escape_chars(s@) =~= out@ + escape_chars(s@.skip(i + 1)));
        }
        i += 1;
    }
    proof {
        assert(s@.skip(n as int) =~= Seq::<char>::empty());
        assert(escape_chars(s@) =~= out@);
    }
    out
}

/// Sorts the keys by descending byte length; keys of equal length keep their
/// original relative order.
pub fn sort_keys_exec(keys: Vec<String>) -> (r: Vec<String>)
    ensures
        r.deep_view() == sort_keys(keys.deep_view()),
{
    let mut out: Vec<String> = Vec::new();
    let mut i: usize = 0;
    proof {
        assert(keys.deep_view().take(0) =~~= Seq::<Seq<char>>::empty());
    }
    while i < keys.len()
        invariant
            0 <= i <= keys.len(),
            out.deep_view() == sort_keys(keys.deep_view().take(i as int)),
        decreases keys.len() - i,
    {
        let k = &keys[i];
        assert(k@ == keys.deep_view()[i as int]);
        let klen = k.as_str().as_bytes().len();
        assert(klen == byte_len(k@));
        let mut j: usize = 0;
        while j < out.len() && out[j].as_str().as_bytes().len() >= klen
            invariant
                0 <= j <= out.len(),
                klen == byte_len(k@),
                forall|t: int|
                    0 <= t < j ==> byte_len(#[trigger] out.deep_view()[t]) >= byte_len(k@),
            decreases out.len() - j,
        {
            assert(out.deep_view()[j as int] == out@[j as int]@);
            assert(byte_len(out.deep_view()[j as int]) >= byte_len(k@));
            j += 1;
        }
        if j < out.len() {
            assert(out.deep_view()[j as int] == out@[j as int]@);
            assert(byte_len(out.deep_view()[j as int]) < byte_len(k@));
        }
        let ghost pre = out.deep_view();
        out.insert(j, k.clone());
        proof {
            assert(out.deep_view() =~~= pre.take(j as int) + seq![k@] + pre.skip(j as int));
            lemma_insert_key_at(k@, pre, j as int);
            let kv = keys.deep_view();
            assert(kv.take(i + 1).drop_last() =~~= kv.take(i as int));
            assert(kv.take(i + 1).last() == kv[i as int]);
            assert(out.deep_view() =~~= sort_keys(kv.take(i + 1)));
        }
        i += 1;
    }
    proof {
        assert(keys.deep_view().take(keys.len() as int) =~~= keys.deep_view());
    }
    out
}

/// Joins the given pieces with `|`.
pub fn join_alternation(parts: &Vec<String>) -> (r: String)
    ensures
        r@ == joined(parts.deep_view()),
{
    let ghost pv = parts.deep_view();
    let mut out = String::new();
    if parts.len() == 0 {
        return out;
    }
    out.append(parts[0].as_str());
    proof {
        assert(pv[0] == parts@[0]@);
        lemma_joined_tail(pv);
        assert(out@ =~= pv[0]);
    }
    let mut i: usize = 1;
    while i < parts.len()
        invariant
            1 <= i <= parts.len(),
            pv == parts.deep_view(),
            pv.len() == parts.len(),
            out@ + tail_join(pv.skip(i as int)) == joined(pv),
        decreases parts.len() - i,
    {
        let ghost pre = out@;
        out.append("|");
        out.append(parts[i].as_str());
        proof {
            reveal_strlit("|");
            assert(pv[i as int] == parts@[i as int]@);
            assert(pv.skip(i as int).skip(1) =~~= pv.skip(i + 1));
            assert(tail_join(pv.skip(i as int)) =~= seq!['|'] + pv[i as int] + tail_join(
                pv.skip(i + 1),
            ));
            assert(out@ =~= pre + seq!['|'] + pv[i as int]);
            assert(out@ + tail_join(pv.skip(i + 1)) =~= pre + tail_join(pv.skip(i as int)));
        }
        i += 1;
    }
    proof {
        assert(pv.skip(parts.len() as int) =~~= Seq::<Seq<char>>::empty());
        assert(out@ =~= joined(pv));
    }
    out
}

/// Builds one parenthesized alternation group for the given keys.
fn build_group(keys: Vec<String>) -> (r: String)
    ensures
        r@ == alternation_group(keys.deep_view()),
{
    let ghost kv = keys.deep_view();
    let sorted = sort_keys_exec(keys);
    let mut escaped: Vec<String> = Vec::new();
    let mut i: usize = 0;
    while i < sorted.len()
        invariant
            0 <= i <= sorted.len(),
            sorted.deep_view() == sort_keys(kv),
            escaped.deep_view() == escape_all(sort_keys(kv).take(i as int)),
        decreases sorted.len() - i,
    {
        let ghost pre = escaped.deep_view();
        let e = escape(sorted[i].as_str());
        escaped.push(e);
        proof {
            assert(sorted@[i as int]@ == sort_keys(kv)[i as int]);
            assert(e@ == spec_escape(sort_keys(kv)[i as int]));
            assert(escaped.deep_view() =~~= pre.push(e@));
            assert(escaped.deep_view() =~~= escape_all(sort_keys(kv).take(i + 1)));
        }
        i += 1;
    }
    proof {
        assert(sort_keys(kv).take(sort_keys(kv).len() as int) =~~= sort_keys(kv));
        assert(escaped.deep_view() =~~= escape_all(sort_keys(kv)));
    }
    let body = join_alternation(&escaped);
    let mut out = String::from_str("(");
    out.append(body.as_str());
    out.append(")");
    proof {
        reveal_strlit("(");
        reveal_strlit(")");
        assert(out@ =~= alternation_group(kv));
    }
    out
}

/// Builds the full pattern text for the given target keys, delimiters, and
/// literal companion keys.
pub fn build_pattern(
    keys: Vec<String>,
    delim_left: &str,
    delim_right: &str,
    literal_keys: Vec<String>,
) -> (r: String)
    ensures
        r@ == spec_pattern_with_literals(
            keys.deep_view(),
            delim_left@,
            delim_right@,
            literal_keys.deep_view(),
        ),
{
    let ghost kv = keys.deep_view();
    let ghost lv = literal_keys.deep_view();
    let has_literals = literal_keys.len() > 0;
    let group = build_group(keys);
    let mut out = delim_left.to_owned();
    out.append(group.as_str());
    out.append(delim_right);
    proof {
        assert(out@ =~= spec_pattern(kv, delim_left@, delim_right@));
    }
    if has_literals {
        let lit_group = build_group(literal_keys);
        out.append("|");
        out.append(lit_group.as_str());
        proof {
            reveal_strlit("|");
            assert(out@ =~= spec_pattern_with_literals(kv, delim_left@, delim_right@, lv));
        }
    }
    out
}

} // verus!
