//! Expansion of `typeof`-comparison rewrite rules for dotted-path targets.
//!
//! A replacement target shaped like an object path (`abc.def`, `a.b.c.d`)
//! implies that every path prefix segment except the leaf denotes an object.
//! For each such segment this module synthesizes eight literal rules that
//! rewrite `typeof <segment><spacing><op>` into `"object"<spacing><op>`,
//! keeping each operator and its spacing.

use vstd::prelude::*;
use vstd::string::*;

verus! {

/// A character that may begin a path segment: `_`, `$`, an ASCII letter,
/// or any character in the range U+00A0 ..= U+FFFF.
pub open spec fn is_ident_start(c: char) -> bool {
    let u = c as u32;
    u == 0x5F || u == 0x24 || (0x61 <= u && u <= 0x7A) || (0x41 <= u && u <= 0x5A) || (0xA0 <= u
        && u <= 0xFFFF)
}

/// A character that may continue a path segment: a starting character or an
/// ASCII digit.
pub open spec fn is_ident_continue(c: char) -> bool {
    is_ident_start(c) || (0x30 <= c as u32 && c as u32 <= 0x39)
}

/// A non-empty sequence of identifier characters with a valid first character.
pub open spec fn is_ident(s: Seq<char>) -> bool {
    &&& s.len() > 0
    &&& is_ident_start(s[0])
    &&& forall|i: int| 1 <= i < s.len() ==> is_ident_continue(#[trigger] s[i])
}

/// The segments of `s` between `.` separators, in order. Splitting the empty
/// sequence yields one empty segment, as `str::split` does.
pub open spec fn split_dots(s: Seq<char>) -> Seq<Seq<char>>
    decreases s.len(),
{
    if s.len() == 0 {
        seq![Seq::<char>::empty()]
    } else if s[0] == '.' {
        seq![Seq::<char>::empty()] + split_dots(s.skip(1))
    } else {
        let r = split_dots(s.skip(1));
        seq![seq![s[0]] + r[0]] + r.skip(1)
    }
}

pub proof fn lemma_split_dots_len(s: Seq<char>)
    ensures
        split_dots(s).len() >= 1,
    decreases s.len(),
{
    if s.len() != 0 {
        lemma_split_dots_len(s.skip(1));
    }
}

/// A target key has object-path shape when it consists of at least two
/// `.`-separated segments, each a valid identifier.
pub open spec fn is_object_path(s: Seq<char>) -> bool {
    &&& split_dots(s).len() >= 2
    &&& forall|i: int| 0 <= i < split_dots(s).len() ==> is_ident(#[trigger] split_dots(s)[i])
}

/// The eight rewrite rules synthesized for one path segment `p`, in the order
/// they are emitted: every comparison operator, with and without a leading
/// space, mapped to `"object"` followed by the same operator and spacing.
pub open spec fn rules_for_segment(p: Seq<char>) -> Seq<(Seq<char>, Seq<char>)> {
    seq![
        ("typeof "@ + p + " ==="@, "\"object\" ==="@),
        ("typeof "@ + p + "==="@, "\"object\"==="@),
        ("typeof "@ + p + " !=="@, "\"object\" !=="@),
        ("typeof "@ + p + "!=="@, "\"object\"!=="@),
        ("typeof "@ + p + " =="@, "\"object\" =="@),
        ("typeof "@ + p + "=="@, "\"object\"=="@),
        ("typeof "@ + p + "!="@, "\"object\"!="@),
        ("typeof "@ + p + " !="@, "\"object\" !="@),
    ]
}

/// Rules for a sequence of segments, concatenated in segment order.
pub open spec fn rules_for_segments(segs: Seq<Seq<char>>) -> Seq<(Seq<char>, Seq<char>)>
    decreases segs.len(),
{
    if segs.len() == 0 {
        Seq::empty()
    } else {
        rules_for_segment(segs[0]) + rules_for_segments(segs.skip(1))
    }
}

/// All rules derived from one target key: eight per segment except the final
/// one for an object-path-shaped key, none for any other key.
pub open spec fn rules_for_key(k: Seq<char>) -> Seq<(Seq<char>, Seq<char>)> {
    if is_object_path(k) {
        rules_for_segments(split_dots(k).drop_last())
    } else {
        Seq::empty()
    }
}

/// All rules derived from a sequence of target keys, in key order.
pub open spec fn spec_expand(keys: Seq<Seq<char>>) -> Seq<(Seq<char>, Seq<char>)>
    decreases keys.len(),
{
    if keys.len() == 0 {
        Seq::empty()
    } else {
        rules_for_key(keys[0]) + spec_expand(keys.skip(1))
    }
}

proof fn lemma_rules_for_segments_snoc(segs: Seq<Seq<char>>, p: Seq<char>)
    ensures
        rules_for_segments(segs.push(p)) == rules_for_segments(segs) + rules_for_segment(p),
    decreases segs.len(),
{
    if segs.len() == 0 {
        assert(segs.push(p).skip(1) =~~= Seq::<Seq<char>>::empty());
        assert(segs.push(p)[0] == p);
        assert(segs.push(p).len() == 1);
        assert(rules_for_segments(Seq::<Seq<char>>::empty()) =~~= Seq::<(
            Seq<char>,
            Seq<char>,
        )>::empty());
        assert(rules_for_segments(segs.push(p)) =~~= rules_for_segment(p) + rules_for_segments(
            segs.push(p).skip(1),
        ));
        assert(rules_for_segments(segs.push(p)) =~~= rules_for_segment(p));
        assert(rules_for_segments(segs) + rules_for_segment(p) =~~= rules_for_segment(p));
    } else {
        assert(segs.push(p).skip(1) =~~= segs.skip(1).push(p));
        lemma_rules_for_segments_snoc(segs.skip(1), p);
        assert(rules_for_segments(segs.push(p)) =~~= rules_for_segments(segs) + rules_for_segment(
            p,
        ));
    }
}

proof fn lemma_spec_expand_snoc(keys: Seq<Seq<char>>, k: Seq<char>)
    ensures
        spec_expand(keys.push(k)) == spec_expand(keys) + rules_for_key(k),
    decreases keys.len(),
{
    if keys.len() == 0 {
        assert(keys.push(k).skip(1) =~~= Seq::<Seq<char>>::empty());
        assert(keys.push(k)[0] == k);
        assert(keys.push(k).len() == 1);
        assert(spec_expand(Seq::<Seq<char>>::empty()) =~~= Seq::<(Seq<char>, Seq<char>)>::empty());
        assert(spec_expand(keys.push(k)) =~~= rules_for_key(k) + spec_expand(keys.push(k).skip(1)));
        assert(spec_expand(keys.push(k)) =~~= rules_for_key(k));
        assert(spec_expand(keys) + rules_for_key(k) =~~= rules_for_key(k));
    } else {
        assert(keys.push(k).skip(1) =~~= keys.skip(1).push(k));
        lemma_spec_expand_snoc(keys.skip(1), k);
        assert(spec_expand(keys.push(k)) =~~= spec_expand(keys) + rules_for_key(k));
    }
}

/// If the first `k` characters of `t` are not dots and `t[k]` is a dot, the
/// split is the head segment followed by the split of the remainder.
proof fn lemma_split_dots_at(t: Seq<char>, k: int)
    requires
        0 <= k < t.len(),
        t[k] == '.',
        forall|j: int| 0 <= j < k ==> t[j] != '.',
    ensures
        split_dots(t) == seq![t.take(k)] + split_dots(t.skip(k + 1)),
    decreases k,
{
    if k == 0 {
        assert(split_dots(t) =~~= seq![t.take(0)] + split_dots(t.skip(1)));
    } else {
        lemma_split_dots_at(t.skip(1), k - 1);
        lemma_split_dots_len(t.skip(1));
        assert(t.skip(1).take(k - 1) =~= t.take(k).skip(1));
        assert(t.skip(1).skip(k) =~= t.skip(k + 1));
        assert(seq![t[0]] + t.take(k).skip(1) =~= t.take(k));
        assert(split_dots(t) =~~= seq![t.take(k)] + split_dots(t.skip(k + 1)));
    }
}

/// A sequence with no dots splits into itself alone.
proof fn lemma_split_dots_none(t: Seq<char>)
    requires
        forall|j: int| 0 <= j < t.len() ==> t[j] != '.',
    ensures
        split_dots(t) == seq![t],
    decreases t.len(),
{
    if t.len() == 0 {
        assert(split_dots(t) =~~= seq![t]);
    } else {
        lemma_split_dots_none(t.skip(1));
        assert(seq![t[0]] + t.skip(1) =~= t);
        assert(split_dots(t) =~~= seq![t]);
    }
}

/// A key without a separator yields no rules.
pub proof fn lemma_no_dot_no_rules(k: Seq<char>)
    requires
        forall|i: int| 0 <= i < k.len() ==> k[i] != '.',
    ensures
        rules_for_key(k) == Seq::<(Seq<char>, Seq<char>)>::empty(),
{
    lemma_split_dots_none(k);
    assert(split_dots(k).len() == 1);
}

proof fn lemma_rules_for_segments_count(segs: Seq<Seq<char>>)
    ensures
        rules_for_segments(segs).len() == 8 * segs.len(),
    decreases segs.len(),
{
    if segs.len() > 0 {
        lemma_rules_for_segments_count(segs.skip(1));
    }
}

/// An object-path-shaped key yields exactly eight rules for every segment
/// but the final one, and a key of any other shape yields none.
pub proof fn lemma_rule_count(k: Seq<char>)
    ensures
        is_object_path(k) ==> rules_for_key(k).len() == 8 * (split_dots(k).len() - 1),
        !is_object_path(k) ==> rules_for_key(k).len() == 0,
{
    if is_object_path(k) {
        lemma_rules_for_segments_count(split_dots(k).drop_last());
    }
}

proof fn lemma_split_char_membership(s: Seq<char>, i: int) -> (r: (int, int))
    requires
        0 <= i < s.len(),
        s[i] != '.',
    ensures
        0 <= r.0 < split_dots(s).len(),
        0 <= r.1 < split_dots(s)[r.0].len(),
        split_dots(s)[r.0][r.1] == s[i],
    decreases s.len(),
{
    if i == 0 {
        lemma_split_dots_len(s.skip(1));
        (0, 0)
    } else {
        let rr = lemma_split_char_membership(s.skip(1), i - 1);
        if s[0] == '.' {
            assert(split_dots(s)[rr.0 + 1] == split_dots(s.skip(1))[rr.0]);
            (rr.0 + 1, rr.1)
        } else {
            lemma_split_dots_len(s.skip(1));
            if rr.0 == 0 {
                assert(split_dots(s)[0] == seq![s[0]] + split_dots(s.skip(1))[0]);
                assert(split_dots(s)[0][rr.1 + 1] == split_dots(s.skip(1))[0][rr.1]);
                (0, rr.1 + 1)
            } else {
                assert(split_dots(s)[rr.0] == split_dots(s.skip(1)).skip(1)[rr.0 - 1]);
                assert(split_dots(s)[rr.0] == split_dots(s.skip(1))[rr.0]);
                (rr.0, rr.1)
            }
        }
    }
}

/// A key holding a character that can stand in no identifier — anything but
/// the separator and identifier characters — yields no rules.
pub proof fn lemma_bad_char_no_rules(k: Seq<char>, i: int)
    requires
        0 <= i < k.len(),
        k[i] != '.',
        !is_ident_continue(k[i]),
    ensures
        rules_for_key(k) == Seq::<(Seq<char>, Seq<char>)>::empty(),
{
    if is_object_path(k) {
        let r = lemma_split_char_membership(k, i);
        assert(is_ident(split_dots(k)[r.0]));
        if r.1 == 0 {
            assert(is_ident_start(split_dots(k)[r.0][0]));
        } else {
            assert(is_ident_continue(split_dots(k)[r.0][r.1]));
        }
    }
}

/// A key that begins with the separator yields no rules.
pub proof fn lemma_leading_dot_no_rules(k: Seq<char>)
    requires
        k.len() > 0,
        k[0] == '.',
    ensures
        rules_for_key(k) == Seq::<(Seq<char>, Seq<char>)>::empty(),
{
    assert(split_dots(k)[0].len() == 0);
    assert(!is_ident(split_dots(k)[0]));
}

proof fn lemma_trailing_dot_split(s: Seq<char>)
    requires
        s.len() > 0,
        s[s.len() - 1] == '.',
    ensures
        split_dots(s).len() >= 2,
        split_dots(s)[split_dots(s).len() - 1].len() == 0,
    decreases s.len(),
{
    if s.len() == 1 {
        assert(split_dots(s) =~~= seq![Seq::<char>::empty(), Seq::<char>::empty()]);
    } else if s[0] == '.' {
        lemma_trailing_dot_split(s.skip(1));
        let r = split_dots(s.skip(1));
        assert(split_dots(s)[split_dots(s).len() - 1] == r[r.len() - 1]);
    } else {
        lemma_trailing_dot_split(s.skip(1));
        let r = split_dots(s.skip(1));
        assert(split_dots(s).len() == r.len());
        assert(split_dots(s)[split_dots(s).len() - 1] == r.skip(1)[r.len() - 2]);
        assert(r.skip(1)[r.len() - 2] == r[r.len() - 1]);
    }
}

/// A key that ends with the separator yields no rules.
pub proof fn lemma_trailing_dot_no_rules(k: Seq<char>)
    requires
        k.len() > 0,
        k[k.len() - 1] == '.',
    ensures
        rules_for_key(k) == Seq::<(Seq<char>, Seq<char>)>::empty(),
{
    lemma_trailing_dot_split(k);
    assert(!is_ident(split_dots(k)[split_dots(k).len() - 1]));
}

proof fn lemma_double_dot_split(s: Seq<char>, i: int)
    requires
        0 <= i,
        i + 1 < s.len(),
        s[i] == '.',
        s[i + 1] == '.',
    ensures
        exists|j: int|
            1 <= j < split_dots(s).len() && (#[trigger] split_dots(s)[j]).len() == 0,
    decreases i,
{
    if i == 0 {
        assert(split_dots(s.skip(1))[0].len() == 0);
        assert(split_dots(s)[1] == split_dots(s.skip(1))[0]);
        assert(split_dots(s)[1].len() == 0);
    } else {
        lemma_double_dot_split(s.skip(1), i - 1);
        let r = split_dots(s.skip(1));
        let j = choose|j: int| 1 <= j < r.len() && (#[trigger] r[j]).len() == 0;
        if s[0] == '.' {
            assert(split_dots(s)[j + 1] == r[j]);
            assert(split_dots(s)[j + 1].len() == 0);
        } else {
            assert(split_dots(s)[j] == r.skip(1)[j - 1]);
            assert(split_dots(s)[j] == r[j]);
            assert(split_dots(s)[j].len() == 0);
        }
    }
}

/// A key with an empty segment between two separators yields no rules.
pub proof fn lemma_double_dot_no_rules(k: Seq<char>, i: int)
    requires
        0 <= i,
        i + 1 < k.len(),
        k[i] == '.',
        k[i + 1] == '.',
    ensures
        rules_for_key(k) == Seq::<(Seq<char>, Seq<char>)>::empty(),
{
    lemma_double_dot_split(k, i);
    let j = choose|j: int|
        1 <= j < split_dots(k).len() && (#[trigger] split_dots(k)[j]).len() == 0;
    assert(!is_ident(split_dots(k)[j]));
}

fn is_ident_start_char(c: char) -> (b: bool)
    ensures
        b == is_ident_start(c),
{
    let u = c as u32;
    u == 0x5F || u == 0x24 || (0x61 <= u && u <= 0x7A) || (0x41 <= u && u <= 0x5A) || (0xA0 <= u
        && u <= 0xFFFF)
}

fn is_ident_continue_char(c: char) -> (b: bool)
    ensures
        b == is_ident_continue(c),
{
    is_ident_start_char(c) || {
        let u = c as u32;
        0x30 <= u && u <= 0x39
    }
}

/// Whether `s` is a valid path segment.
fn check_ident(s: &str) -> (b: bool)
    ensures
        b == is_ident(s@),
{
    let n = s.unicode_len();
    if n == 0 {
        return false;
    }
    if !is_ident_start_char(s.get_char(0)) {
        return false;
    }
    let mut i: usize = 1;
    while i < n
        invariant
            1 <= i <= n,
            n == s@.len(),
            is_ident_start(s@[0]),
            forall|j: int| 1 <= j < i ==> is_ident_continue(#[trigger] s@[j]),
        decreases n - i,
    {
        if !is_ident_continue_char(s.get_char(i)) {
            return false;
        }
        i += 1;
    }
    true
}

/// Splits `s` on `.` into its segments.
fn split_key(s: &str) -> (parts: Vec<String>)
    ensures
        parts.deep_view() == split_dots(s@),
{
    let n = s.unicode_len();
    let mut parts: Vec<String> = Vec::new();
    let mut seg_start: usize = 0;
    let mut i: usize = 0;
    proof {
        assert(s@.skip(0) =~= s@);
        assert(parts.deep_view().len() == 0);
        assert(parts.deep_view() + split_dots(s@.skip(0)) =~~= split_dots(s@));
    }
    while i < n
        invariant
            0 <= seg_start <= i <= n,
            n == s@.len(),
            split_dots(s@) == parts.deep_view() + split_dots(s@.skip(seg_start as int)),
            forall|j: int| seg_start <= j < i ==> s@[j] != '.',
        decreases n - i,
    {
        let c = s.get_char(i);
        if c as u32 == 0x2E {
            let seg = s.substring_char(seg_start, i);
            proof {
                let t = s@.skip(seg_start as int);
                lemma_split_dots_at(t, i - seg_start);
                assert(t.take(i - seg_start) =~= s@.subrange(seg_start as int, i as int));
                assert(t.skip(i - seg_start + 1) =~= s@.skip(i + 1));
                assert(parts.deep_view().push(seg@) =~= parts.deep_view() + seq![seg@]);
            }
            let ghost old_parts = parts.deep_view();
            parts.push(seg.to_owned());
            proof {
                assert(parts.deep_view() =~= old_parts.push(seg@));
                assert(parts.deep_view() + split_dots(s@.skip(i + 1)) =~= split_dots(s@));
            }
            seg_start = i + 1;
        }
        i += 1;
    }
    let seg = s.substring_char(seg_start, n);
    proof {
        let t = s@.skip(seg_start as int);
        lemma_split_dots_none(t);
        assert(t =~= s@.subrange(seg_start as int, n as int));
    }
    let ghost old_parts = parts.deep_view();
    parts.push(seg.to_owned());
    proof {
        assert(parts.deep_view() =~= old_parts.push(seg@));
        assert(parts.deep_view() =~= split_dots(s@));
    }
    parts
}

/// Appends the eight rules for segment `seg` to `out`.
fn push_segment_rules(out: &mut Vec<(String, String)>, seg: &str)
    ensures
        final (out).deep_view() == old(out).deep_view() + rules_for_segment(seg@),
{
    let ghost base = out.deep_view();

    let mut k1 = String::from_str("typeof ");
    k1.append(seg);
    k1.append(" ===");
    out.push((k1, String::from_str("\"object\" ===")));

    let mut k2 = String::from_str("typeof ");
    k2.append(seg);
    k2.append("===");
    out.push((k2, String::from_str("\"object\"===")));

    let mut k3 = String::from_str("typeof ");
    k3.append(seg);
    k3.append(" !==");
    out.push((k3, String::from_str("\"object\" !==")));

    let mut k4 = String::from_str("typeof ");
    k4.append(seg);
    k4.append("!==");
    out.push((k4, String::from_str("\"object\"!==")));

    let mut k5 = String::from_str("typeof ");
    k5.append(seg);
    k5.append(" ==");
    out.push((k5, String::from_str("\"object\" ==")));

    let mut k6 = String::from_str("typeof ");
    k6.append(seg);
    k6.append("==");
    out.push((k6, String::from_str("\"object\"==")));

    let mut k7 = String::from_str("typeof ");
    k7.append(seg);
    k7.append("!=");
    out.push((k7, String::from_str("\"object\"!=")));

    let mut k8 = String::from_str("typeof ");
    k8.append(seg);
    k8.append(" !=");
    out.push((k8, String::from_str("\"object\" !=")));

    proof {
        assert(out.deep_view() =~= base + rules_for_segment(seg@));
    }
}

/// Derives the `typeof` rewrite rules for every object-path-shaped target key
/// of `values`, in key order; keys of any other shape contribute nothing.
pub fn expand_typeof_replacements(values: &Vec<(String, String)>) -> (r: Vec<(String, String)>)
    ensures
        r.deep_view() == spec_expand(values.deep_view().map_values(|p: (Seq<char>, Seq<char>)| p.0)),
{
    let ghost keys = values.deep_view().map_values(|p: (Seq<char>, Seq<char>)| p.0);
    let mut out: Vec<(String, String)> = Vec::new();
    let mut ki: usize = 0;
    while ki < values.len()
        invariant
            0 <= ki <= values.len(),
            keys == values.deep_view().map_values(|p: (Seq<char>, Seq<char>)| p.0),
            keys.len() == values.len(),
            out.deep_view() == spec_expand(keys.take(ki as int)),
        decreases values.len() - ki,
    {
        let key: &String = &values[ki].0;
        assert(key@ == keys[ki as int]);
        let parts = split_key(key.as_str());
        let mut valid = parts.len() >= 2;
        let mut pi: usize = 0;
        while pi < parts.len() && valid
            invariant
                0 <= pi <= parts.len(),
                parts.deep_view() == split_dots(key@),
                valid ==> parts.len() >= 2,
                valid ==> forall|j: int|
                    0 <= j < pi ==> is_ident(#[trigger] split_dots(key@)[j]),
                !valid ==> !is_object_path(key@),
            decreases parts.len() - pi,
        {
            assert(parts.deep_view()[pi as int] == parts@[pi as int]@);
            if !check_ident(parts[pi].as_str()) {
                valid = false;
                assert(!is_ident(split_dots(key@)[pi as int]));
            }
            pi += 1;
        }
        proof {
            lemma_split_dots_len(key@);
        }
        if valid {
            assert(pi == parts.len());
            assert(is_object_path(key@));
            let ghost segs = split_dots(key@).drop_last();
            let last = parts.len() - 1;
            let mut si: usize = 0;
            while si < last
                invariant
                    0 <= si <= last,
                    last == parts.len() - 1,
                    parts.deep_view() == split_dots(key@),
                    segs == split_dots(key@).drop_last(),
                    out.deep_view() == spec_expand(keys.take(ki as int)) + rules_for_segments(
                        segs.take(si as int),
                    ),
                decreases last - si,
            {
                proof {
                    assert(segs.take(si as int).push(segs[si as int]) =~= segs.take(si + 1));
                    lemma_rules_for_segments_snoc(segs.take(si as int), segs[si as int]);
                }
                push_segment_rules(&mut out, parts[si].as_str());
                si += 1;
            }
            proof {
                assert(segs.take(last as int) =~= segs);
                assert(rules_for_key(keys[ki as int]) == rules_for_segments(segs));
                assert(keys.take(ki as int).push(keys[ki as int]) =~= keys.take(ki + 1));
                lemma_spec_expand_snoc(keys.take(ki as int), keys[ki as int]);
            }
        } else {
            proof {
                assert(!is_object_path(key@));
                assert(rules_for_key(keys[ki as int]) =~= Seq::empty());
                assert(keys.take(ki as int).push(keys[ki as int]) =~= keys.take(ki + 1));
                lemma_spec_expand_snoc(keys.take(ki as int), keys[ki as int]);
                assert(out.deep_view() =~= spec_expand(keys.take(ki + 1)));
            }
        }
        ki += 1;
    }
    proof {
        assert(keys.take(values.len() as int) =~= keys);
    }
    out
}

} // verus!
