use vstd::prelude::*;

use crate::error::ConfigError;
use crate::segments::{pieces, push_char, segments, split_segments, views};

verus! {

/// The sibling names that one segment of a path pattern stands for.
///
/// A segment without `?` is a single literal name. A segment `?a|b|c?` stands
/// for each of `a`, `b` and `c`. Any other use of `?`, and an empty
/// alternative, is malformed (`None`).
pub open spec fn alternatives(seg: Seq<char>) -> Option<Seq<Seq<char>>> {
    let inner = seg.subrange(1, seg.len() - 1);
    if !seg.contains('?') {
        Some(seq![seg])
    } else if seg.len() >= 2 && seg[0] == '?' && seg.last() == '?' && !inner.contains('?')
        && forall|i: int| 0 <= i < pieces(inner, '|').len() ==> #[trigger] pieces(inner, '|')[i].len() > 0 {
        Some(pieces(inner, '|'))
    } else {
        None
    }
}

/// Every segment of `specs` before position `n` is well formed.
pub open spec fn all_well_formed(specs: Seq<Seq<char>>, n: int) -> bool {
    forall|i: int| 0 <= i < n ==> #[trigger] alternatives(specs[i]) is Some
}

/// The names allowed at each depth of a well-formed pattern.
pub open spec fn levels_of(specs: Seq<Seq<char>>) -> Seq<Seq<Seq<char>>> {
    specs.map_values(|seg: Seq<char>| alternatives(seg)->0)
}

/// The names held by a list of lists of strings.
pub open spec fn level_views(v: Seq<Vec<String>>) -> Seq<Seq<Seq<char>>> {
    v.map_values(|l: Vec<String>| views(l@))
}

/// The characters of `s`, in order.
pub(crate) fn chars_of(s: &str) -> (r: Vec<char>)
    ensures
        r@ == s@,
{
    let mut out: Vec<char> = Vec::new();
    for c in it: s.chars()
        invariant
            out@ == it.history(),
            it.seq() == s@,
    {
        out.push(c);
    }
    assert(out@ =~= s@);
    out
}

/// The string made of `v[lo..hi]`.
pub(crate) fn string_of(v: &Vec<char>, lo: usize, hi: usize) -> (r: String)
    requires
        lo <= hi <= v.len(),
    ensures
        r@ == v@.subrange(lo as int, hi as int),
{
    let mut out = String::new();
    let mut j: usize = lo;
    while j < hi
        invariant
            lo <= j <= hi <= v.len(),
            out@ == v@.subrange(lo as int, j as int),
        decreases hi - j,
    {
        push_char(&mut out, v[j]);
        assert(out@ =~= v@.subrange(lo as int, j + 1));
        j = j + 1;
    }
    out
}

/// Whether `c` occurs in `v[lo..hi]`.
fn occurs(v: &Vec<char>, lo: usize, hi: usize, c: char) -> (r: bool)
    requires
        lo <= hi <= v.len(),
    ensures
        r == v@.subrange(lo as int, hi as int).contains(c),
{
    let mut j: usize = lo;
    while j < hi
        invariant
            lo <= j <= hi <= v.len(),
            forall|i: int| lo <= i < j ==> v@[i] != c,
        decreases hi - j,
    {
        if v[j] == c {
            assert(v@.subrange(lo as int, hi as int)[j - lo] == c);
            return true;
        }
        j = j + 1;
    }
    assert forall|i: int| 0 <= i < hi - lo implies v@.subrange(lo as int, hi as int)[i] != c by {
        assert(v@[lo + i] != c);
    }
    false
}

/// The pieces of `v[lo..hi]` between occurrences of `sep`.
pub(crate) fn split_range(v: &Vec<char>, lo: usize, hi: usize, sep: char) -> (r: Vec<String>)
    requires
        lo <= hi <= v.len(),
    ensures
        views(r@) == pieces(v@.subrange(lo as int, hi as int), sep),
{
    let mut out: Vec<String> = Vec::new();
    let mut start: usize = lo;
    let mut j: usize = lo;
    assert(v@.subrange(lo as int, lo as int) =~= Seq::<char>::empty());
    assert(views(out@) =~= Seq::<Seq<char>>::empty());
    while j < hi
        invariant
            lo <= start <= j <= hi <= v.len(),
            pieces(v@.subrange(lo as int, j as int), sep) == views(out@).push(
                v@.subrange(start as int, j as int),
            ),
        decreases hi - j,
    {
        let ghost prev_out = out@;
        let ghost cur = v@.subrange(start as int, j as int);
        proof {
            let before = v@.subrange(lo as int, j as int);
            let after = v@.subrange(lo as int, j + 1);
            assert(after.drop_last() =~= before);
        }
        if v[j] == sep {
            let piece = string_of(v, start, j);
            out.push(piece);
            start = j + 1;
            assert(views(out@) =~= views(prev_out).push(cur));
            assert(v@.subrange(start as int, j + 1) =~= Seq::<char>::empty());
        } else {
            let ghost p = views(out@).push(cur);
            assert(p.update(p.len() - 1, p.last().push(v@[j as int])) =~= views(out@).push(
                cur.push(v@[j as int]),
            ));
            assert(v@.subrange(start as int, j + 1) =~= cur.push(v@[j as int]));
        }
        j = j + 1;
    }
    let ghost prev_out = out@;
    let last = string_of(v, start, hi);
    out.push(last);
    assert(views(out@) =~= views(prev_out).push(last@));
    out
}

/// `e` names the first malformed segment of `specs`.
pub open spec fn reports_first_malformed(specs: Seq<Seq<char>>, e: ConfigError) -> bool {
    exists|i: int|
        0 <= i < specs.len() && all_well_formed(specs, i) && alternatives(specs[i]) is None
            && (e matches ConfigError::MalformedAlternation { segment } && segment@ == specs[i])
}

/// The names that the segment `seg` stands for, or `None` where it is malformed.
pub fn parse_segment(seg: &String) -> (r: Option<Vec<String>>)
    ensures
        r is Some <==> alternatives(seg@) is Some,
        r matches Some(v) ==> views(v@) == alternatives(seg@)->0,
{
    let cs = chars_of(seg.as_str());
    let n = cs.len();
    assert(cs@.subrange(0, n as int) =~= cs@);
    if !occurs(&cs, 0, n, '?') {
        let v = vec![seg.clone()];
        assert(views(v@) =~= seq![seg@]);
        return Some(v);
    }
    if n < 2 || cs[0] != '?' || cs[n - 1] != '?' {
        return None;
    }
    if occurs(&cs, 1, n - 1, '?') {
        return None;
    }
    let alts = split_range(&cs, 1, n - 1, '|');
    let ghost inner = seg@.subrange(1, seg@.len() - 1);
    let mut i: usize = 0;
    while i < alts.len()
        invariant
            i <= alts.len(),
            views(alts@) == pieces(inner, '|'),
            inner == seg@.subrange(1, seg@.len() - 1),
            seg@.contains('?'),
            seg@.len() >= 2,
            seg@[0] == '?',
            seg@.last() == '?',
            !inner.contains('?'),
            forall|j: int| 0 <= j < i ==> #[trigger] pieces(inner, '|')[j].len() > 0,
        decreases alts.len() - i,
    {
        if alts[i].as_str().is_empty() {
            assert(pieces(inner, '|')[i as int] == alts@[i as int]@);
            assert(pieces(inner, '|')[i as int].len() == 0);
            assert(alternatives(seg@) is None);
            return None;
        }
        i = i + 1;
    }
    Some(alts)
}

/// The segment specifiers of a pattern, each expanded to its names; the
/// first malformed segment is reported.
pub fn parse_pattern(raw: &str) -> (r: Result<Vec<Vec<String>>, ConfigError>)
    ensures
        r is Ok <==> all_well_formed(segments(raw@), segments(raw@).len() as int),
        r matches Ok(levels) ==> level_views(levels@) == levels_of(segments(raw@)),
        r matches Err(e) ==> reports_first_malformed(segments(raw@), e),
{
    let specs = split_segments(raw);
    let ghost sv = segments(raw@);
    let mut levels: Vec<Vec<String>> = Vec::new();
    let mut i: usize = 0;
    while i < specs.len()
        invariant
            i <= specs.len(),
            views(specs@) == sv,
            sv == segments(raw@),
            all_well_formed(sv, i as int),
            level_views(levels@) == levels_of(sv).take(i as int),
        decreases specs.len() - i,
    {
        assert(sv[i as int] == specs@[i as int]@);
        match parse_segment(&specs[i]) {
            Some(names) => {
                let ghost prev = levels@;
                levels.push(names);
                assert(level_views(levels@) =~= level_views(prev).push(views(names@)));
                assert(levels_of(sv).take(i + 1) =~= levels_of(sv).take(i as int).push(
                    alternatives(sv[i as int])->0,
                ));
            },
            None => {
                assert(alternatives(sv[i as int]) is None);
                assert(!all_well_formed(sv, sv.len() as int));
                let segment = specs[i].clone();
                let e = ConfigError::MalformedAlternation { segment };
                assert(0 <= i < sv.len() && all_well_formed(sv, i as int) && alternatives(sv[i as int]) is None
                    && (e matches ConfigError::MalformedAlternation { segment } && segment@ == sv[i as int]));
                return Err(e);
            },
        }
        i = i + 1;
    }
    assert(levels_of(sv).take(i as int) =~= levels_of(sv));
    Ok(levels)
}

} // verus!
