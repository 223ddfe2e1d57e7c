use vstd::prelude::*;

verus! {

/// The pieces of `s` between occurrences of `sep`, empty pieces included;
/// there is always at least one.
pub open spec fn pieces(s: Seq<char>, sep: char) -> Seq<Seq<char>>
    decreases s.len(),
{
    if s.len() == 0 {
        seq![Seq::empty()]
    } else {
        let prev = pieces(s.drop_last(), sep);
        if s.last() == sep {
            prev.push(Seq::empty())
        } else {
            prev.update(prev.len() - 1, prev.last().push(s.last()))
        }
    }
}

/// A path split on `/`, with the empty pieces left out.
pub open spec fn segments(s: Seq<char>) -> Seq<Seq<char>> {
    pieces(s, '/').filter(|p: Seq<char>| p.len() > 0)
}

/// The character views of a list of strings.
pub open spec fn views(v: Seq<String>) -> Seq<Seq<char>> {
    v.map_values(|x: String| x@)
}

/// There is always at least one piece.
pub proof fn lemma_pieces_nonempty(s: Seq<char>, sep: char)
    ensures
        pieces(s, sep).len() >= 1,
    decreases s.len(),
{
    if s.len() > 0 {
        lemma_pieces_nonempty(s.drop_last(), sep);
    }
}

/// Relies on `String::push`: appends one character.
#[verifier::external_body]
pub(crate) fn push_char(s: &mut String, c: char)
    ensures
        final(s)@ == old(s)@.push(c),
{
    s.push(c)
}

/// Relies on `String::push_str`: appends a string slice.
#[verifier::external_body]
pub(crate) fn push_str(s: &mut String, t: &str)
    ensures
        final(s)@ == old(s)@ + t@,
{
    s.push_str(t)
}

/// Splits `s` on `/` and keeps the non-empty pieces, in order.
pub fn split_segments(s: &str) -> (r: Vec<String>)
    ensures
        views(r@) == segments(s@),
{
    let mut out: Vec<String> = Vec::new();
    let mut cur = String::new();
    let ghost nonempty = |p: Seq<char>| p.len() > 0;
    let ghost mut seen: Seq<char> = Seq::empty();
    for c in it: s.chars()
        invariant
            nonempty == (|p: Seq<char>| p.len() > 0),
            seen == it.history(),
            it.seq() == s@,
            pieces(seen, '/').len() >= 1,
            cur@ == pieces(seen, '/').last(),
            views(out@) == pieces(seen, '/').drop_last().filter(nonempty),
    {
        let ghost prev_out = out@;
        let ghost prev = pieces(seen, '/');
        proof {
            let old_seen = seen;
            seen = seen.push(c);
            assert(seen.drop_last() =~= old_seen);
        }
        if c == '/' {
            if !cur.as_str().is_empty() {
                out.push(cur);
                assert(views(out@) =~= views(prev_out).push(prev.last()));
            }
            cur = String::new();
            proof {
                assert(pieces(seen, '/').drop_last() =~= prev);
                assert(prev =~= prev.drop_last().push(prev.last()));
                prev.drop_last().lemma_filter_push(prev.last(), nonempty);
            }
        } else {
            push_char(&mut cur, c);
            assert(pieces(seen, '/').drop_last() =~= prev.drop_last());
        }
    }
    proof {
        let fin = pieces(seen, '/');
        assert(seen =~= s@);
        assert(fin =~= fin.drop_last().push(fin.last()));
        fin.drop_last().lemma_filter_push(fin.last(), nonempty);
    }
    if !cur.as_str().is_empty() {
        out.push(cur);
    }
    out
}

} // verus!
