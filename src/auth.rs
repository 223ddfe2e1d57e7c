use vstd::prelude::*;

use crate::pattern::{chars_of, split_range, string_of};
use crate::segments::{pieces, views};

verus! {

/// `s` begins with `prefix`.
pub open spec fn starts_with(s: Seq<char>, prefix: Seq<char>) -> bool {
    prefix.len() <= s.len() && s.take(prefix.len() as int) == prefix
}

/// The key that introduces a session token in a query string.
pub open spec fn token_key() -> Seq<char> {
    seq!['t', 'o', 'k', 'e', 'n', '=']
}

/// The prefix of an authorization header that carries a bearer token.
pub open spec fn bearer_key() -> Seq<char> {
    seq!['B', 'e', 'a', 'r', 'e', 'r', ' ']
}

/// The token of an authorization header of the form `Bearer <token>`.
pub open spec fn bearer_of(h: Seq<char>) -> Option<Seq<char>> {
    if starts_with(h, bearer_key()) {
        Some(h.skip(7))
    } else {
        None
    }
}

/// The characters of an optional string.
pub open spec fn opt_chars(o: Option<&str>) -> Option<Seq<char>> {
    match o {
        Some(s) => Some(s@),
        None => None,
    }
}

/// The session token of a request, from its authorization header, its
/// `x-token` header and its query string: a bearer token first, then the
/// `x-token` value, then the query's token.
pub open spec fn request_token(
    authorization: Option<Seq<char>>,
    x_token: Option<Seq<char>>,
    query: Option<Seq<char>>,
) -> Option<Seq<char>> {
    let bearer = match authorization {
        Some(h) => bearer_of(h),
        None => None,
    };
    if bearer is Some {
        bearer
    } else if x_token is Some {
        x_token
    } else {
        match query {
            Some(q) => query_token(q),
            None => None,
        }
    }
}

/// The session token of a query string: in the first `&`-separated field
/// that begins with `token=`, the text after that key up to the next `=`.
pub open spec fn query_token(q: Seq<char>) -> Option<Seq<char>> {
    let fields = pieces(q, '&');
    if exists|i: int| 0 <= i < fields.len() && starts_with(#[trigger] fields[i], token_key()) {
        let i = choose|i: int|
            0 <= i < fields.len() && starts_with(#[trigger] fields[i], token_key()) && forall|j: int|
                0 <= j < i ==> !starts_with(fields[j], token_key());
        Some(pieces(fields[i].skip(6), '=')[0])
    } else {
        None
    }
}

/// Whether `v[lo..]` begins with `key`.
fn has_key_at(v: &Vec<char>, key: &Vec<char>) -> (r: bool)
    ensures
        r == starts_with(v@, key@),
{
    if key.len() > v.len() {
        return false;
    }
    let mut i: usize = 0;
    while i < key.len()
        invariant
            key.len() <= v.len(),
            i <= key.len(),
            forall|j: int| 0 <= j < i ==> v@[j] == key@[j],
        decreases key.len() - i,
    {
        if v[i] != key[i] {
            assert(v@.take(key@.len() as int)[i as int] != key@[i as int]);
            return false;
        }
        i = i + 1;
    }
    assert(v@.take(key@.len() as int) =~= key@);
    true
}

fn token_key_chars() -> (r: Vec<char>)
    ensures
        r@ == token_key(),
{
    let r = vec!['t', 'o', 'k', 'e', 'n', '='];
    assert(r@ =~= token_key());
    r
}

fn bearer_key_chars() -> (r: Vec<char>)
    ensures
        r@ == bearer_key(),
{
    let r = vec!['B', 'e', 'a', 'r', 'e', 'r', ' '];
    assert(r@ =~= bearer_key());
    r
}

proof fn lemma_first_token_field(fields: Seq<Seq<char>>, i: int)
    requires
        0 <= i < fields.len(),
        starts_with(fields[i], token_key()),
        forall|j: int| 0 <= j < i ==> !starts_with(fields[j], token_key()),
    ensures
        forall|k: int|
            0 <= k < fields.len() && starts_with(#[trigger] fields[k], token_key()) && (forall|j: int|
                0 <= j < k ==> !starts_with(fields[j], token_key())) ==> k == i,
{
    assert forall|k: int|
        0 <= k < fields.len() && starts_with(#[trigger] fields[k], token_key()) && (forall|j: int|
            0 <= j < k ==> !starts_with(fields[j], token_key())) implies k == i by {
        if k < i {
            assert(!starts_with(fields[k], token_key()));
        } else if k > i {
            assert(!starts_with(fields[i], token_key()));
        }
    }
}

/// The session token that a query string carries, if any.
pub fn token_from_query(query: &str) -> (r: Option<String>)
    ensures
        r is Some <==> query_token(query@) is Some,
        r matches Some(t) ==> t@ == query_token(query@)->0,
{
    let q = chars_of(query);
    let fields = split_range(&q, 0, q.len(), '&');
    assert(q@.subrange(0, q@.len() as int) =~= q@);
    let key = token_key_chars();
    let ghost fs = pieces(query@, '&');
    let mut i: usize = 0;
    while i < fields.len()
        invariant
            i <= fields.len(),
            views(fields@) == fs,
            fs == pieces(query@, '&'),
            key@ == token_key(),
            forall|j: int| 0 <= j < i ==> !starts_with(#[trigger] fs[j], token_key()),
        decreases fields.len() - i,
    {
        let f = chars_of(fields[i].as_str());
        assert(f@ == fs[i as int]);
        if has_key_at(&f, &key) {
            proof {
                lemma_first_token_field(fs, i as int);
            }
            let rest = split_range(&f, 6, f.len(), '=');
            assert(f@.subrange(6, f@.len() as int) =~= fs[i as int].skip(6));
            proof {
                crate::segments::lemma_pieces_nonempty(fs[i as int].skip(6), '=');
            }
            let t = rest[0].clone();
            assert(t@ == views(rest@)[0]);
            return Some(t);
        }
        i = i + 1;
    }
    None
}

/// The token of an authorization header value of the form `Bearer <token>`.
pub fn bearer_token(header: &str) -> (r: Option<String>)
    ensures
        r is Some <==> bearer_of(header@) is Some,
        r matches Some(t) ==> t@ == bearer_of(header@)->0,
{
    let v = chars_of(header);
    let key = bearer_key_chars();
    if has_key_at(&v, &key) {
        let t = string_of(&v, 7, v.len());
        assert(v@.subrange(7, v@.len() as int) =~= header@.skip(7));
        Some(t)
    } else {
        None
    }
}

/// Picks the session token of a request from the values of its
/// authorization header, its `x-token` header and its query string.
pub fn token_from_request(
    authorization: Option<&str>,
    x_token: Option<&str>,
    query: Option<&str>,
) -> (r: Option<String>)
    ensures
        r is Some <==> request_token(opt_chars(authorization), opt_chars(x_token), opt_chars(query)) is Some,
        r matches Some(t) ==> t@ == request_token(
            opt_chars(authorization),
            opt_chars(x_token),
            opt_chars(query),
        )->0,
{
    if let Some(h) = authorization {
        if let Some(t) = bearer_token(h) {
            return Some(t);
        }
    }
    if let Some(t) = x_token {
        return Some(t.to_owned());
    }
    match query {
        Some(q) => token_from_query(q),
        None => None,
    }
}

} // verus!
