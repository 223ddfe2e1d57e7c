use vstd::prelude::*;

verus! {

/// Bit granting read access.
pub const READ_MASK: u8 = 0b100u8;

/// Bit granting write access.
pub const WRITE_MASK: u8 = 0b010u8;

/// Bit granting the right to see an entry in a listing.
pub const VIEW_MASK: u8 = 0b001u8;

/// A mask grants `bit` when every bit of `bit` is set in it.
pub open spec fn grants(mask: u8, bit: u8) -> bool {
    mask & bit == bit
}

/// Tests whether `mask` holds every bit of `bit`.
pub fn has_bits(mask: u8, bit: u8) -> (r: bool)
    ensures
        r == grants(mask, bit),
{
    (mask & bit) == bit
}

/// The bit that one character of the symbolic form stands for: `r`, `w`
/// and `v` their bits, `-` none; any other character is not allowed.
pub open spec fn symbol_bit(c: char) -> Option<u8> {
    if c == 'r' {
        Some(READ_MASK)
    } else if c == 'w' {
        Some(WRITE_MASK)
    } else if c == 'v' {
        Some(VIEW_MASK)
    } else if c == '-' {
        Some(0u8)
    } else {
        None
    }
}

/// The bits that the characters of `s` stand for together.
pub open spec fn symbol_bits(s: Seq<char>) -> u8
    decreases s.len(),
{
    if s.len() == 0 {
        0
    } else {
        symbol_bits(s.drop_last()) | symbol_bit(s.last())->0
    }
}

/// A symbolic permission: one to three characters among `r`, `w`, `v` and
/// `-`, with no letter written twice (`rwv`, `rw`, `r-v`).
pub open spec fn valid_symbols(s: Seq<char>) -> bool {
    &&& 1 <= s.len() <= 3
    &&& forall|i: int| 0 <= i < s.len() ==> #[trigger] symbol_bit(s[i]) is Some
    &&& forall|i: int, j: int| 0 <= i < j < s.len() && s[i] == s[j] ==> s[i] == '-'
}

/// Reads a permission written in symbolic form.
pub fn permission_from_symbols(s: &str) -> (r: Option<u8>)
    ensures
        r is Some <==> valid_symbols(s@),
        r matches Some(b) ==> b == symbol_bits(s@),
{
    let mut bits: u8 = 0;
    let mut n: usize = 0;
    let mut ok = true;
    let mut seen_r = false;
    let mut seen_w = false;
    let mut seen_v = false;
    for c in it: s.chars()
        invariant
            it.seq() == s@,
            n <= 3,
            !ok ==> !valid_symbols(s@),
            ok ==> {
                &&& n == it.history().len()
                &&& s@.take(n as int) == it.history()
                &&& forall|i: int| 0 <= i < n ==> #[trigger] symbol_bit(s@[i]) is Some
                &&& forall|i: int, j: int| 0 <= i < j < n && s@[i] == s@[j] ==> s@[i] == '-'
                &&& bits == symbol_bits(s@.take(n as int))
                &&& (seen_r <==> s@.take(n as int).contains('r'))
                &&& (seen_w <==> s@.take(n as int).contains('w'))
                &&& (seen_v <==> s@.take(n as int).contains('v'))
            },
    {
        if ok {
            let ghost prev = s@.take(n as int);
            assert(s@.take(n + 1) =~= prev.push(c));
            assert(s@[n as int] == c);
            assert(s@.take(n + 1).drop_last() =~= prev);
            if n >= 3 {
                ok = false;
            } else if c == 'r' && !seen_r {
                seen_r = true;
                bits = bits | READ_MASK;
            } else if c == 'w' && !seen_w {
                seen_w = true;
                bits = bits | WRITE_MASK;
            } else if c == 'v' && !seen_v {
                seen_v = true;
                bits = bits | VIEW_MASK;
            } else if c == '-' {
                assert(bits | 0u8 == bits) by (bit_vector);
            } else {
                ok = false;
                proof {
                    if symbol_bit(c) is Some {
                        let k = choose|k: int| 0 <= k < prev.len() && #[trigger] prev[k] == c;
                        assert(s@[k] == s@[n as int]);
                    }
                }
            }
            proof {
                if ok {
                    assert forall|i: int, j: int| 0 <= i < j < n + 1 && s@[i] == s@[j] implies s@[i] == '-' by {
                        if j == n && s@[i] != '-' {
                            assert(prev[i] == c);
                            assert(prev.contains(c));
                        }
                    }
                    assert forall|x: char| x != c implies (s@.take(n + 1).contains(x) <==> prev.contains(x)) by {
                        if s@.take(n + 1).contains(x) {
                            let k = choose|k: int| 0 <= k < n + 1 && #[trigger] s@.take(n + 1)[k] == x;
                            assert(prev[k] == x);
                        }
                        if prev.contains(x) {
                            let k = choose|k: int| 0 <= k < n && #[trigger] prev[k] == x;
                            assert(s@.take(n + 1)[k] == x);
                        }
                    }
                    assert(s@.take(n + 1)[n as int] == c);
                }
            }
            if ok {
                n = n + 1;
            }
        }
    }
    assert(ok ==> s@.take(n as int) =~= s@);
    if ok && n >= 1 {
        Some(bits)
    } else {
        None
    }
}

} // verus!
