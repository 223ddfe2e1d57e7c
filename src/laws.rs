use vstd::prelude::*;

use crate::bits::grants;
use crate::builder::pattern_tree;
use crate::pattern::levels_of;
use crate::segments::segments;
use crate::merge::{merge_all, merged_view};
use crate::resolve::{admits, Unmodeled};
use crate::tree::{child_of, node_at, perm_at, Path};

verus! {

/// `m` holds every bit of `b`.
pub open spec fn covers(m: u8, b: u8) -> bool {
    m & b == b
}

proof fn lemma_or_covers(x: u8, y: u8, g: u8)
    ensures
        covers(x | y | g, x),
        covers(x | y | g, y | g),
{
    assert((x | y | g) & x == x) by (bit_vector);
    assert((x | y | g) & (y | g) == (y | g)) by (bit_vector);
}

proof fn lemma_covers_trans(a: u8, b: u8, c: u8)
    requires
        covers(a, b),
        covers(b, c),
    ensures
        covers(a, c),
{
    assert(a & b == b && b & c == c ==> a & c == c) by (bit_vector);
}

proof fn lemma_or_swap(x: u8, y1: u8, g1: u8, y2: u8, g2: u8)
    ensures
        (x | y1 | g1) | y2 | g2 == (x | y2 | g2) | y1 | g1,
{
    assert((x | y1 | g1) | y2 | g2 == (x | y2 | g2) | y1 | g1) by (bit_vector);
}

/// One merge keeps every address of the destination with all of its bits,
/// and leaves the bits of the source and the granted bits at every address
/// of the source.
pub proof fn lemma_merge_keeps_bits(
    dest: Map<Seq<Seq<char>>, u8>,
    src: Map<Seq<Seq<char>>, u8>,
    grant: u8,
    k: Seq<Seq<char>>,
)
    ensures
        dest.contains_key(k) ==> merged_view(dest, src, grant).contains_key(k) && covers(
            merged_view(dest, src, grant)[k],
            dest[k],
        ),
        src.contains_key(k) ==> merged_view(dest, src, grant).contains_key(k) && covers(
            merged_view(dest, src, grant)[k],
            src[k] | grant,
        ),
{
    reveal(merged_view);
    let x = if dest.contains_key(k) { dest[k] } else { 0u8 };
    if src.contains_key(k) {
        lemma_or_covers(x, src[k], grant);
    } else if dest.contains_key(k) {
        assert(dest[k] & dest[k] == dest[k]) by (bit_vector);
    }
}

/// Merging never revokes: after any sequence of grants, every address of the
/// starting tree keeps its bits, and every address of each grant's source
/// holds that source's bits and that grant's bits.
pub proof fn lemma_merge_all_monotone(
    dest: Map<Seq<Seq<char>>, u8>,
    grants: Seq<(Map<Seq<Seq<char>>, u8>, u8)>,
    k: Seq<Seq<char>>,
)
    ensures
        dest.contains_key(k) ==> merge_all(dest, grants).contains_key(k) && covers(
            merge_all(dest, grants)[k],
            dest[k],
        ),
        forall|i: int|
            0 <= i < grants.len() && #[trigger] grants[i].0.contains_key(k) ==> merge_all(
                dest,
                grants,
            ).contains_key(k) && covers(merge_all(dest, grants)[k], grants[i].0[k] | grants[i].1),
    decreases grants.len(),
{
    if grants.len() == 0 {
        if dest.contains_key(k) {
            let x = dest[k];
            assert(x & x == x) by (bit_vector);
        }
    } else {
        let prev = grants.drop_last();
        let before = merge_all(dest, prev);
        let (src, g) = grants.last();
        assert(merge_all(dest, grants) == merged_view(before, src, g));
        lemma_merge_all_monotone(dest, prev, k);
        lemma_merge_keeps_bits(before, src, g, k);
        if dest.contains_key(k) {
            lemma_covers_trans(merge_all(dest, grants)[k], before[k], dest[k]);
        }
        assert forall|i: int|
            0 <= i < grants.len() && #[trigger] grants[i].0.contains_key(k) implies merge_all(
                dest,
                grants,
            ).contains_key(k) && covers(merge_all(dest, grants)[k], grants[i].0[k] | grants[i].1) by {
            if i < grants.len() - 1 {
                assert(prev[i] == grants[i]);
                lemma_covers_trans(
                    merge_all(dest, grants)[k],
                    before[k],
                    grants[i].0[k] | grants[i].1,
                );
            }
        }
    }
}

/// Merging the same grant a second time changes nothing.
pub proof fn lemma_merge_idempotent(
    dest: Map<Seq<Seq<char>>, u8>,
    src: Map<Seq<Seq<char>>, u8>,
    grant: u8,
)
    ensures
        merged_view(merged_view(dest, src, grant), src, grant) == merged_view(dest, src, grant),
{
    reveal(merged_view);
    let once = merged_view(dest, src, grant);
    let twice = merged_view(once, src, grant);
    assert forall|k: Seq<Seq<char>>| #[trigger] twice.contains_key(k) implies twice[k] == once[k] by {
        if src.contains_key(k) {
            let x = if dest.contains_key(k) { dest[k] } else { 0u8 };
            let y = src[k];
            assert((x | y | grant) | y | grant == x | y | grant) by (bit_vector);
        }
    }
    assert(twice =~= once);
}

/// Two grants merged in either order give the same tree.
pub proof fn lemma_merge_commutes(
    dest: Map<Seq<Seq<char>>, u8>,
    s1: Map<Seq<Seq<char>>, u8>,
    g1: u8,
    s2: Map<Seq<Seq<char>>, u8>,
    g2: u8,
)
    ensures
        merged_view(merged_view(dest, s1, g1), s2, g2) == merged_view(
            merged_view(dest, s2, g2),
            s1,
            g1,
        ),
        merge_all(dest, seq![(s1, g1), (s2, g2)]) == merge_all(dest, seq![(s2, g2), (s1, g1)]),
{
    reveal(merged_view);
    let l1 = seq![(s1, g1), (s2, g2)];
    let l2 = seq![(s2, g2), (s1, g1)];
    assert(l1.drop_last().drop_last() =~= Seq::<(Map<Seq<Seq<char>>, u8>, u8)>::empty());
    assert(l2.drop_last().drop_last() =~= Seq::<(Map<Seq<Seq<char>>, u8>, u8)>::empty());
    assert(merge_all(dest, l1.drop_last().drop_last()) == dest);
    assert(merge_all(dest, l2.drop_last().drop_last()) == dest);
    assert(l1.drop_last().last() == (s1, g1));
    assert(l2.drop_last().last() == (s2, g2));
    assert(merge_all(dest, l1.drop_last()) == merged_view(dest, s1, g1));
    assert(merge_all(dest, l2.drop_last()) == merged_view(dest, s2, g2));
    let a = merged_view(merged_view(dest, s1, g1), s2, g2);
    let b = merged_view(merged_view(dest, s2, g2), s1, g1);
    assert forall|k: Seq<Seq<char>>| #[trigger] a.contains_key(k) implies a[k] == b[k] by {
        let x = if dest.contains_key(k) { dest[k] } else { 0u8 };
        if s1.contains_key(k) && s2.contains_key(k) {
            lemma_or_swap(x, s1[k], g1, s2[k], g2);
        }
    }
    assert(a =~= b);
}

/// Building depends on nothing but the pattern and the permission: two
/// nodes that held the same pattern and permission and were both expanded
/// hold the same tree, with the same names and bits at the same depths.
pub proof fn lemma_build_deterministic(raw: Seq<char>, perm: u8, t1: Path, t2: Path)
    requires
        t1@ == pattern_tree(levels_of(segments(raw)), perm),
        t2@ == pattern_tree(levels_of(segments(raw)), perm),
    ensures
        t1@ == t2@,
        forall|k: Seq<Seq<char>>| #[trigger] perm_at(t1, k) == perm_at(t2, k),
{
    assert forall|k: Seq<Seq<char>>| #[trigger] perm_at(t1, k) == perm_at(t2, k) by {
        assert(t1@.contains_key(k) == t2@.contains_key(k));
        if t1@.contains_key(k) {
            assert(t1@[k] == t2@[k]);
        }
    }
}

/// Every prefix of a reachable address is reachable.
pub proof fn lemma_prefix_reachable(t: Path, k: Seq<Seq<char>>, i: int)
    requires
        node_at(t, k) is Some,
        0 <= i <= k.len(),
    ensures
        node_at(t, k.take(i)) is Some,
    decreases k.len(),
{
    if i == 0 {
        assert(k.take(0) =~= Seq::<Seq<char>>::empty());
    } else {
        let c = child_of(t.sub_path@, k[0])->0;
        lemma_prefix_reachable(c, k.drop_first(), i - 1);
        assert(k.take(i).drop_first() =~= k.drop_first().take(i - 1));
    }
}

/// A request is refused at a node of the tree as soon as one node on the way
/// to it, itself included, lacks the bit, whatever the descendant holds.
pub proof fn lemma_ancestor_gating(t: Path, parts: Seq<Seq<char>>, i: int, bit: u8, policy: Unmodeled)
    requires
        t@.contains_key(parts),
        0 <= i <= parts.len(),
        !grants(t@[parts.take(i)], bit),
    ensures
        !admits(t, parts, bit, policy),
    decreases parts.len(),
{
    lemma_prefix_reachable(t, parts, i);
    if i == 0 {
        assert(parts.take(0) =~= Seq::<Seq<char>>::empty());
    } else if grants(t.permission, bit) {
        let c = child_of(t.sub_path@, parts[0])->0;
        let rest = parts.drop_first();
        assert(parts.take(i).drop_first() =~= rest.take(i - 1));
        assert(perm_at(t, parts.take(i)) == perm_at(c, rest.take(i - 1)));
        lemma_prefix_reachable(c, rest, i - 1);
        lemma_ancestor_gating(c, rest, i - 1, bit, policy);
    }
}

/// Below the deepest node that a path reaches, the outcome is the policy's
/// alone: two paths that agree down to a reached node and both go on with an
/// unlisted name get the same answer, which is that node's answer under
/// `Inherit` and a refusal under `Deny`.
pub proof fn lemma_unmodeled_policy(
    t: Path,
    first: Seq<Seq<char>>,
    second: Seq<Seq<char>>,
    d: int,
    bit: u8,
    policy: Unmodeled,
)
    requires
        0 <= d < first.len(),
        d < second.len(),
        first.take(d) == second.take(d),
        t@.contains_key(first.take(d)),
        !t@.contains_key(first.take(d + 1)),
        !t@.contains_key(second.take(d + 1)),
    ensures
        admits(t, first, bit, policy) == admits(t, second, bit, policy),
        admits(t, first, bit, policy) == (policy == Unmodeled::Inherit && admits(
            t,
            first.take(d),
            bit,
            policy,
        )),
    decreases d,
{
    if d == 0 {
        assert(first.take(0) =~= Seq::<Seq<char>>::empty());
        assert(first.take(1) =~= seq![first[0]]);
        assert(second.take(1) =~= seq![second[0]]);
        assert(seq![first[0]].drop_first() =~= Seq::<Seq<char>>::empty());
        assert(seq![second[0]].drop_first() =~= Seq::<Seq<char>>::empty());
        if child_of(t.sub_path@, first[0]) is Some {
            let c = child_of(t.sub_path@, first[0])->0;
            assert(node_at(c, Seq::empty()) == Some(c));
            assert(node_at(t, seq![first[0]]) == Some(c));
        }
        if child_of(t.sub_path@, second[0]) is Some {
            let c = child_of(t.sub_path@, second[0])->0;
            assert(node_at(c, Seq::empty()) == Some(c));
            assert(node_at(t, seq![second[0]]) == Some(c));
        }
        assert(admits(t, first.take(d), bit, policy) == grants(t.permission, bit));
    } else {
        assert(first[0] == first.take(d)[0]);
        assert(second[0] == second.take(d)[0]);
        let first_rest = first.drop_first();
        let second_rest = second.drop_first();
        assert(first.take(d).drop_first() =~= first_rest.take(d - 1));
        assert(second.take(d).drop_first() =~= second_rest.take(d - 1));
        assert(first.take(d + 1).drop_first() =~= first_rest.take(d));
        assert(second.take(d + 1).drop_first() =~= second_rest.take(d));
        assert(first.take(d + 1)[0] == first[0]);
        assert(second.take(d + 1)[0] == second[0]);
        assert(node_at(t, first.take(d)) is Some);
        let c = child_of(t.sub_path@, first[0])->0;
        assert(child_of(t.sub_path@, first[0]) is Some);
        assert(node_at(t, first.take(d)) == node_at(c, first_rest.take(d - 1)));
        assert(node_at(t, first.take(d + 1)) == node_at(c, first_rest.take(d)));
        assert(node_at(t, second.take(d + 1)) == node_at(c, second_rest.take(d)));
        assert(first_rest.take(d - 1) =~= second_rest.take(d - 1));
        lemma_unmodeled_policy(c, first_rest, second_rest, d - 1, bit, policy);
        assert(admits(t, first, bit, policy) == (grants(t.permission, bit) && admits(c, first_rest, bit, policy)));
        assert(admits(t, second, bit, policy) == (grants(t.permission, bit) && admits(c, second_rest, bit, policy)));
        assert(admits(t, first.take(d), bit, policy) == (grants(t.permission, bit) && admits(
            c,
            first_rest.take(d - 1),
            bit,
            policy,
        )));
    }
}

} // verus!
