use vstd::prelude::*;

use crate::pattern::chars_of;
use crate::tree::{
    child_of, lemma_child_of_names, lemma_child_of_unique, named_before, names_unique, Path,
};

verus! {

/// `a` comes before `b` in lexicographic order of code points, the order in
/// which strings compare.
pub open spec fn name_lt(a: Seq<char>, b: Seq<char>) -> bool
    decreases a.len(),
{
    if b.len() == 0 {
        false
    } else if a.len() == 0 {
        true
    } else if a[0] != b[0] {
        (a[0] as u32) < (b[0] as u32)
    } else {
        name_lt(a.drop_first(), b.drop_first())
    }
}

/// The names of `s` strictly increase.
pub open spec fn sorted_by_name(s: Seq<Path>) -> bool {
    forall|i: int, j: int| 0 <= i < j < s.len() ==> name_lt(#[trigger] s[i].name@, #[trigger] s[j].name@)
}

pub proof fn lemma_name_lt_irreflexive(a: Seq<char>)
    ensures
        !name_lt(a, a),
    decreases a.len(),
{
    if a.len() > 0 {
        lemma_name_lt_irreflexive(a.drop_first());
    }
}

pub proof fn lemma_name_lt_total(a: Seq<char>, b: Seq<char>)
    requires
        a != b,
    ensures
        name_lt(a, b) || name_lt(b, a),
        !(name_lt(a, b) && name_lt(b, a)),
    decreases a.len(),
{
    if a.len() > 0 && b.len() > 0 && a[0] == b[0] {
        assert(a.drop_first() != b.drop_first()) by {
            if a.drop_first() == b.drop_first() {
                assert(a =~= seq![a[0]] + a.drop_first());
                assert(b =~= seq![b[0]] + b.drop_first());
            }
        }
        lemma_name_lt_total(a.drop_first(), b.drop_first());
    } else if a.len() == 0 && b.len() == 0 {
        assert(a =~= b);
    } else if a.len() > 0 && b.len() > 0 {
        vstd::utf8::char_u32_cast(a[0], a[0] as u32);
        vstd::utf8::char_u32_cast(b[0], b[0] as u32);
    }
}

pub proof fn lemma_name_lt_trans(a: Seq<char>, b: Seq<char>, c: Seq<char>)
    requires
        name_lt(a, b),
        name_lt(b, c),
    ensures
        name_lt(a, c),
    decreases a.len(),
{
    if a.len() > 0 && a[0] == b[0] && b[0] == c[0] {
        lemma_name_lt_trans(a.drop_first(), b.drop_first(), c.drop_first());
    }
}

/// A sorted list has distinct names.
pub proof fn lemma_sorted_unique(s: Seq<Path>)
    requires
        sorted_by_name(s),
    ensures
        names_unique(s),
{
    assert forall|i: int, j: int| 0 <= i < s.len() && 0 <= j < s.len() && i != j implies s[i].name@ != s[j].name@ by {
        if i < j {
            lemma_name_lt_irreflexive(s[i].name@);
            assert(name_lt(s[i].name@, s[j].name@));
        } else {
            lemma_name_lt_irreflexive(s[j].name@);
            assert(name_lt(s[j].name@, s[i].name@));
        }
    }
}

/// Whether `a` comes before `b`.
pub fn name_less(a: &String, b: &String) -> (r: bool)
    ensures
        r == name_lt(a@, b@),
{
    let x = chars_of(a.as_str());
    let y = chars_of(b.as_str());
    let mut i: usize = 0;
    assert(x@.skip(0) =~= x@);
    assert(y@.skip(0) =~= y@);
    while i < x.len() && i < y.len()
        invariant
            i <= x.len(),
            i <= y.len(),
            x@ == a@,
            y@ == b@,
            name_lt(a@, b@) == name_lt(x@.skip(i as int), y@.skip(i as int)),
        decreases x.len() - i,
    {
        let ghost xs = x@.skip(i as int);
        let ghost ys = y@.skip(i as int);
        assert(xs[0] == x@[i as int] && ys[0] == y@[i as int]);
        if x[i] != y[i] {
            return (x[i] as u32) < (y[i] as u32);
        }
        assert(xs.drop_first() =~= x@.skip(i + 1));
        assert(ys.drop_first() =~= y@.skip(i + 1));
        i = i + 1;
    }
    if i == y.len() {
        assert(y@.skip(i as int).len() == 0);
        false
    } else {
        assert(x@.skip(i as int).len() == 0);
        true
    }
}

/// Puts `node` into the sorted list `v` at the place of its name, replacing
/// an entry of the same name.
pub fn insert_by_name(v: &mut Vec<Path>, node: Path)
    requires
        sorted_by_name(old(v)@),
    ensures
        sorted_by_name(final(v)@),
        forall|nm: Seq<char>|
            #[trigger] child_of(final(v)@, nm) == if nm == node.name@ {
                Some(node)
            } else {
                child_of(old(v)@, nm)
            },
{
    let ghost old_v = v@;
    proof {
        lemma_sorted_unique(old_v);
    }
    let mut pos: usize = 0;
    let mut found = false;
    while !found && pos < v.len()
        invariant
            v@ == old_v,
            pos <= v.len(),
            forall|a: int| 0 <= a < pos ==> name_lt(#[trigger] v@[a].name@, node.name@),
            found ==> pos < v.len() && !name_lt(v@[pos as int].name@, node.name@),
        decreases v.len() - pos + (if found { 0int } else { 1int }),
    {
        if name_less(&v[pos].name, &node.name) {
            pos = pos + 1;
        } else {
            found = true;
        }
    }
    if pos < v.len() && v[pos].name == node.name {
        v.remove(pos);
        v.insert(pos, node);
        proof {
            assert(v@ =~= old_v.update(pos as int, node));
            assert forall|i: int, j: int| 0 <= i < j < v@.len() implies name_lt(
                #[trigger] v@[i].name@,
                #[trigger] v@[j].name@,
            ) by {
                assert(name_lt(old_v[i].name@, old_v[j].name@));
            }
            lemma_sorted_unique(v@);
            lemma_child_of_unique(v@, pos as int);
            assert forall|nm: Seq<char>| nm != node.name@ implies #[trigger] child_of(v@, nm) == child_of(old_v, nm) by {
                crate::tree::lemma_child_of_other(old_v, v@, nm);
            }
        }
    } else {
        let ghost x = node.name@;
        proof {
            if pos < old_v.len() {
                lemma_name_lt_total(old_v[pos as int].name@, x);
                assert(name_lt(x, old_v[pos as int].name@));
            }
            assert forall|a: int| 0 <= a < old_v.len() implies old_v[a].name@ != x by {
                if a < pos {
                    lemma_name_lt_irreflexive(x);
                } else if a > pos {
                    lemma_name_lt_trans(x, old_v[pos as int].name@, old_v[a].name@);
                    lemma_name_lt_irreflexive(x);
                }
            }
        }
        v.insert(pos, node);
        proof {
            assert(v@ =~= old_v.insert(pos as int, node));
            assert forall|i: int, j: int| 0 <= i < j < v@.len() implies name_lt(
                #[trigger] v@[i].name@,
                #[trigger] v@[j].name@,
            ) by {
                if j < pos {
                    assert(name_lt(old_v[i].name@, old_v[j].name@));
                } else if j == pos {
                    assert(name_lt(old_v[i].name@, x));
                } else if i < pos {
                    assert(name_lt(old_v[i].name@, x));
                    if j - 1 > pos {
                        assert(name_lt(old_v[pos as int].name@, old_v[j - 1].name@));
                        lemma_name_lt_trans(x, old_v[pos as int].name@, old_v[j - 1].name@);
                    }
                    lemma_name_lt_trans(old_v[i].name@, x, old_v[j - 1].name@);
                } else if i == pos {
                    if j - 1 > pos {
                        assert(name_lt(old_v[pos as int].name@, old_v[j - 1].name@));
                        lemma_name_lt_trans(x, old_v[pos as int].name@, old_v[j - 1].name@);
                    }
                } else {
                    assert(name_lt(old_v[i - 1].name@, old_v[j - 1].name@));
                }
            }
            lemma_sorted_unique(v@);
            lemma_child_of_unique(v@, pos as int);
            assert forall|nm: Seq<char>| nm != x implies #[trigger] child_of(v@, nm) == child_of(old_v, nm) by {
                lemma_child_of_names(old_v, nm);
                lemma_child_of_names(v@, nm);
                if named_before(old_v, old_v.len() as int, nm) {
                    let t = choose|t: int| 0 <= t < old_v.len() && #[trigger] old_v[t].name@ == nm;
                    lemma_child_of_unique(old_v, t);
                    let t2 = if t < pos { t } else { t + 1 };
                    assert(v@[t2] == old_v[t]);
                    lemma_child_of_unique(v@, t2);
                } else if named_before(v@, v@.len() as int, nm) {
                    let t = choose|t: int| 0 <= t < v@.len() && #[trigger] v@[t].name@ == nm;
                    if t < pos {
                        assert(old_v[t].name@ == nm);
                    } else if t > pos {
                        assert(old_v[t - 1].name@ == nm);
                    }
                }
            }
        }
    }
}

} // verus!
