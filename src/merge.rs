use vstd::prelude::*;

use crate::tree::{
    child_index, child_of, find_child, lemma_child_of_names, lemma_child_of_other,
    lemma_child_of_unique, lemma_wf_child, lemma_wf_intro, named_before, names_unique, node_at,
    perm_at, wf, Path,
};

verus! {

/// The permission at one address after a merge, from the permission of the
/// destination there (`d`) and of the source there (`s`): where the source
/// has a node, its bits and the granted bits are added to whatever the
/// destination held; elsewhere the destination is kept as it is.
pub open spec fn merge_perm(d: Option<u8>, s: Option<u8>, grant: u8) -> Option<u8> {
    match s {
        Some(y) => Some(
            (match d {
                Some(x) => x,
                None => 0u8,
            }) | y | grant,
        ),
        None => d,
    }
}

/// The tree that merging a source seen as `src` into a destination seen as
/// `dest` with the granted bits `grant` yields: every address of either
/// tree, with the permission `merge_perm` gives.
#[verifier::opaque]
pub open spec fn merged_view(
    dest: Map<Seq<Seq<char>>, u8>,
    src: Map<Seq<Seq<char>>, u8>,
    grant: u8,
) -> Map<Seq<Seq<char>>, u8> {
    Map::new(
        |k: Seq<Seq<char>>| dest.contains_key(k) || src.contains_key(k),
        |k: Seq<Seq<char>>| merge_perm(dest.get(k), src.get(k), grant)->0,
    )
}

/// Applies the grants `grants` (a source tree and the granted bits each) to
/// `dest`, first to last.
pub open spec fn merge_all(
    dest: Map<Seq<Seq<char>>, u8>,
    grants: Seq<(Map<Seq<Seq<char>>, u8>, u8)>,
) -> Map<Seq<Seq<char>>, u8>
    decreases grants.len(),
{
    if grants.len() == 0 {
        dest
    } else {
        merged_view(merge_all(dest, grants.drop_last()), grants.last().0, grants.last().1)
    }
}

/// The permission below an optional child.
pub open spec fn perm_below(c: Option<Path>, k: Seq<Seq<char>>) -> Option<u8> {
    match c {
        Some(n) => perm_at(n, k),
        None => None,
    }
}

/// The node below an optional child.
pub open spec fn node_below(c: Option<Path>, k: Seq<Seq<char>>) -> Option<Path> {
    match c {
        Some(n) => node_at(n, k),
        None => None,
    }
}

/// At the address `k`, `r` is what merging `s` into `d` (which may be
/// absent) leaves: where `s` has no node, exactly the node that `d` has
/// (none if it has none); where `s` has one, a node with the path of the
/// node of `d`, or of `s` where `d` has none.
pub open spec fn merged_node(r: Path, d: Option<Path>, s: Path, k: Seq<Seq<char>>) -> bool {
    match node_at(s, k) {
        None => node_at(r, k) == node_below(d, k),
        Some(sn) => node_at(r, k) is Some && node_at(r, k)->0.path == match node_below(d, k) {
            Some(dn) => dn.path,
            None => sn.path,
        },
    }
}

/// `dest` with `from` merged into it under the granted bits `grant`.
fn merged(dest: Path, from: &Path, grant: u8) -> (r: Path)
    requires
        wf(dest),
        wf(*from),
    ensures
        wf(r),
        r.name == dest.name,
        r.path == dest.path,
        forall|k: Seq<Seq<char>>|
            #[trigger] perm_at(r, k) == merge_perm(perm_at(dest, k), perm_at(*from, k), grant),
        forall|k: Seq<Seq<char>>| #[trigger] merged_node(r, Some(dest), *from, k),
    decreases from,
{
    let Path { path, name, permission, sub_path } = dest;
    let ghost dk = sub_path@;
    let ghost fk = from.sub_path@;
    proof {
        assert(node_at(dest, Seq::empty()) == Some(dest));
        assert(names_unique(dk));
        assert forall|i: int| 0 <= i < dk.len() implies #[trigger] wf(dk[i]) by {
            lemma_wf_child(dest, i);
        }
        if fk.len() > 0 {
            lemma_wf_child(*from, 0);
        }
    }
    let mut kids = sub_path;
    let mut j: usize = 0;
    while j < from.sub_path.len()
        invariant
            j <= from.sub_path.len(),
            fk == from.sub_path@,
            wf(*from),
            names_unique(fk),
            names_unique(dk),
            names_unique(kids@),
            forall|i: int| 0 <= i < kids@.len() ==> #[trigger] wf(kids@[i]),
            forall|nm: Seq<char>|
                !named_before(fk, j as int, nm) ==> #[trigger] child_of(kids@, nm) == child_of(dk, nm),
            forall|nm: Seq<char>|
                named_before(fk, j as int, nm) ==> (#[trigger] child_of(kids@, nm)) is Some,
            forall|nm: Seq<char>, k: Seq<Seq<char>>|
                named_before(fk, j as int, nm) ==> #[trigger] perm_below(child_of(kids@, nm), k)
                    == merge_perm(perm_below(child_of(dk, nm), k), perm_below(child_of(fk, nm), k), grant),
            forall|nm: Seq<char>, k: Seq<Seq<char>>|
                named_before(fk, j as int, nm) ==> #[trigger] merged_node(
                    child_of(kids@, nm)->0,
                    child_of(dk, nm),
                    child_of(fk, nm)->0,
                    k,
                ),
        decreases from.sub_path.len() - j,
    {
        let fc = &from.sub_path[j];
        let ghost nm = fc.name@;
        let ghost prev = kids@;
        proof {
            lemma_wf_child(*from, j as int);
            assert(!named_before(fk, j as int, nm));
        }
        match find_child(&kids, &fc.name) {
            Some(i) => {
                let old_child = kids.remove(i);
                let m = merged(old_child, fc, grant);
                kids.insert(i, m);
                proof {
                    assert(kids@ =~= prev.update(i as int, m));
                    assert(prev[i as int].name@ == nm);
                    assert(names_unique(kids@));
                    lemma_child_of_unique(prev, i as int);
                    lemma_child_of_unique(kids@, i as int);
                }
            },
            None => {
                let fresh = Path {
                    path: fc.path.clone(),
                    name: fc.name.clone(),
                    permission: 0,
                    sub_path: Vec::new(),
                };
                proof {
                    assert forall|k: Seq<Seq<char>>| #[trigger] node_at(fresh, k) is Some implies names_unique(node_at(fresh, k)->0.sub_path@) by {
                        if k.len() > 0 {
                            assert(child_of(fresh.sub_path@, k[0]) is None);
                        }
                    }
                }
                let m = merged(fresh, fc, grant);
                kids.push(m);
                proof {
                    lemma_child_of_names(prev, nm);
                    assert(names_unique(kids@));
                    lemma_child_of_unique(kids@, prev.len() as int);
                    assert forall|k: Seq<Seq<char>>| #[trigger] perm_at(fresh, k) == (if k.len() == 0 { Some(0u8) } else { None }) by {
                        if k.len() > 0 {
                            assert(child_of(fresh.sub_path@, k[0]) is None);
                        }
                    }
                    assert forall|k: Seq<Seq<char>>| #[trigger] merged_node(m, None, *fc, k) by {
                        assert(merged_node(m, Some(fresh), *fc, k));
                        if k.len() > 0 {
                            assert(child_of(fresh.sub_path@, k[0]) is None);
                            assert(node_at(fresh, k) is None);
                        } else {
                            assert(node_at(fresh, k) == Some(fresh));
                            assert(node_at(*fc, k) == Some(*fc));
                        }
                    }
                }
            },
        }
        proof {
            lemma_child_of_unique(fk, j as int);
            assert forall|nm2: Seq<char>| nm2 != nm implies #[trigger] child_of(kids@, nm2) == child_of(prev, nm2) by {
                lemma_child_of_other(prev, kids@, nm2);
            }
            assert forall|nm2: Seq<char>| named_before(fk, j + 1, nm2) <==> (named_before(fk, j as int, nm2) || nm2 == nm) by {
                if named_before(fk, j + 1, nm2) && nm2 != nm {
                    let t = choose|t: int| 0 <= t < j + 1 && #[trigger] fk[t].name@ == nm2;
                    assert(t < j);
                }
                if nm2 == nm {
                    assert(fk[j as int].name@ == nm2);
                }
            }
        }
        j = j + 1;
    }
    let r = Path { path, name, permission: permission | from.permission | grant, sub_path: kids };
    proof {
        lemma_wf_intro(r);
        assert forall|k: Seq<Seq<char>>|
            #[trigger] perm_at(r, k) == merge_perm(perm_at(dest, k), perm_at(*from, k), grant) by {
            if k.len() > 0 {
                let nm = k[0];
                let rest = k.drop_first();
                lemma_child_of_names(fk, nm);
                assert(perm_at(r, k) == perm_below(child_of(kids@, nm), rest));
                assert(perm_at(dest, k) == perm_below(child_of(dk, nm), rest));
                assert(perm_at(*from, k) == perm_below(child_of(fk, nm), rest));
            }
        }
        assert forall|k: Seq<Seq<char>>| #[trigger] merged_node(r, Some(dest), *from, k) by {
            if k.len() > 0 {
                let nm = k[0];
                let rest = k.drop_first();
                lemma_child_of_names(fk, nm);
                assert(node_at(r, k) == node_below(child_of(kids@, nm), rest));
                assert(node_at(dest, k) == node_below(child_of(dk, nm), rest));
                assert(node_at(*from, k) == node_below(child_of(fk, nm), rest));
                if child_of(fk, nm) is Some {
                    assert(merged_node(child_of(kids@, nm)->0, child_of(dk, nm), child_of(fk, nm)->0, rest));
                }
            } else {
                assert(node_at(r, k) == Some(r));
                assert(node_at(dest, k) == Some(dest));
                assert(node_at(*from, k) == Some(*from));
            }
        }
    }
    r
}

impl Path {
    /// Merges the tree `from` into this one under the granted bits
    /// `permission`: each node of `from` gets a counterpart here (made with no
    /// bits where it is missing), and the counterpart gains the bits of the
    /// node in `from` and `permission`. Nothing is taken away: where `from`
    /// has no node, the node here is kept whole, and every node keeps its
    /// path, a new one taking the path of its node in `from`.
    pub fn merge_path(&mut self, from: &Path, permission: u8)
        requires
            wf(*old(self)),
            wf(*from),
        ensures
            wf(*final(self)),
            final(self).name == old(self).name,
            final(self).path == old(self).path,
            final(self)@ == merged_view(old(self)@, from@, permission),
            forall|k: Seq<Seq<char>>|
                node_at(*from, k) is None ==> #[trigger] node_at(*final(self), k) == node_at(
                    *old(self),
                    k,
                ),
            forall|k: Seq<Seq<char>>|
                node_at(*from, k) is Some ==> (#[trigger] node_at(*final(self), k)) is Some
                    && node_at(*final(self), k)->0.path == if node_at(*old(self), k) is Some {
                    node_at(*old(self), k)->0.path
                } else {
                    node_at(*from, k)->0.path
                },
    {
        let mut dest = Path { path: String::new(), name: String::new(), permission: 0, sub_path: Vec::new() };
        core::mem::swap(self, &mut dest);
        let ghost before = dest;
        *self = merged(dest, from, permission);
        reveal(merged_view);
        assert(self@ =~= merged_view(before@, from@, permission));
        assert forall|k: Seq<Seq<char>>| node_at(*from, k) is None implies #[trigger] node_at(*self, k)
            == node_at(before, k) by {
            assert(merged_node(*self, Some(before), *from, k));
        }
        assert forall|k: Seq<Seq<char>>| node_at(*from, k) is Some implies (#[trigger] node_at(*self, k)) is Some
            && node_at(*self, k)->0.path == if node_at(before, k) is Some {
            node_at(before, k)->0.path
        } else {
            node_at(*from, k)->0.path
        } by {
            assert(merged_node(*self, Some(before), *from, k));
        }
    }
}

} // verus!
