use vstd::prelude::*;

use crate::error::ConfigError;
use crate::pattern::{all_well_formed, level_views, levels_of, parse_pattern, reports_first_malformed};
use crate::segments::{push_char, push_str, segments, views};
use crate::tree::{
    child_index, child_of, find_child, lemma_child_index_valid, lemma_child_of_unique, lemma_wf_intro, names_unique, node_at, perm_at, wf,
    Path,
};

verus! {

/// The permission found at `k` in the tree that a pattern with the names
/// `levels` at each depth describes: every combination of one name per depth
/// is a node; the nodes at the last depth carry `perm`, the ones above carry
/// nothing.
pub open spec fn pattern_perm(levels: Seq<Seq<Seq<char>>>, perm: u8, k: Seq<Seq<char>>) -> Option<u8> {
    if k.len() <= levels.len() && forall|i: int| 0 <= i < k.len() ==> #[trigger] levels[i].contains(k[i]) {
        Some(if k.len() == levels.len() { perm } else { 0u8 })
    } else {
        None
    }
}

/// The tree that a pattern with the names `levels` at each depth describes,
/// seen as a map from name sequences to permission bits.
pub open spec fn pattern_tree(levels: Seq<Seq<Seq<char>>>, perm: u8) -> Map<Seq<Seq<char>>, u8> {
    Map::new(
        |k: Seq<Seq<char>>| pattern_perm(levels, perm, k) is Some,
        |k: Seq<Seq<char>>| pattern_perm(levels, perm, k)->0,
    )
}

/// Peeling the first depth off a pattern tree.
pub proof fn lemma_pattern_step(levels: Seq<Seq<Seq<char>>>, perm: u8, k: Seq<Seq<char>>)
    requires
        levels.len() > 0,
        k.len() > 0,
    ensures
        pattern_perm(levels, perm, k) == if levels[0].contains(k[0]) {
            pattern_perm(levels.drop_first(), perm, k.drop_first())
        } else {
            None
        },
{
    let l2 = levels.drop_first();
    let k2 = k.drop_first();
    if levels[0].contains(k[0]) && k2.len() <= l2.len() && forall|i: int| 0 <= i < k2.len() ==> #[trigger] l2[i].contains(k2[i]) {
        assert forall|i: int| 0 <= i < k.len() implies #[trigger] levels[i].contains(k[i]) by {
            if i > 0 {
                assert(l2[i - 1].contains(k2[i - 1]));
            }
        }
    }
    if k.len() <= levels.len() && forall|i: int| 0 <= i < k.len() ==> #[trigger] levels[i].contains(k[i]) {
        assert(levels[0].contains(k[0]));
        assert forall|i: int| 0 <= i < k2.len() implies #[trigger] l2[i].contains(k2[i]) by {
            assert(levels[i + 1].contains(k[i + 1]));
        }
    }
}

/// Each child of `n` has the path of `n`, a `/`, and its own name.
pub open spec fn children_joined(n: Path) -> bool {
    forall|i: int|
        0 <= i < n.sub_path@.len() ==> #[trigger] n.sub_path@[i].path@ == n.path@ + seq!['/']
            + n.sub_path@[i].name@
}

/// Every node of the tree gives its children paths joined onto its own.
pub open spec fn paths_joined(p: Path) -> bool {
    forall|k: Seq<Seq<char>>| #[trigger] node_at(p, k) is Some ==> children_joined(node_at(p, k)->0)
}

proof fn lemma_joined_intro(p: Path)
    requires
        children_joined(p),
        forall|i: int| 0 <= i < p.sub_path@.len() ==> #[trigger] paths_joined(p.sub_path@[i]),
    ensures
        paths_joined(p),
{
    assert forall|k: Seq<Seq<char>>| #[trigger] node_at(p, k) is Some implies children_joined(node_at(p, k)->0) by {
        if k.len() > 0 {
            lemma_child_index_valid(p.sub_path@, k[0]);
            let i = child_index(p.sub_path@, k[0])->0;
            assert(paths_joined(p.sub_path@[i]));
            assert(node_at(p.sub_path@[i], k.drop_first()) is Some);
        }
    }
}

impl Path {
    /// Expands the pattern in `path` into the subtree below this node: one
    /// level per segment, one child per name that a segment stands for, and
    /// this node's permission moved to the nodes of the last level (to this
    /// node itself when the pattern has no segment). On a malformed segment
    /// the node is left as it was and the first such segment is reported.
    pub fn extract_sub_paths(&mut self) -> (r: Result<(), ConfigError>)
        ensures
            final(self).name == old(self).name,
            final(self).path == old(self).path,
            r is Ok <==> all_well_formed(
                segments(old(self).path@),
                segments(old(self).path@).len() as int,
            ),
            r is Ok ==> wf(*final(self)) && paths_joined(*final(self)) && final(self)@ == pattern_tree(
                levels_of(segments(old(self).path@)),
                old(self).permission,
            ),
            r matches Err(e) ==> *final(self) == *old(self) && reports_first_malformed(
                segments(old(self).path@),
                e,
            ),
    {
        let levels = match parse_pattern(self.path.as_str()) {
            Ok(levels) => levels,
            Err(e) => {
                return Err(e);
            },
        };
        let permission = self.permission;
        let ghost lv = level_views(levels@);
        self.insert_paths(&levels, 0, permission);
        assert(lv.skip(0) =~= lv);
        assert(self@ =~= pattern_tree(lv, permission));
        Ok(())
    }

    /// Rebuilds the children of this node as the pattern tree of the levels
    /// from `index` on, with `final_permission` at the last depth.
    fn insert_paths(&mut self, levels: &Vec<Vec<String>>, index: usize, final_permission: u8)
        requires
            index <= levels.len(),
        ensures
            final(self).name == old(self).name,
            final(self).path == old(self).path,
            wf(*final(self)),
            paths_joined(*final(self)),
            forall|k: Seq<Seq<char>>|
                #[trigger] perm_at(*final(self), k) == pattern_perm(
                    level_views(levels@).skip(index as int),
                    final_permission,
                    k,
                ),
        decreases levels.len() - index,
    {
        let ghost lv = level_views(levels@);
        if index == levels.len() {
            self.permission = final_permission;
            self.sub_path = Vec::new();
            assert forall|k: Seq<Seq<char>>|
                #[trigger] perm_at(*self, k) == pattern_perm(lv.skip(index as int), final_permission, k) by {
                if k.len() > 0 {
                    assert(child_of(self.sub_path@, k[0]) is None);
                }
            }
            proof {
                lemma_joined_intro(*self);
            }
            return;
        }
        self.permission = 0;
        let ghost alts = lv[index as int];
        let ghost below = lv.skip(index + 1);
        let names = &levels[index];
        assert(views(names@) == alts);
        let mut kids: Vec<Path> = Vec::new();
        let mut j: usize = 0;
        while j < names.len()
            invariant
                index < levels.len(),
                j <= names.len(),
                names == &levels@[index as int],
                lv == level_views(levels@),
                alts == lv[index as int],
                views(names@) == alts,
                below == lv.skip(index + 1),
                names_unique(kids@),
                forall|i: int| 0 <= i < kids.len() ==> #[trigger] wf(kids@[i]),
                forall|i: int| 0 <= i < kids.len() ==> #[trigger] paths_joined(kids@[i]),
                forall|i: int|
                    0 <= i < kids.len() ==> #[trigger] kids@[i].path@ == self.path@ + seq!['/'] + kids@[i].name@,
                forall|i: int, k: Seq<Seq<char>>|
                    0 <= i < kids.len() ==> #[trigger] perm_at(kids@[i], k) == pattern_perm(
                        below,
                        final_permission,
                        k,
                    ),
                forall|nm: Seq<char>|
                    (exists|i: int| 0 <= i < kids.len() && #[trigger] kids@[i].name@ == nm)
                        <==> alts.take(j as int).contains(nm),
            decreases names.len() - j,
        {
            let nm = &names[j];
            assert(alts.take(j + 1) =~= alts.take(j as int).push(nm@));
            if find_child(&kids, nm).is_none() {
                let mut child_path = self.path.clone();
                push_char(&mut child_path, '/');
                push_str(&mut child_path, nm.as_str());
                let mut child = Path {
                    path: child_path,
                    name: nm.clone(),
                    permission: 0,
                    sub_path: Vec::new(),
                };
                child.insert_paths(levels, index + 1, final_permission);
                let ghost prev = kids@;
                kids.push(child);
                assert(kids@ == prev.push(child));
                assert forall|nm2: Seq<char>|
                    #[trigger] alts.take(j + 1).contains(nm2) <==> (exists|i: int|
                        0 <= i < kids.len() && #[trigger] kids@[i].name@ == nm2) by {
                    if alts.take(j + 1).contains(nm2) {
                        if nm2 == nm@ {
                            assert(kids@[prev.len() as int].name@ == nm2);
                        } else {
                            let t = choose|t: int| 0 <= t < j + 1 && #[trigger] alts.take(j + 1)[t] == nm2;
                            assert(alts.take(j as int)[t] == nm2);
                            assert(alts.take(j as int).contains(nm2));
                            let i = choose|i: int| 0 <= i < prev.len() && #[trigger] prev[i].name@ == nm2;
                            assert(kids@[i].name@ == nm2);
                        }
                    }
                    if exists|i: int| 0 <= i < kids.len() && #[trigger] kids@[i].name@ == nm2 {
                        let i = choose|i: int| 0 <= i < kids.len() && #[trigger] kids@[i].name@ == nm2;
                        if i == prev.len() {
                            assert(alts.take(j + 1)[j as int] == nm2);
                        } else {
                            assert(prev[i].name@ == nm2);
                            assert(alts.take(j as int).contains(nm2));
                            let t = choose|t: int| 0 <= t < j && #[trigger] alts.take(j as int)[t] == nm2;
                            assert(alts.take(j + 1)[t] == nm2);
                        }
                    }
                }
            } else {
                assert forall|nm2: Seq<char>|
                    #[trigger] alts.take(j + 1).contains(nm2) <==> (exists|i: int|
                        0 <= i < kids.len() && #[trigger] kids@[i].name@ == nm2) by {
                    if alts.take(j + 1).contains(nm2) && nm2 != nm@ {
                        let t = choose|t: int| 0 <= t < j + 1 && #[trigger] alts.take(j + 1)[t] == nm2;
                        assert(alts.take(j as int)[t] == nm2);
                    }
                    if alts.take(j as int).contains(nm2) {
                        let t = choose|t: int| 0 <= t < j && #[trigger] alts.take(j as int)[t] == nm2;
                        assert(alts.take(j + 1)[t] == nm2);
                    }
                    if nm2 == nm@ {
                        assert(alts.take(j + 1)[j as int] == nm2);
                    }
                }
            }
            j = j + 1;
        }
        self.sub_path = kids;
        assert(names_unique(self.sub_path@));
        assert(forall|i: int| 0 <= i < self.sub_path@.len() ==> #[trigger] wf(self.sub_path@[i]));
        proof {
            lemma_wf_intro(*self);
            lemma_joined_intro(*self);
        }
        assert(alts.take(j as int) =~= alts);
        assert(lv.skip(index as int).drop_first() =~= below);
        assert forall|k: Seq<Seq<char>>|
            #[trigger] perm_at(*self, k) == pattern_perm(lv.skip(index as int), final_permission, k) by {
            if k.len() > 0 {
                lemma_pattern_step(lv.skip(index as int), final_permission, k);
                assert(lv.skip(index as int)[0] == alts);
                if alts.contains(k[0]) {
                    assert(alts.take(j as int).contains(k[0]));
                    let i = choose|i: int| 0 <= i < self.sub_path@.len() && #[trigger] self.sub_path@[i].name@ == k[0];
                    lemma_child_of_unique(self.sub_path@, i);
                    assert(perm_at(self.sub_path@[i], k.drop_first()) == pattern_perm(below, final_permission, k.drop_first()));
                } else {
                    assert(!alts.take(j as int).contains(k[0]));
                    assert(child_index(self.sub_path@, k[0]) is None);
                }
            }
        }
    }
}

} // verus!
