use vstd::prelude::*;

use crate::bits::{grants, has_bits, READ_MASK, VIEW_MASK, WRITE_MASK};

verus! {

/// One segment of a permission tree: its permission bits and its children.
///
/// `path` is the slash-joined location the node was built for; it is carried
/// for display and for mapping back to the file system, and takes no part in
/// permission decisions. Children are told apart by `name`.
pub struct Path {
    pub path: String,
    pub name: String,
    /// Permission bits: read, write, view.
    pub permission: u8,
    pub sub_path: Vec<Path>,
}

/// No two entries of `s` carry the same name.
pub open spec fn names_unique(s: Seq<Path>) -> bool {
    forall|i: int, j: int| 0 <= i < s.len() && 0 <= j < s.len() && i != j ==> s[i].name@ != s[j].name@
}

/// The position of the first entry of `s` named `name`, if any.
pub open spec fn child_index(s: Seq<Path>, name: Seq<char>) -> Option<int> {
    if exists|i: int| 0 <= i < s.len() && #[trigger] s[i].name@ == name {
        Some(
            choose|i: int|
                0 <= i < s.len() && #[trigger] s[i].name@ == name && forall|j: int|
                    0 <= j < i ==> s[j].name@ != name,
        )
    } else {
        None
    }
}

/// The child of a node's child list that answers to `name`.
pub open spec fn child_of(s: Seq<Path>, name: Seq<char>) -> Option<Path> {
    match child_index(s, name) {
        Some(i) => Some(s[i]),
        None => None,
    }
}

/// The node reached from `p` by following the names in `k`, if every step
/// has a child of that name.
pub open spec fn node_at(p: Path, k: Seq<Seq<char>>) -> Option<Path>
    decreases k.len(),
{
    if k.len() == 0 {
        Some(p)
    } else {
        match child_of(p.sub_path@, k[0]) {
            Some(c) => node_at(c, k.drop_first()),
            None => None,
        }
    }
}

/// The permission of the node reached from `p` by following `k`.
pub open spec fn perm_at(p: Path, k: Seq<Seq<char>>) -> Option<u8> {
    match node_at(p, k) {
        Some(n) => Some(n.permission),
        None => None,
    }
}

/// Every node of the tree has children with distinct names.
pub open spec fn wf(p: Path) -> bool {
    forall|k: Seq<Seq<char>>| #[trigger] node_at(p, k) is Some ==> names_unique(node_at(p, k)->0.sub_path@)
}

/// A tree is seen as the map from each reachable sequence of segment names to
/// the permission bits of the node found there; the empty sequence is the root.
impl View for Path {
    type V = Map<Seq<Seq<char>>, u8>;

    open spec fn view(&self) -> Map<Seq<Seq<char>>, u8> {
        Map::new(|k: Seq<Seq<char>>| perm_at(*self, k) is Some, |k: Seq<Seq<char>>| perm_at(*self, k)->0)
    }
}

/// If some entry is named `name`, the first such entry is unique in having
/// no earlier namesake.
pub proof fn lemma_child_index(s: Seq<Path>, name: Seq<char>, i: int)
    requires
        0 <= i < s.len(),
        s[i].name@ == name,
        forall|j: int| 0 <= j < i ==> s[j].name@ != name,
    ensures
        child_index(s, name) == Some(i),
{
    let k = child_index(s, name)->0;
    assert(child_index(s, name) is Some);
    if k < i {
        assert(s[k].name@ == name);
    } else if k > i {
        assert(s[i].name@ != name);
    }
}

proof fn lemma_first_match(s: Seq<Path>, name: Seq<char>, i: int)
    requires
        0 <= i < s.len(),
        s[i].name@ == name,
    ensures
        exists|f: int|
            0 <= f < s.len() && #[trigger] s[f].name@ == name && forall|j: int| 0 <= j < f ==> s[j].name@ != name,
    decreases i,
{
    if exists|j: int| 0 <= j < i && #[trigger] s[j].name@ == name {
        let j = choose|j: int| 0 <= j < i && #[trigger] s[j].name@ == name;
        lemma_first_match(s, name, j);
    } else {
        assert(forall|j: int| 0 <= j < i ==> s[j].name@ != name);
    }
}

/// The child found by name is an entry of the list, and carries that name.
pub proof fn lemma_child_index_valid(s: Seq<Path>, name: Seq<char>)
    ensures
        child_index(s, name) matches Some(i) ==> 0 <= i < s.len() && s[i].name@ == name,
{
    if exists|i: int| 0 <= i < s.len() && #[trigger] s[i].name@ == name {
        let i = choose|i: int| 0 <= i < s.len() && #[trigger] s[i].name@ == name;
        lemma_first_match(s, name, i);
    }
}

/// Where the names of `s` are unique, the child answering to `s[i].name` is `s[i]`.
pub proof fn lemma_child_of_unique(s: Seq<Path>, i: int)
    requires
        names_unique(s),
        0 <= i < s.len(),
    ensures
        child_of(s, s[i].name@) == Some(s[i]),
{
    let name = s[i].name@;
    assert(child_index(s, name) is Some);
    let k = child_index(s, name)->0;
    assert(s[k].name@ == name);
}

/// Whether one of the first `j` entries of `s` is named `nm`.
pub open spec fn named_before(s: Seq<Path>, j: int, nm: Seq<char>) -> bool {
    exists|t: int| 0 <= t < j && #[trigger] s[t].name@ == nm
}

/// With distinct names, a child is found exactly where its name is.
pub proof fn lemma_child_of_names(s: Seq<Path>, nm: Seq<char>)
    requires
        names_unique(s),
    ensures
        child_of(s, nm) is Some <==> named_before(s, s.len() as int, nm),
        child_of(s, nm) matches Some(c) ==> c.name@ == nm,
{
    if named_before(s, s.len() as int, nm) {
        let t = choose|t: int| 0 <= t < s.len() && #[trigger] s[t].name@ == nm;
        lemma_child_of_unique(s, t);
    }
}

/// Replacing, or adding, an entry named otherwise than `nm` leaves the child
/// named `nm` as it was.
pub proof fn lemma_child_of_other(s: Seq<Path>, s2: Seq<Path>, nm: Seq<char>)
    requires
        names_unique(s),
        names_unique(s2),
        s.len() <= s2.len(),
        forall|i: int| 0 <= i < s.len() && #[trigger] s2[i] != s[i] ==> s[i].name@ != nm && s2[i].name@ != nm,
        forall|i: int| s.len() <= i < s2.len() ==> #[trigger] s2[i].name@ != nm,
    ensures
        child_of(s2, nm) == child_of(s, nm),
{
    lemma_child_of_names(s, nm);
    lemma_child_of_names(s2, nm);
    if named_before(s, s.len() as int, nm) {
        let t = choose|t: int| 0 <= t < s.len() && #[trigger] s[t].name@ == nm;
        lemma_child_of_unique(s, t);
        assert(s2[t] == s[t]);
        lemma_child_of_unique(s2, t);
    } else if named_before(s2, s2.len() as int, nm) {
        let t = choose|t: int| 0 <= t < s2.len() && #[trigger] s2[t].name@ == nm;
        if t < s.len() {
            assert(s2[t] == s[t]);
            assert(named_before(s, s.len() as int, nm));
        }
    }
}

/// A node with distinctly named, well-formed children is well formed.
pub proof fn lemma_wf_intro(p: Path)
    requires
        names_unique(p.sub_path@),
        forall|i: int| 0 <= i < p.sub_path@.len() ==> #[trigger] wf(p.sub_path@[i]),
    ensures
        wf(p),
{
    assert forall|k: Seq<Seq<char>>| #[trigger] node_at(p, k) is Some implies names_unique(node_at(p, k)->0.sub_path@) by {
        if k.len() > 0 {
            lemma_child_index_valid(p.sub_path@, k[0]);
            let i = child_index(p.sub_path@, k[0])->0;
            assert(wf(p.sub_path@[i]));
            assert(node_at(p.sub_path@[i], k.drop_first()) is Some);
        }
    }
}

/// The children of a well-formed node are well formed, and each is reached by its name.
pub proof fn lemma_wf_child(p: Path, i: int)
    requires
        wf(p),
        0 <= i < p.sub_path@.len(),
    ensures
        wf(p.sub_path@[i]),
        names_unique(p.sub_path@),
        child_of(p.sub_path@, p.sub_path@[i].name@) == Some(p.sub_path@[i]),
{
    assert(node_at(p, Seq::empty()) == Some(p));
    lemma_child_of_unique(p.sub_path@, i);
    let c = p.sub_path@[i];
    assert forall|k: Seq<Seq<char>>| #[trigger] node_at(c, k) is Some implies names_unique(node_at(c, k)->0.sub_path@) by {
        let k2 = seq![c.name@] + k;
        assert(k2.drop_first() =~= k);
        assert(node_at(p, k2) == node_at(c, k));
    }
}

/// Scans `s` for the first entry named `name`.
pub fn find_child(s: &Vec<Path>, name: &String) -> (r: Option<usize>)
    ensures
        r matches Some(i) ==> i < s.len() && child_index(s@, name@) == Some(i as int),
        r is None ==> child_index(s@, name@) is None,
{
    let mut i: usize = 0;
    while i < s.len()
        invariant
            i <= s.len(),
            forall|j: int| 0 <= j < i ==> s@[j].name@ != name@,
        decreases s.len() - i,
    {
        if s[i].name == *name {
            proof {
                lemma_child_index(s@, name@, i as int);
            }
            return Some(i);
        }
        i = i + 1;
    }
    None
}

impl Path {
    /// Whether the node grants reading.
    pub fn can_read(&self) -> (r: bool)
        ensures
            r == grants(self.permission, READ_MASK),
    {
        has_bits(self.permission, READ_MASK)
    }

    /// Whether the node grants writing.
    pub fn can_write(&self) -> (r: bool)
        ensures
            r == grants(self.permission, WRITE_MASK),
    {
        has_bits(self.permission, WRITE_MASK)
    }

    /// Whether the node grants viewing.
    pub fn can_view(&self) -> (r: bool)
        ensures
            r == grants(self.permission, VIEW_MASK),
    {
        has_bits(self.permission, VIEW_MASK)
    }
}

} // verus!
