use vstd::prelude::*;

use crate::builder::pattern_tree;
use crate::error::ConfigError;
use crate::merge::merge_all;
use crate::pattern::{all_well_formed, levels_of, reports_first_malformed};
use crate::segments::segments;
use crate::order::{insert_by_name, lemma_sorted_unique, sorted_by_name};
use crate::tree::{
    child_index, child_of, find_child, lemma_child_index_valid, lemma_child_of_other,
    lemma_child_of_unique, node_at, perm_at, wf, Path,
};

verus! {

/// A grant as written in the configuration: a root's name and the bits given on it.
pub struct UserPermissionFromFile {
    pub path_name: String,
    pub permission: u8,
}

/// A user as written in the configuration.
pub struct UserFromFile {
    pub username: String,
    pub password: String,
    pub permissions: Vec<UserPermissionFromFile>,
}

/// A named root as written in the configuration: its path pattern and its
/// base permission.
pub struct PathFromFile {
    pub path: String,
    pub name: String,
    /// Permission bits: read, write, view.
    pub permission: u8,
}

/// Server settings.
pub struct MiscFromFile {
    pub port: Option<u16>,
    pub host: Option<String>,
    pub enable_https: Option<bool>,
    pub cert_path: Option<String>,
    pub log_level: Option<String>,
    pub max_upload_size: Option<usize>,
}

/// A session that a debug build opens at start.
pub struct DebugSession {
    pub username: String,
    pub token: String,
}

/// Debug settings.
pub struct DebugFromFile {
    pub enable: bool,
    pub debug_session: Option<DebugSession>,
}

/// The configuration file as read.
pub struct ConfigFromFile {
    pub users: Vec<UserFromFile>,
    pub paths: Vec<PathFromFile>,
    pub misc: Option<MiscFromFile>,
    pub debug: Option<DebugFromFile>,
}

/// A user with the permission tree that their grants add up to.
pub struct UserConfig {
    pub username: String,
    pub password: String,
    pub permissions_tree: Path,
    pub permissions: Vec<UserPermissionFromFile>,
}

/// The loaded configuration: the users, in the order of the file, and the
/// trees of the named roots, ordered by name. Where a name occurs twice among
/// the users, the later entry is the one that lookups find.
pub struct Config {
    pub users: Vec<UserConfig>,
    pub paths: Vec<Path>,
}

/// The tree of a user with no grant: a root with no bits and no children.
pub open spec fn empty_root() -> Map<Seq<Seq<char>>, u8> {
    map![Seq::<Seq<char>>::empty() => 0u8]
}

/// The tree that a root's pattern and base permission describe.
pub open spec fn root_tree(p: PathFromFile) -> Map<Seq<Seq<char>>, u8> {
    pattern_tree(levels_of(segments(p.path@)), p.permission)
}

/// The pattern of a root is well formed.
pub open spec fn pattern_ok(p: PathFromFile) -> bool {
    all_well_formed(segments(p.path@), segments(p.path@).len() as int)
}

/// No two roots share a name.
pub open spec fn roots_distinct(paths: Seq<PathFromFile>) -> bool {
    forall|i: int, j: int| 0 <= i < j < paths.len() ==> paths[i].name@ != paths[j].name@
}

/// Some root is named `name`.
pub open spec fn root_declared(paths: Seq<PathFromFile>, name: Seq<char>) -> bool {
    exists|i: int| 0 <= i < paths.len() && #[trigger] paths[i].name@ == name
}

/// Every grant of every user names a declared root.
pub open spec fn grants_known(users: Seq<UserFromFile>, paths: Seq<PathFromFile>) -> bool {
    forall|u: int, g: int|
        0 <= u < users.len() && 0 <= g < users[u].permissions@.len() ==> root_declared(
            paths,
            #[trigger] users[u].permissions@[g].path_name@,
        )
}

/// The grants of a user, each as the tree of the root it names (among the
/// built `roots`) and the bits it gives.
pub open spec fn grant_trees(gs: Seq<UserPermissionFromFile>, roots: Seq<Path>) -> Seq<(Map<Seq<Seq<char>>, u8>, u8)> {
    gs.map_values(|g: UserPermissionFromFile| (child_of(roots, g.path_name@)->0@, g.permission))
}

/// Every root's pattern is well formed.
pub open spec fn patterns_ok(paths: Seq<PathFromFile>) -> bool {
    forall|i: int| 0 <= i < paths.len() ==> #[trigger] pattern_ok(paths[i])
}

/// What a load error says of the configuration `f` that gave it.
pub open spec fn load_error_fits(f: ConfigFromFile, e: ConfigError) -> bool {
    match e {
        ConfigError::DuplicateRoot { name } => exists|i: int, j: int|
            0 <= i < j < f.paths@.len() && #[trigger] f.paths@[i].name@ == name@
                && #[trigger] f.paths@[j].name@ == name@,
        ConfigError::MalformedAlternation { .. } => exists|i: int|
            0 <= i < f.paths@.len() && !pattern_ok(#[trigger] f.paths@[i])
                && reports_first_malformed(segments(f.paths@[i].path@), e),
        ConfigError::UnknownRoot { name } => exists|u: int, g: int|
            0 <= u < f.users@.len() && 0 <= g < f.users@[u].permissions@.len()
                && #[trigger] f.users@[u].permissions@[g].path_name@ == name@ && !root_declared(
                f.paths@,
                name@,
            ),
    }
}

/// A copy of a list of grants.
fn copy_grants(v: &Vec<UserPermissionFromFile>) -> (r: Vec<UserPermissionFromFile>)
    ensures
        r@ == v@,
{
    let mut out: Vec<UserPermissionFromFile> = Vec::new();
    let mut i: usize = 0;
    while i < v.len()
        invariant
            i <= v.len(),
            out@ == v@.take(i as int),
        decreases v.len() - i,
    {
        let g = UserPermissionFromFile { path_name: v[i].path_name.clone(), permission: v[i].permission };
        out.push(g);
        assert(out@ =~= v@.take(i + 1));
        i = i + 1;
    }
    assert(out@ =~= v@);
    out
}

/// A node with no bits and no children.
fn leaf(path: String, name: String, permission: u8) -> (r: Path)
    ensures
        r.path == path,
        r.name == name,
        r.permission == permission,
        r.sub_path@.len() == 0,
        wf(r),
        r@ == map![Seq::<Seq<char>>::empty() => permission],
{
    let r = Path { path, name, permission, sub_path: Vec::new() };
    proof {
        assert forall|k: Seq<Seq<char>>| #[trigger] node_at(r, k) is Some implies k.len() == 0 by {
            if k.len() > 0 {
                assert(child_of(r.sub_path@, k[0]) is None);
            }
        }
        assert(perm_at(r, Seq::<Seq<char>>::empty()) == Some(permission));
        assert forall|k: Seq<Seq<char>>| r@.contains_key(k) implies k =~= Seq::<Seq<char>>::empty() by {
            assert(node_at(r, k) is Some);
        }
        assert(r@ =~= map![Seq::<Seq<char>>::empty() => permission]);
    }
    r
}

/// The position of the last root named `name`, if any: the one that wins
/// when a name is declared twice.
pub open spec fn last_root_index(paths: Seq<PathFromFile>, name: Seq<char>) -> Option<int> {
    if exists|i: int| 0 <= i < paths.len() && #[trigger] paths[i].name@ == name {
        Some(
            choose|i: int|
                0 <= i < paths.len() && #[trigger] paths[i].name@ == name && forall|j: int|
                    i < j < paths.len() ==> paths[j].name@ != name,
        )
    } else {
        None
    }
}

/// The root node that a declared root starts as, before its pattern is expanded.
pub open spec fn unexpanded(p: Path, q: PathFromFile) -> bool {
    &&& p.path == q.path
    &&& p.name == q.name
    &&& p.permission == q.permission
    &&& p.sub_path@.len() == 0
}

/// The tree of a user before any grant: the node `/` named `root`, with no
/// bits and no children.
pub open spec fn fresh_user_tree(t: Path) -> bool {
    &&& t.path@ == "/"@
    &&& t.name@ == "root"@
    &&& t@ == empty_root()
    &&& wf(t)
}

proof fn lemma_last_match(paths: Seq<PathFromFile>, name: Seq<char>, i: int)
    requires
        0 <= i < paths.len(),
        paths[i].name@ == name,
    ensures
        exists|l: int|
            0 <= l < paths.len() && #[trigger] paths[l].name@ == name && forall|j: int|
                l < j < paths.len() ==> paths[j].name@ != name,
    decreases paths.len() - i,
{
    if exists|j: int| i < j < paths.len() && #[trigger] paths[j].name@ == name {
        let j = choose|j: int| i < j < paths.len() && #[trigger] paths[j].name@ == name;
        lemma_last_match(paths, name, j);
    } else {
        assert(forall|j: int| i < j < paths.len() ==> paths[j].name@ != name);
    }
}

proof fn lemma_last_root_is(paths: Seq<PathFromFile>, name: Seq<char>, i: int)
    requires
        0 <= i < paths.len(),
        paths[i].name@ == name,
        forall|j: int| i < j < paths.len() ==> paths[j].name@ != name,
    ensures
        last_root_index(paths, name) == Some(i),
{
    let k = last_root_index(paths, name)->0;
    assert(last_root_index(paths, name) is Some);
    if k < i {
        assert(paths[i].name@ != name);
    } else if k > i {
        assert(paths[k].name@ == name);
    }
}

proof fn lemma_last_root_push(paths: Seq<PathFromFile>, e: PathFromFile, name: Seq<char>)
    ensures
        last_root_index(paths.push(e), name) == if e.name@ == name {
            Some(paths.len() as int)
        } else {
            last_root_index(paths, name)
        },
{
    let s = paths.push(e);
    if e.name@ == name {
        lemma_last_root_is(s, name, paths.len() as int);
    } else if exists|i: int| 0 <= i < paths.len() && #[trigger] paths[i].name@ == name {
        let i = choose|i: int| 0 <= i < paths.len() && #[trigger] paths[i].name@ == name;
        lemma_last_match(paths, name, i);
        let k = last_root_index(paths, name)->0;
        assert(s[k] == paths[k]);
        lemma_last_root_is(s, name, k);
    } else {
        assert forall|i: int| 0 <= i < s.len() implies #[trigger] s[i].name@ != name by {
            if i < paths.len() {
                assert(s[i] == paths[i]);
            }
        }
    }
}

/// Merges each grant of `user`, in order, into the user's tree.
fn build_user_tree(user: &mut UserConfig, roots: &Vec<Path>)
    requires
        wf(old(user).permissions_tree),
        old(user).permissions_tree@ == empty_root(),
        forall|a: int| 0 <= a < roots@.len() ==> wf(#[trigger] roots@[a]),
        forall|h: int|
            0 <= h < old(user).permissions@.len() ==> (#[trigger] child_of(
                roots@,
                old(user).permissions@[h].path_name@,
            )) is Some,
    ensures
        final(user).username == old(user).username,
        final(user).password == old(user).password,
        final(user).permissions == old(user).permissions,
        final(user).permissions_tree.path == old(user).permissions_tree.path,
        final(user).permissions_tree.name == old(user).permissions_tree.name,
        wf(final(user).permissions_tree),
        final(user).permissions_tree@ == merge_all(
            empty_root(),
            grant_trees(old(user).permissions@, roots@),
        ),
{
    let ghost gs = user.permissions@;
    let mut g: usize = 0;
    assert(gs.take(0) =~= Seq::<UserPermissionFromFile>::empty());
    assert(grant_trees(gs.take(0), roots@) =~= Seq::empty());
    while g < user.permissions.len()
        invariant
            g <= user.permissions@.len(),
            gs == user.permissions@,
            user.username == old(user).username,
            user.password == old(user).password,
            user.permissions == old(user).permissions,
            user.permissions_tree.path == old(user).permissions_tree.path,
            user.permissions_tree.name == old(user).permissions_tree.name,
            forall|a: int| 0 <= a < roots@.len() ==> wf(#[trigger] roots@[a]),
            forall|h: int| 0 <= h < gs.len() ==> (#[trigger] child_of(roots@, gs[h].path_name@)) is Some,
            wf(user.permissions_tree),
            user.permissions_tree@ == merge_all(empty_root(), grant_trees(gs.take(g as int), roots@)),
        decreases user.permissions@.len() - g,
    {
        let ghost before = grant_trees(gs.take(g as int), roots@);
        let ghost name = gs[g as int].path_name@;
        let permission = user.permissions[g].permission;
        assert(child_of(roots@, name) is Some);
        let idx = match find_child(roots, &user.permissions[g].path_name) {
            Some(idx) => idx,
            None => {
                return;
            },
        };
        user.permissions_tree.merge_path(&roots[idx], permission);
        proof {
            assert(child_of(roots@, name) == Some(roots@[idx as int]));
            assert(gs.take(g + 1) =~= gs.take(g as int).push(gs[g as int]));
            assert(grant_trees(gs.take(g + 1), roots@) =~= before.push((roots@[idx as int]@, permission)));
            assert(before.push((roots@[idx as int]@, permission)).drop_last() =~= before);
        }
        g = g + 1;
    }
    assert(gs.take(g as int) =~= gs);
}

impl Config {
    /// Builds every root's tree from its pattern and every user's tree from
    /// their grants, merged in the order of the file into the user's root `/`.
    /// The roots come out ordered by name.
    ///
    /// Fails, in this order of precedence, when two roots share a name, when a
    /// root's pattern is malformed (one such root is reported), and when a
    /// grant names an undeclared root (the first such grant is reported).
    pub fn from_config_file(f: &ConfigFromFile) -> (r: Result<Config, ConfigError>)
        ensures
            r is Ok <==> roots_distinct(f.paths@) && patterns_ok(f.paths@)
                && grants_known(f.users@, f.paths@),
            (r matches Err(ConfigError::DuplicateRoot { .. })) <==> !roots_distinct(
                f.paths@,
            ),
            (r matches Err(ConfigError::MalformedAlternation { .. })) <==> roots_distinct(
                f.paths@,
            ) && !patterns_ok(f.paths@),
            r matches Err(e) ==> load_error_fits(*f, e),
            r matches Ok(c) ==> {
                &&& sorted_by_name(c.paths@)
                &&& forall|nm: Seq<char>|
                    (#[trigger] child_of(c.paths@, nm)) is Some <==> root_declared(f.paths@, nm)
                &&& forall|i: int|
                    0 <= i < f.paths@.len() ==> {
                        let (p, q) = (child_of(c.paths@, #[trigger] f.paths@[i].name@)->0, f.paths@[i]);
                        &&& child_of(c.paths@, q.name@) is Some
                        &&& p.path == q.path
                        &&& p.name == q.name
                        &&& wf(p)
                        &&& p@ == root_tree(q)
                    }
                &&& c.users@.len() == f.users@.len()
                &&& forall|i: int|
                    0 <= i < c.users@.len() ==> {
                        let (u, q) = (#[trigger] c.users@[i], f.users@[i]);
                        &&& u.username == q.username
                        &&& u.password == q.password
                        &&& u.permissions@ == q.permissions@
                        &&& u.permissions_tree.path@ == "/"@
                        &&& u.permissions_tree.name@ == "root"@
                        &&& wf(u.permissions_tree)
                        &&& u.permissions_tree@ == merge_all(
                            empty_root(),
                            grant_trees(q.permissions@, c.paths@),
                        )
                    }
            },
    {
        let mut j: usize = 0;
        while j < f.paths.len()
            invariant
                j <= f.paths.len(),
                forall|a: int, b: int| 0 <= a < b < j ==> f.paths@[a].name@ != f.paths@[b].name@,
            decreases f.paths.len() - j,
        {
            let mut i: usize = 0;
            while i < j
                invariant
                    i <= j < f.paths.len(),
                    forall|a: int| 0 <= a < i ==> f.paths@[a].name@ != f.paths@[j as int].name@,
                decreases j - i,
            {
                if f.paths[i].name == f.paths[j].name {
                    let name = f.paths[j].name.clone();
                    assert(f.paths@[i as int].name@ == name@ && f.paths@[j as int].name@ == name@);
                    let r: Result<Config, ConfigError> = Err(ConfigError::DuplicateRoot { name });
                    assert(!roots_distinct(f.paths@));
                    return r;
                }
                i = i + 1;
            }
            j = j + 1;
        }
        let Config { users, paths } = f.to_config();
        let mut roots = paths;
        proof {
            assert forall|k: int| 0 <= k < f.paths@.len() implies last_root_index(
                f.paths@,
                #[trigger] f.paths@[k].name@,
            ) == Some(k) by {
                lemma_last_root_is(f.paths@, f.paths@[k].name@, k);
            }
        }
        let mut i: usize = 0;
        while i < roots.len()
            invariant
                i <= roots.len(),
                roots_distinct(f.paths@),
                forall|k: int| 0 <= k < f.paths@.len() ==> last_root_index(
                    f.paths@,
                    #[trigger] f.paths@[k].name@,
                ) == Some(k),
                sorted_by_name(roots@),
                forall|nm: Seq<char>|
                    root_declared(f.paths@, nm) <==> (#[trigger] child_of(roots@, nm)) is Some,
                forall|a: int|
                    0 <= a < roots@.len() ==> {
                        let p = #[trigger] roots@[a];
                        let k = last_root_index(f.paths@, p.name@)->0;
                        &&& last_root_index(f.paths@, p.name@) is Some
                        &&& p.path == f.paths@[k].path
                        &&& p.name == f.paths@[k].name
                        &&& a < i ==> wf(p) && p@ == root_tree(f.paths@[k]) && pattern_ok(f.paths@[k])
                        &&& a >= i ==> p.permission == f.paths@[k].permission
                    },
            decreases roots.len() - i,
        {
            let ghost prev = roots@;
            let mut node = roots.remove(i);
            let ghost k = last_root_index(f.paths@, node.name@)->0;
            match node.extract_sub_paths() {
                Ok(()) => {},
                Err(e) => {
                    assert(node == prev[i as int]);
                    assert(!pattern_ok(f.paths@[k]));
                    let r: Result<Config, ConfigError> = Err(e);
                    assert(!patterns_ok(f.paths@));
                    return r;
                },
            }
            roots.insert(i, node);
            proof {
                assert(roots@ =~= prev.update(i as int, node));
                assert forall|x: int, y: int| 0 <= x < y < roots@.len() implies crate::order::name_lt(
                    #[trigger] roots@[x].name@,
                    #[trigger] roots@[y].name@,
                ) by {
                    assert(crate::order::name_lt(prev[x].name@, prev[y].name@));
                }
                lemma_sorted_unique(prev);
                lemma_sorted_unique(roots@);
                assert forall|nm: Seq<char>|
                    root_declared(f.paths@, nm) <==> (#[trigger] child_of(roots@, nm)) is Some by {
                    if nm == node.name@ {
                        lemma_child_of_unique(prev, i as int);
                        lemma_child_of_unique(roots@, i as int);
                    } else {
                        lemma_child_of_other(prev, roots@, nm);
                    }
                }
            }
            i = i + 1;
        }
        proof {
            assert forall|k: int| 0 <= k < f.paths@.len() implies #[trigger] pattern_ok(f.paths@[k]) by {
                let nm = f.paths@[k].name@;
                assert(root_declared(f.paths@, nm));
                assert(child_of(roots@, nm) is Some);
                lemma_child_index_valid(roots@, nm);
                let a = child_index(roots@, nm)->0;
                assert(roots@[a].name@ == nm);
            }
        }
        let mut u: usize = 0;
        while u < f.users.len()
            invariant
                u <= f.users.len(),
                roots_distinct(f.paths@),
                patterns_ok(f.paths@),
                forall|nm: Seq<char>|
                    root_declared(f.paths@, nm) <==> (#[trigger] child_of(roots@, nm)) is Some,
                forall|x: int, g: int|
                    0 <= x < u && 0 <= g < f.users@[x].permissions@.len() ==> root_declared(
                        f.paths@,
                        #[trigger] f.users@[x].permissions@[g].path_name@,
                    ),
            decreases f.users.len() - u,
        {
            let mut g: usize = 0;
            while g < f.users[u].permissions.len()
                invariant
                    u < f.users.len(),
                    roots_distinct(f.paths@),
                    patterns_ok(f.paths@),
                    g <= f.users@[u as int].permissions@.len(),
                    forall|nm: Seq<char>|
                        root_declared(f.paths@, nm) <==> (#[trigger] child_of(roots@, nm)) is Some,
                    forall|x: int, h: int|
                        (0 <= x < u && 0 <= h < f.users@[x].permissions@.len()) || (x == u && 0 <= h < g)
                            ==> root_declared(f.paths@, #[trigger] f.users@[x].permissions@[h].path_name@),
                decreases f.users@[u as int].permissions@.len() - g,
            {
                let name = &f.users[u].permissions[g].path_name;
                if find_child(&roots, name).is_none() {
                    assert(child_of(roots@, name@) is None);
                    let e = ConfigError::UnknownRoot { name: name.clone() };
                    assert(f.users@[u as int].permissions@[g as int].path_name@ == name@);
                    assert(!grants_known(f.users@, f.paths@));
                    assert(load_error_fits(*f, e));
                    return Err(e);
                }
                g = g + 1;
            }
            u = u + 1;
        }
        let mut users = users;
        let mut u: usize = 0;
        while u < users.len()
            invariant
                u <= users.len(),
                users@.len() == f.users@.len(),
                forall|a: int| 0 <= a < roots@.len() ==> wf(#[trigger] roots@[a]),
                forall|nm: Seq<char>|
                    root_declared(f.paths@, nm) <==> (#[trigger] child_of(roots@, nm)) is Some,
                grants_known(f.users@, f.paths@),
                forall|i: int|
                    0 <= i < users@.len() ==> {
                        let (x, y) = (#[trigger] users@[i], f.users@[i]);
                        &&& x.username == y.username
                        &&& x.password == y.password
                        &&& x.permissions@ == y.permissions@
                        &&& x.permissions_tree.path@ == "/"@
                        &&& x.permissions_tree.name@ == "root"@
                        &&& wf(x.permissions_tree)
                        &&& i < u ==> x.permissions_tree@ == merge_all(
                            empty_root(),
                            grant_trees(y.permissions@, roots@),
                        )
                        &&& i >= u ==> x.permissions_tree@ == empty_root()
                    },
            decreases users.len() - u,
        {
            let ghost prev = users@;
            let mut user = users.remove(u);
            proof {
                assert forall|h: int| 0 <= h < user.permissions@.len() implies (#[trigger] child_of(
                    roots@,
                    user.permissions@[h].path_name@,
                )) is Some by {
                    assert(root_declared(f.paths@, f.users@[u as int].permissions@[h].path_name@));
                }
            }
            build_user_tree(&mut user, &roots);
            users.insert(u, user);
            assert(users@ =~= prev.update(u as int, user));
            u = u + 1;
        }
        proof {
            assert forall|k: int| 0 <= k < f.paths@.len() implies {
                let (p, q) = (child_of(roots@, #[trigger] f.paths@[k].name@)->0, f.paths@[k]);
                &&& child_of(roots@, q.name@) is Some
                &&& p.path == q.path
                &&& p.name == q.name
                &&& wf(p)
                &&& p@ == root_tree(q)
            } by {
                let nm = f.paths@[k].name@;
                assert(root_declared(f.paths@, nm));
                assert(child_of(roots@, nm) is Some);
                lemma_child_index_valid(roots@, nm);
                let a = child_index(roots@, nm)->0;
                assert(roots@[a].name@ == nm);
                assert(last_root_index(f.paths@, nm) == Some(k));
            }
        }
        Ok(Config { users, paths: roots })
    }
}

impl UserFromFile {
    /// The user with an empty tree, the node `/` named `root`, and a copy of
    /// their grants.
    fn to_user_config(&self) -> (r: UserConfig)
        ensures
            r.username == self.username,
            r.password == self.password,
            r.permissions@ == self.permissions@,
            fresh_user_tree(r.permissions_tree),
    {
        UserConfig {
            username: self.username.clone(),
            password: self.password.clone(),
            permissions_tree: leaf("/".to_owned(), "root".to_owned(), 0),
            permissions: copy_grants(&self.permissions),
        }
    }
}

impl PathFromFile {
    /// The root as a single node that still holds its pattern and base permission.
    fn to_path_config(&self) -> (r: Path)
        ensures
            unexpanded(r, *self),
    {
        leaf(self.path.clone(), self.name.clone(), self.permission)
    }
}

impl ConfigFromFile {
    /// The users in the order of the file, each with the empty tree `/`, and
    /// the roots as single unexpanded nodes ordered by name; where a root's
    /// name is declared twice, the later declaration is kept.
    pub fn to_config(&self) -> (r: Config)
        ensures
            r.users@.len() == self.users@.len(),
            forall|i: int|
                0 <= i < r.users@.len() ==> {
                    let (u, f) = (#[trigger] r.users@[i], self.users@[i]);
                    &&& u.username == f.username
                    &&& u.password == f.password
                    &&& u.permissions@ == f.permissions@
                    &&& fresh_user_tree(u.permissions_tree)
                },
            sorted_by_name(r.paths@),
            forall|nm: Seq<char>|
                root_declared(self.paths@, nm) <==> (#[trigger] child_of(r.paths@, nm)) is Some,
            forall|a: int|
                0 <= a < r.paths@.len() ==> {
                    let p = #[trigger] r.paths@[a];
                    &&& last_root_index(self.paths@, p.name@) is Some
                    &&& unexpanded(p, self.paths@[last_root_index(self.paths@, p.name@)->0])
                },
    {
        let mut users: Vec<UserConfig> = Vec::new();
        let mut i: usize = 0;
        while i < self.users.len()
            invariant
                i <= self.users.len(),
                users@.len() == i,
                forall|j: int|
                    0 <= j < i ==> {
                        let (u, f) = (#[trigger] users@[j], self.users@[j]);
                        &&& u.username == f.username
                        &&& u.password == f.password
                        &&& u.permissions@ == f.permissions@
                        &&& fresh_user_tree(u.permissions_tree)
                    },
            decreases self.users.len() - i,
        {
            users.push(self.users[i].to_user_config());
            i = i + 1;
        }
        let mut paths: Vec<Path> = Vec::new();
        let mut i: usize = 0;
        while i < self.paths.len()
            invariant
                i <= self.paths.len(),
                sorted_by_name(paths@),
                forall|nm: Seq<char>|
                    root_declared(self.paths@.take(i as int), nm) <==> (#[trigger] child_of(
                        paths@,
                        nm,
                    )) is Some,
                forall|a: int|
                    0 <= a < paths@.len() ==> {
                        let p = #[trigger] paths@[a];
                        &&& last_root_index(self.paths@.take(i as int), p.name@) is Some
                        &&& unexpanded(
                            p,
                            self.paths@[last_root_index(self.paths@.take(i as int), p.name@)->0],
                        )
                    },
            decreases self.paths.len() - i,
        {
            let ghost before = self.paths@.take(i as int);
            let ghost old_paths = paths@;
            let node = self.paths[i].to_path_config();
            let ghost x = node.name@;
            insert_by_name(&mut paths, node);
            proof {
                let after = self.paths@.take(i + 1);
                assert(after =~= before.push(self.paths@[i as int]));
                lemma_sorted_unique(old_paths);
                lemma_sorted_unique(paths@);
                assert forall|nm: Seq<char>|
                    root_declared(after, nm) <==> (#[trigger] child_of(paths@, nm)) is Some by {
                    if root_declared(before, nm) {
                        let t = choose|t: int| 0 <= t < before.len() && #[trigger] before[t].name@ == nm;
                        assert(after[t] == before[t]);
                    }
                    if root_declared(after, nm) && nm != x {
                        let t = choose|t: int| 0 <= t < after.len() && #[trigger] after[t].name@ == nm;
                        assert(before[t] == after[t]);
                    }
                    if nm == x {
                        assert(after[i as int].name@ == nm);
                    }
                }
                assert forall|a: int| 0 <= a < paths@.len() implies {
                    let p = #[trigger] paths@[a];
                    &&& last_root_index(after, p.name@) is Some
                    &&& unexpanded(p, self.paths@[last_root_index(after, p.name@)->0])
                } by {
                    let p = paths@[a];
                    lemma_last_root_push(before, self.paths@[i as int], p.name@);
                    lemma_child_of_unique(paths@, a);
                    if p.name@ != x {
                        assert(child_of(old_paths, p.name@) == Some(p));
                        lemma_child_index_valid(old_paths, p.name@);
                        let b = child_index(old_paths, p.name@)->0;
                        assert(old_paths[b] == p);
                    }
                }
            }
            i = i + 1;
        }
        assert(self.paths@.take(i as int) =~= self.paths@);
        Config { users, paths }
    }
}

} // verus!
