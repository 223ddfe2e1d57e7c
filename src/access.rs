use vstd::prelude::*;

use crate::config::{Config, UserConfig};
use crate::segments::push_str;
use crate::tree::{child_of, find_child, Path};

verus! {

/// Bits reported for every entry of a listing.
pub const DEFAULT_PERMISSIONS: u8 = 0b111;

/// One entry of a directory listing.
pub struct File {
    pub name: String,
    pub is_dir: bool,
    pub permissions: u8,
    pub size: u64,
}

/// A directory listing.
pub struct FileListResponse {
    pub files: Vec<File>,
}

/// A request naming a root and a path below it; either may be missing.
pub struct FileRequest {
    pub root: Option<String>,
    pub path: Option<String>,
}

/// The credentials of a login attempt.
pub struct LoginRequest {
    pub username: String,
    pub password: String,
}

/// The outcome of a login attempt: the session token where it succeeded.
pub struct LoginResponse {
    pub success: bool,
    pub token: Option<String>,
}

/// The position of the last user named `name`, if any: the entry that a
/// lookup by name finds.
pub open spec fn last_user_index(users: Seq<UserConfig>, name: Seq<char>) -> Option<int> {
    if exists|i: int| 0 <= i < users.len() && #[trigger] users[i].username@ == name {
        Some(
            choose|i: int|
                0 <= i < users.len() && #[trigger] users[i].username@ == name && forall|j: int|
                    i < j < users.len() ==> users[j].username@ != name,
        )
    } else {
        None
    }
}

/// `username` and `password` match the user that a lookup by name finds.
pub open spec fn credentials_ok(c: Config, username: Seq<char>, password: Seq<char>) -> bool {
    match last_user_index(c.users@, username) {
        Some(i) => c.users@[i].password@ == password,
        None => false,
    }
}

proof fn lemma_last_user_index(users: Seq<UserConfig>, name: Seq<char>, i: int)
    requires
        0 <= i < users.len(),
        users[i].username@ == name,
        forall|j: int| i < j < users.len() ==> users[j].username@ != name,
    ensures
        last_user_index(users, name) == Some(i),
{
    let k = last_user_index(users, name)->0;
    assert(last_user_index(users, name) is Some);
    if k < i {
        assert(users[i].username@ != name);
    } else if k > i {
        assert(users[k].username@ == name);
    }
}

/// Relies on `uuid::Uuid::new_v4` and the hyphenated lower-case form that
/// its `to_string` writes: a random session token of 36 characters.
#[verifier::external_body]
fn new_token() -> (r: String)
    ensures
        r@.len() == 36,
{
    uuid::Uuid::new_v4().to_string()
}

/// One listing entry per named root, in the order of `paths` (by name, for
/// the roots of a loaded `Config`), each shown as a directory with the
/// default bits.
pub fn root_listing(paths: &Vec<Path>) -> (r: Vec<File>)
    ensures
        r@.len() == paths@.len(),
        forall|i: int|
            0 <= i < r@.len() ==> {
                let e = #[trigger] r@[i];
                &&& e.name == paths@[i].name
                &&& e.is_dir
                &&& e.permissions == DEFAULT_PERMISSIONS
                &&& e.size == 0
            },
{
    let mut out: Vec<File> = Vec::new();
    let mut i: usize = 0;
    while i < paths.len()
        invariant
            i <= paths.len(),
            out@.len() == i,
            forall|j: int|
                0 <= j < i ==> {
                    let e = #[trigger] out@[j];
                    &&& e.name == paths@[j].name
                    &&& e.is_dir
                    &&& e.permissions == DEFAULT_PERMISSIONS
                    &&& e.size == 0
                },
        decreases paths.len() - i,
    {
        out.push(File { name: paths[i].name.clone(), is_dir: true, permissions: DEFAULT_PERMISSIONS, size: 0 });
        i = i + 1;
    }
    out
}

impl Config {
    /// The last user named `username`, as lookups by name find them.
    pub fn get_user_config(&self, username: &String) -> (r: Option<&UserConfig>)
        ensures
            r is None <==> last_user_index(self.users@, username@) is None,
            r matches Some(u) ==> *u == self.users@[last_user_index(self.users@, username@)->0],
    {
        let mut i: usize = self.users.len();
        while i > 0
            invariant
                i <= self.users.len(),
                forall|j: int| i <= j < self.users@.len() ==> self.users@[j].username@ != username@,
            decreases i,
        {
            i = i - 1;
            if self.users[i].username == *username {
                proof {
                    lemma_last_user_index(self.users@, username@, i as int);
                }
                return Some(&self.users[i]);
            }
        }
        None
    }

    /// The tree of the root named `name`.
    pub fn get_path(&self, name: &String) -> (r: Option<&Path>)
        ensures
            r is None <==> child_of(self.paths@, name@) is None,
            r matches Some(p) ==> child_of(self.paths@, name@) == Some(*p),
    {
        match find_child(&self.paths, name) {
            Some(i) => Some(&self.paths[i]),
            None => None,
        }
    }

    /// The location on disk of `path` below the root named `root`: the root's
    /// path followed by `path` as given.
    pub fn full_path(&self, root: &String, path: &String) -> (r: Option<String>)
        ensures
            r is None <==> child_of(self.paths@, root@) is None,
            r matches Some(s) ==> s@ == child_of(self.paths@, root@)->0.path@ + path@,
    {
        match self.get_path(root) {
            Some(p) => {
                let mut s = p.path.clone();
                push_str(&mut s, path.as_str());
                Some(s)
            },
            None => None,
        }
    }

    /// Whether the password matches the user that a lookup by name finds.
    pub fn credentials_valid(&self, username: &String, password: &String) -> (r: bool)
        ensures
            r == credentials_ok(*self, username@, password@),
    {
        match self.get_user_config(username) {
            Some(u) => u.password == *password,
            None => false,
        }
    }
}

/// The answer to a login attempt, given the token that a new session would
/// get: success with that token where the credentials are valid, failure
/// without a token otherwise.
pub fn login_response(config: &Config, request: &LoginRequest, token: String) -> (r: LoginResponse)
    ensures
        r.success == credentials_ok(*config, request.username@, request.password@),
        r.success ==> r.token == Some(token),
        !r.success ==> r.token is None,
{
    if config.credentials_valid(&request.username, &request.password) {
        LoginResponse { success: true, token: Some(token) }
    } else {
        LoginResponse { success: false, token: None }
    }
}

/// Answers a login attempt, drawing a fresh random session token for it.
pub fn login(config: &Config, request: &LoginRequest) -> (r: LoginResponse)
    ensures
        r.success == credentials_ok(*config, request.username@, request.password@),
        r.success ==> (r.token matches Some(t) && t@.len() == 36),
        !r.success ==> r.token is None,
{
    let token = new_token();
    login_response(config, request, token)
}

} // verus!
