use vstd::prelude::*;

use crate::bits::{grants, has_bits};
use crate::segments::{segments, split_segments, views};
use crate::tree::{child_of, find_child, Path};

verus! {

/// What a request gets below the deepest node that its path reaches, when
/// the next segment names no child there.
#[derive(PartialEq, Eq, Structural, Clone, Copy, Debug)]
pub enum Unmodeled {
    /// Anything not listed below a node has that node's rights.
    Inherit,
    /// Anything not listed is out of reach.
    Deny,
}

/// Whether `p` admits the segments `parts` for `bit`: the bit must be held at
/// every node passed on the way down, and where the path leaves the modelled
/// tree, `policy` decides.
pub open spec fn admits(p: Path, parts: Seq<Seq<char>>, bit: u8, policy: Unmodeled) -> bool
    decreases parts.len(),
{
    if !grants(p.permission, bit) {
        false
    } else if parts.len() == 0 {
        true
    } else {
        match child_of(p.sub_path@, parts[0]) {
            Some(c) => admits(c, parts.drop_first(), bit, policy),
            None => policy == Unmodeled::Inherit,
        }
    }
}

/// Whether the node itself holds every bit of `required_permission`.
fn has_permission(path: &Path, required_permission: u8) -> (r: bool)
    ensures
        r == grants(path.permission, required_permission),
{
    has_bits(path.permission, required_permission)
}

fn check_permission_recursive(
    current_path: &Path,
    parts: &Vec<String>,
    index: usize,
    required_permission: u8,
    policy: Unmodeled,
) -> (r: bool)
    requires
        index <= parts.len(),
    ensures
        r == admits(*current_path, views(parts@).skip(index as int), required_permission, policy),
    decreases parts.len() - index,
{
    let ghost rest = views(parts@).skip(index as int);
    if !has_permission(current_path, required_permission) {
        return false;
    }
    if index == parts.len() {
        return true;
    }
    assert(rest[0] == parts@[index as int]@);
    assert(rest.drop_first() =~= views(parts@).skip(index + 1));
    match find_child(&current_path.sub_path, &parts[index]) {
        Some(i) => check_permission_recursive(
            &current_path.sub_path[i],
            parts,
            index + 1,
            required_permission,
            policy,
        ),
        None => policy == Unmodeled::Inherit,
    }
}

/// Decides whether `user_permissions_tree` lets a request on `requested_path`
/// use `required_permission`, with `policy` deciding below the modelled tree.
pub fn check_permission_with(
    user_permissions_tree: &Path,
    requested_path: &str,
    required_permission: u8,
    policy: Unmodeled,
) -> (r: bool)
    ensures
        r == admits(*user_permissions_tree, segments(requested_path@), required_permission, policy),
{
    let parts = split_segments(requested_path);
    assert(views(parts@).skip(0) =~= views(parts@));
    check_permission_recursive(user_permissions_tree, &parts, 0, required_permission, policy)
}

/// Decides whether `user_permissions_tree` lets a request on `requested_path`
/// use `required_permission`. A path that goes on below the deepest listed
/// node inherits the rights of that node.
pub fn check_permission(
    user_permissions_tree: &Path,
    requested_path: &str,
    required_permission: u8,
) -> (r: bool)
    ensures
        r == admits(
            *user_permissions_tree,
            segments(requested_path@),
            required_permission,
            Unmodeled::Inherit,
        ),
{
    check_permission_with(user_permissions_tree, requested_path, required_permission, Unmodeled::Inherit)
}

} // verus!
