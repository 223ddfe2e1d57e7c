use fileshare::bits::{READ_MASK, VIEW_MASK, WRITE_MASK};
use fileshare::resolve::{check_permission, check_permission_with, Unmodeled};
use fileshare::tree::Path;

fn node(path: &str, name: &str, permission: u8) -> Path {
    Path { path: path.to_string(), name: name.to_string(), permission, sub_path: Vec::new() }
}

fn built(name: &str, pattern: &str, permission: u8) -> Path {
    let mut p = node(pattern, name, permission);
    p.extract_sub_paths().unwrap();
    p
}

fn user_tree(grants: &[(&Path, u8)]) -> Path {
    let mut t = node("/", "root", 0);
    for (root, bits) in grants {
        t.merge_path(root, *bits);
    }
    t
}

#[test]
fn docs_example() {
    let docs = built("docs", "/docs", READ_MASK);
    let t = user_tree(&[(&docs, WRITE_MASK)]);
    assert_eq!(t.sub_path[0].name, "docs");
    assert_eq!(t.sub_path[0].permission, READ_MASK | WRITE_MASK);
    assert!(check_permission(&t, "", WRITE_MASK));
    assert!(!check_permission(&t, "", VIEW_MASK));
    assert!(check_permission(&t, "docs", WRITE_MASK));
    assert!(!check_permission(&t, "docs", READ_MASK));
}

#[test]
fn ancestor_without_bit_blocks_descendant() {
    let mut t = node("/", "root", READ_MASK);
    let mut a = node("/a", "a", READ_MASK);
    a.sub_path.push(node("/a/b", "b", READ_MASK | WRITE_MASK));
    t.sub_path.push(a);
    assert!(t.sub_path[0].sub_path[0].can_write());
    assert!(!check_permission(&t, "a/b", WRITE_MASK));
    assert!(!check_permission(&t, "/a/b/", WRITE_MASK));
    assert!(check_permission(&t, "a/b", READ_MASK));
}

#[test]
fn required_mask_needs_every_bit() {
    let t = node("/", "root", READ_MASK | VIEW_MASK);
    assert!(check_permission(&t, "", READ_MASK | VIEW_MASK));
    assert!(!check_permission(&t, "", READ_MASK | WRITE_MASK));
    assert!(check_permission(&t, "", 0));
}

#[test]
fn unmodeled_subtree_follows_policy() {
    let docs = built("docs", "/docs/listed", READ_MASK);
    let t = user_tree(&[(&docs, READ_MASK)]);
    for _ in 0..3 {
        assert!(check_permission(&t, "docs/unlisted/deep", READ_MASK));
        assert!(check_permission(&t, "docs/other/deeper", READ_MASK));
        assert!(!check_permission_with(&t, "docs/unlisted/deep", READ_MASK, Unmodeled::Deny));
        assert!(!check_permission_with(&t, "docs/other/deeper", READ_MASK, Unmodeled::Deny));
    }
    assert!(check_permission_with(&t, "docs/listed", READ_MASK, Unmodeled::Deny));
    assert!(check_permission_with(&t, "docs/listed/below", READ_MASK, Unmodeled::Inherit));
    assert!(!check_permission(&t, "docs/unlisted", WRITE_MASK));
}

#[test]
fn inherit_uses_deepest_reached_node() {
    let mut t = node("/", "root", READ_MASK);
    t.sub_path.push(node("/x", "x", WRITE_MASK));
    assert!(!check_permission(&t, "x/anything", READ_MASK));
    assert!(check_permission(&t, "y/anything", READ_MASK));
}
