use fileshare::tree::Path;

fn node(path: &str, name: &str, permission: u8) -> Path {
    Path { path: path.to_string(), name: name.to_string(), permission, sub_path: Vec::new() }
}

fn built(name: &str, pattern: &str, permission: u8) -> Path {
    let mut p = node(pattern, name, permission);
    p.extract_sub_paths().unwrap();
    p
}

fn flatten(p: &Path, prefix: &str, out: &mut Vec<(String, u8)>) {
    out.push((prefix.to_string(), p.permission));
    for c in &p.sub_path {
        flatten(c, &format!("{}/{}", prefix, c.name), out);
    }
}

fn entries(p: &Path) -> Vec<(String, u8)> {
    let mut out = Vec::new();
    flatten(p, "", &mut out);
    out.sort();
    out
}

fn user_root() -> Path {
    node("/", "root", 0)
}

#[test]
fn merge_adds_root_and_grant_bits() {
    let docs = built("docs", "/docs", 0b100);
    let mut t = user_root();
    t.merge_path(&docs, 0b010);
    assert_eq!(entries(&t), vec![("".to_string(), 0b010), ("/docs".to_string(), 0b110)]);
    assert_eq!(t.name, "root");
    assert_eq!(t.path, "/");
}

#[test]
fn merge_never_revokes() {
    let docs = built("docs", "/docs", 0b100);
    let pics = built("pics", "/docs/pics", 0b001);
    let mut t = user_root();
    t.merge_path(&docs, 0b010);
    let after_first = entries(&t);
    t.merge_path(&pics, 0b000);
    t.merge_path(&docs, 0b000);
    for (k, bits) in after_first {
        let now = entries(&t).into_iter().find(|(k2, _)| *k2 == k).unwrap().1;
        assert_eq!(now & bits, bits);
    }
    assert_eq!(
        entries(&t),
        vec![
            ("".to_string(), 0b010),
            ("/docs".to_string(), 0b110),
            ("/docs/pics".to_string(), 0b001),
        ]
    );
}

#[test]
fn merge_order_does_not_matter() {
    let g1 = built("docs", "/docs/?en|fr?", 0b100);
    let g2 = built("share", "/docs/en/public", 0b011);
    let mut a = user_root();
    a.merge_path(&g1, 0b001);
    a.merge_path(&g2, 0b100);
    let mut b = user_root();
    b.merge_path(&g2, 0b100);
    b.merge_path(&g1, 0b001);
    assert_eq!(entries(&a), entries(&b));
    assert_eq!(
        entries(&a),
        vec![
            ("".to_string(), 0b101),
            ("/docs".to_string(), 0b101),
            ("/docs/en".to_string(), 0b101),
            ("/docs/en/public".to_string(), 0b111),
            ("/docs/fr".to_string(), 0b101),
        ]
    );
}

#[test]
fn merging_twice_is_merging_once() {
    let g = built("docs", "/docs/?a|b?", 0b100);
    let mut once = user_root();
    once.merge_path(&g, 0b010);
    let mut twice = user_root();
    twice.merge_path(&g, 0b010);
    twice.merge_path(&g, 0b010);
    assert_eq!(entries(&once), entries(&twice));
}

#[test]
fn merge_keeps_destination_only_children() {
    let a = built("a", "/a", 0b100);
    let b = built("b", "/b", 0b010);
    let mut t = user_root();
    t.merge_path(&a, 0);
    t.merge_path(&b, 0);
    assert_eq!(
        entries(&t),
        vec![("".to_string(), 0), ("/a".to_string(), 0b100), ("/b".to_string(), 0b010)]
    );
}

#[test]
fn merge_keeps_untouched_nodes_and_paths() {
    let a = built("a", "/a/x", 0b100);
    let b = built("b", "/a/y", 0b010);
    let mut t = user_root();
    t.merge_path(&a, 0);
    assert_eq!(t.sub_path[0].path, "/a/x/a");
    assert_eq!(t.sub_path[0].sub_path[0].path, "/a/x/a/x");
    t.merge_path(&b, 0);
    let a_node = &t.sub_path[0];
    assert_eq!(a_node.path, "/a/x/a");
    assert_eq!(a_node.sub_path.len(), 2);
    assert_eq!(a_node.sub_path[0].name, "x");
    assert_eq!(a_node.sub_path[0].path, "/a/x/a/x");
    assert_eq!(a_node.sub_path[0].permission, 0b100);
    assert_eq!(a_node.sub_path[1].name, "y");
    assert_eq!(a_node.sub_path[1].path, "/a/y/a/y");
}
