use fileshare::error::ConfigError;
use fileshare::pattern::parse_segment;
use fileshare::segments::split_segments;
use fileshare::tree::Path;

fn node(path: &str, name: &str, permission: u8) -> Path {
    Path { path: path.to_string(), name: name.to_string(), permission, sub_path: Vec::new() }
}

fn flatten(p: &Path, prefix: &str, out: &mut Vec<(String, u8)>) {
    out.push((prefix.to_string(), p.permission));
    for c in &p.sub_path {
        flatten(c, &format!("{}/{}", prefix, c.name), out);
    }
}

fn entries(p: &Path) -> Vec<(String, u8)> {
    let mut out = Vec::new();
    flatten(p, "", &mut out);
    out.sort();
    out
}

fn built(pattern: &str, permission: u8) -> Path {
    let mut p = node(pattern, "root", permission);
    p.extract_sub_paths().unwrap();
    p
}

#[test]
fn split_drops_empty_pieces() {
    let parts = split_segments("//docs///en/");
    assert_eq!(parts, vec!["docs".to_string(), "en".to_string()]);
    assert!(split_segments("").is_empty());
    assert!(split_segments("///").is_empty());
    assert_eq!(split_segments("文档/a"), vec!["文档".to_string(), "a".to_string()]);
}

#[test]
fn segment_alternatives() {
    assert_eq!(parse_segment(&"docs".to_string()), Some(vec!["docs".to_string()]));
    assert_eq!(
        parse_segment(&"?en|fr|de?".to_string()),
        Some(vec!["en".to_string(), "fr".to_string(), "de".to_string()])
    );
    assert_eq!(parse_segment(&"?".to_string()), None);
    assert_eq!(parse_segment(&"??".to_string()), None);
    assert_eq!(parse_segment(&"?a||b?".to_string()), None);
    assert_eq!(parse_segment(&"?a|b".to_string()), None);
    assert_eq!(parse_segment(&"a?b".to_string()), None);
    assert_eq!(parse_segment(&"?a?b?".to_string()), None);
}

#[test]
fn build_is_deterministic() {
    let a = built("/docs/?en|fr|de?/public", 0b110);
    let b = built("/docs/?en|fr|de?/public", 0b110);
    assert_eq!(entries(&a), entries(&b));
    assert_eq!(a.name, "root");
    assert_eq!(a.path, "/docs/?en|fr|de?/public");
}

#[test]
fn alternation_reaches_every_sibling() {
    let t = built("/a/?x|y|z?/b", 0b110);
    let e = entries(&t);
    let expected: Vec<(String, u8)> = vec![
        ("".to_string(), 0),
        ("/a".to_string(), 0),
        ("/a/x".to_string(), 0),
        ("/a/x/b".to_string(), 0b110),
        ("/a/y".to_string(), 0),
        ("/a/y/b".to_string(), 0b110),
        ("/a/z".to_string(), 0),
        ("/a/z/b".to_string(), 0b110),
    ];
    assert_eq!(e, expected);
    let leaves_with_rw: Vec<&(String, u8)> = e.iter().filter(|(_, p)| *p == 0b110).collect();
    assert_eq!(leaves_with_rw.len(), 3);
}

#[test]
fn child_paths_join_parent_path() {
    let t = built("/a/?x|y?", 0b100);
    let a = &t.sub_path[0];
    assert_eq!(a.name, "a");
    assert_eq!(a.path, "/a/?x|y?/a");
    assert_eq!(a.sub_path[0].path, "/a/?x|y?/a/x");
}

#[test]
fn empty_pattern_grants_the_root() {
    let t = built("/", 0b101);
    assert_eq!(entries(&t), vec![("".to_string(), 0b101)]);
    let t2 = built("", 0b001);
    assert_eq!(entries(&t2), vec![("".to_string(), 0b001)]);
}

#[test]
fn final_alternation_grants_all_alternatives() {
    let t = built("/?en|fr?", 0b100);
    assert_eq!(
        entries(&t),
        vec![("".to_string(), 0), ("/en".to_string(), 0b100), ("/fr".to_string(), 0b100)]
    );
}

#[test]
fn repeated_alternative_gives_one_child() {
    let t = built("/?a|a|b?", 0b010);
    assert_eq!(t.sub_path.len(), 2);
}

#[test]
fn malformed_alternation_is_reported() {
    let mut p = node("/docs/?en|/x?y", "docs", 0b100);
    let r = p.extract_sub_paths();
    assert_eq!(r, Err(ConfigError::MalformedAlternation { segment: "?en|".to_string() }));
    assert!(p.sub_path.is_empty());
    assert_eq!(p.permission, 0b100);

    let mut q = node("/docs/?", "docs", 0b100);
    assert_eq!(
        q.extract_sub_paths(),
        Err(ConfigError::MalformedAlternation { segment: "?".to_string() })
    );
    let mut s = node("/?a||b?", "docs", 0b100);
    assert_eq!(
        s.extract_sub_paths(),
        Err(ConfigError::MalformedAlternation { segment: "?a||b?".to_string() })
    );
}

#[test]
fn single_bit_accessors() {
    let p = node("/", "n", 0b101);
    assert!(p.can_read());
    assert!(!p.can_write());
    assert!(p.can_view());
    let q = node("/", "n", 0b010);
    assert!(!q.can_read());
    assert!(q.can_write());
    assert!(!q.can_view());
}
