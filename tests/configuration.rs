use fileshare::auth::{bearer_token, token_from_query, token_from_request};
use fileshare::access::{login, login_response, root_listing, LoginRequest, DEFAULT_PERMISSIONS};
use fileshare::config::{
    Config, ConfigFromFile, PathFromFile, UserFromFile, UserPermissionFromFile,
};
use fileshare::error::ConfigError;
use fileshare::resolve::check_permission;

fn root(name: &str, path: &str, permission: u8) -> PathFromFile {
    PathFromFile { path: path.to_string(), name: name.to_string(), permission }
}

fn user(name: &str, password: &str, grants: &[(&str, u8)]) -> UserFromFile {
    UserFromFile {
        username: name.to_string(),
        password: password.to_string(),
        permissions: grants
            .iter()
            .map(|(r, p)| UserPermissionFromFile { path_name: r.to_string(), permission: *p })
            .collect(),
    }
}

fn file(users: Vec<UserFromFile>, paths: Vec<PathFromFile>) -> ConfigFromFile {
    ConfigFromFile { users, paths, misc: None, debug: None }
}

#[test]
fn to_config_keeps_order_and_leaves_trees_empty() {
    let f = file(
        vec![user("ann", "pw", &[("docs", 2)])],
        vec![root("docs", "/docs", 4), root("pics", "/pics/?a|b?", 1)],
    );
    let c = f.to_config();
    assert_eq!(c.paths.len(), 2);
    assert_eq!(c.paths[0].name, "docs");
    assert_eq!(c.paths[1].name, "pics");
    assert_eq!(c.paths[1].path, "/pics/?a|b?");
    assert_eq!(c.paths[1].permission, 1);
    assert!(c.paths[1].sub_path.is_empty());
    assert_eq!(c.users[0].username, "ann");
    assert_eq!(c.users[0].permissions_tree.permission, 0);
    assert!(c.users[0].permissions_tree.sub_path.is_empty());
    assert_eq!(c.users[0].permissions_tree.path, "/");
    assert_eq!(c.users[0].permissions_tree.name, "root");
}

#[test]
fn to_config_orders_roots_by_name_and_keeps_last_declaration() {
    let f = file(
        vec![],
        vec![root("pics", "/p1", 1), root("docs", "/d", 4), root("pics", "/p2", 2)],
    );
    let c = f.to_config();
    assert_eq!(c.paths.len(), 2);
    assert_eq!(c.paths[0].name, "docs");
    assert_eq!(c.paths[1].name, "pics");
    assert_eq!(c.paths[1].path, "/p2");
    assert_eq!(c.paths[1].permission, 2);
}

#[test]
fn load_builds_user_trees() {
    let f = file(
        vec![user("ann", "pw", &[("docs", 2)]), user("bob", "pw2", &[])],
        vec![root("docs", "/docs", 4)],
    );
    let c = Config::from_config_file(&f).unwrap();
    let ann = c.get_user_config(&"ann".to_string()).unwrap();
    assert!(check_permission(&ann.permissions_tree, "", 2));
    assert!(!check_permission(&ann.permissions_tree, "", 1));
    assert_eq!(ann.permissions_tree.sub_path[0].permission, 6);
    let bob = c.get_user_config(&"bob".to_string()).unwrap();
    assert!(!check_permission(&bob.permissions_tree, "docs", 4));
    assert!(c.get_user_config(&"carl".to_string()).is_none());
    assert_eq!(c.get_path(&"docs".to_string()).unwrap().sub_path[0].name, "docs");
}

#[test]
fn duplicate_root_is_rejected() {
    let f = file(vec![], vec![root("docs", "/a", 4), root("docs", "/b", 4)]);
    match Config::from_config_file(&f) {
        Err(ConfigError::DuplicateRoot { name }) => assert_eq!(name, "docs"),
        _ => panic!("expected a duplicate root"),
    }
}

#[test]
fn unknown_root_is_rejected() {
    let f = file(vec![user("ann", "pw", &[("docs", 2), ("nope", 1)])], vec![root("docs", "/docs", 4)]);
    match Config::from_config_file(&f) {
        Err(ConfigError::UnknownRoot { name }) => assert_eq!(name, "nope"),
        _ => panic!("expected an unknown root"),
    }
}

#[test]
fn malformed_root_is_rejected() {
    let f = file(vec![], vec![root("ok", "/ok", 4), root("bad", "/x/?a|b", 4)]);
    match Config::from_config_file(&f) {
        Err(ConfigError::MalformedAlternation { segment }) => assert_eq!(segment, "?a|b"),
        _ => panic!("expected a malformed pattern"),
    }
}

#[test]
fn later_user_entry_wins() {
    let f = file(
        vec![user("ann", "old", &[]), user("ann", "new", &[("docs", 4)])],
        vec![root("docs", "/docs", 4)],
    );
    let c = Config::from_config_file(&f).unwrap();
    assert_eq!(c.get_user_config(&"ann".to_string()).unwrap().password, "new");
    assert!(c.credentials_valid(&"ann".to_string(), &"new".to_string()));
    assert!(!c.credentials_valid(&"ann".to_string(), &"old".to_string()));
}

#[test]
fn full_path_appends_request_path() {
    let f = file(vec![], vec![root("docs", "/srv/docs", 4)]);
    let c = Config::from_config_file(&f).unwrap();
    assert_eq!(c.full_path(&"docs".to_string(), &"/a.txt".to_string()), Some("/srv/docs/a.txt".to_string()));
    assert_eq!(c.full_path(&"docs".to_string(), &"".to_string()), Some("/srv/docs".to_string()));
    assert_eq!(c.full_path(&"none".to_string(), &"/a".to_string()), None);
}

#[test]
fn login_outcomes() {
    let f = file(vec![user("ann", "pw", &[])], vec![]);
    let c = Config::from_config_file(&f).unwrap();
    let ok = LoginRequest { username: "ann".to_string(), password: "pw".to_string() };
    let bad = LoginRequest { username: "ann".to_string(), password: "x".to_string() };
    let r = login_response(&c, &ok, "tok".to_string());
    assert!(r.success);
    assert_eq!(r.token, Some("tok".to_string()));
    let r = login_response(&c, &bad, "tok".to_string());
    assert!(!r.success);
    assert_eq!(r.token, None);
    let r = login(&c, &ok);
    assert!(r.success);
    let t = r.token.unwrap();
    assert_eq!(t.len(), 36);
    assert_eq!(t.matches('-').count(), 4);
    assert!(!login(&c, &bad).success);
}

#[test]
fn user_tree_is_rooted_at_slash() {
    let f = file(vec![user("ann", "pw", &[("docs", 2)])], vec![root("docs", "/docs", 4)]);
    let c = Config::from_config_file(&f).unwrap();
    let t = &c.get_user_config(&"ann".to_string()).unwrap().permissions_tree;
    assert_eq!(t.path, "/");
    assert_eq!(t.name, "root");
}

#[test]
fn listing_of_roots_is_in_name_order() {
    let f = file(vec![], vec![root("b", "/b", 4), root("a", "/a", 1), root("c", "/c", 2)]);
    let c = Config::from_config_file(&f).unwrap();
    let l = root_listing(&c.paths);
    let names: Vec<&str> = l.iter().map(|e| e.name.as_str()).collect();
    assert_eq!(names, vec!["a", "b", "c"]);
    assert_eq!(c.get_path(&"b".to_string()).unwrap().path, "/b");
}

#[test]
fn listing_of_roots() {
    let f = file(vec![], vec![root("docs", "/docs", 4), root("pics", "/pics", 1)]);
    let c = Config::from_config_file(&f).unwrap();
    let l = root_listing(&c.paths);
    assert_eq!(l.len(), 2);
    assert_eq!(l[0].name, "docs");
    assert_eq!(l[1].name, "pics");
    assert!(l[1].is_dir);
    assert_eq!(l[1].permissions, DEFAULT_PERMISSIONS);
    assert_eq!(l[1].size, 0);
}

#[test]
fn token_from_query_string() {
    assert_eq!(token_from_query("a=1&token=abc&token=def"), Some("abc".to_string()));
    assert_eq!(token_from_query("token=a=b"), Some("a".to_string()));
    assert_eq!(token_from_query("token="), Some("".to_string()));
    assert_eq!(token_from_query("tokens=x&b=2"), None);
    assert_eq!(token_from_query(""), None);
}

#[test]
fn bearer_header() {
    assert_eq!(bearer_token("Bearer xyz"), Some("xyz".to_string()));
    assert_eq!(bearer_token("Bearer "), Some("".to_string()));
    assert_eq!(bearer_token("bearer xyz"), None);
    assert_eq!(bearer_token("Basic xyz"), None);
}

#[test]
fn token_precedence() {
    assert_eq!(token_from_request(Some("Bearer a"), Some("b"), Some("token=c")), Some("a".to_string()));
    assert_eq!(token_from_request(Some("Basic a"), Some("b"), Some("token=c")), Some("b".to_string()));
    assert_eq!(token_from_request(None, None, Some("x=1&token=c")), Some("c".to_string()));
    assert_eq!(token_from_request(Some("Basic a"), None, Some("x=1")), None);
    assert_eq!(token_from_request(None, None, None), None);
}
