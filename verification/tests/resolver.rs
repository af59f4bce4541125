use dev_env::proto::Project;
use dev_env::resolve::find_project;

fn p(root: &str) -> Project {
    Project::new(root.to_string(), "cmd".to_string(), vec![])
}

#[test]
fn first_match_wins_over_more_specific_root() {
    // Descriptors [{root:"/a"}, {root:"/a/b"}] and current path "/a/b/c":
    // the first match wins even though "/a/b" is the more specific root.
    let projects = vec![p("/a"), p("/a/b")];
    let found = find_project("/a/b/c", &projects).expect("a descriptor must match");
    assert_eq!(found.root, "/a");
}

#[test]
fn order_encodes_priority() {
    let projects = vec![p("/a/b"), p("/a")];
    let found = find_project("/a/b/c", &projects).expect("a descriptor must match");
    assert_eq!(found.root, "/a/b");
}

#[test]
fn no_match_returns_none() {
    let projects = vec![p("/x"), p("/y/z")];
    assert!(find_project("/a/b/c", &projects).is_none());
}

#[test]
fn empty_descriptor_list_returns_none() {
    let projects: Vec<Project> = vec![];
    assert!(find_project("/a", &projects).is_none());
}

#[test]
fn exact_root_matches() {
    let projects = vec![p("/home/user/proj")];
    let found = find_project("/home/user/proj", &projects).unwrap();
    assert_eq!(found.root, "/home/user/proj");
}

#[test]
fn prefix_is_bytewise_not_component_aware() {
    // The resolver matches string prefixes, as the original did: "/a"
    // matches "/ab" too.
    let projects = vec![p("/a")];
    assert!(find_project("/ab", &projects).is_some());
}

#[test]
fn non_ascii_paths_match_whole_characters_only() {
    let projects = vec![p("/wörk")];
    assert!(find_project("/wörkspace", &projects).is_some());
    assert!(find_project("/w", &projects).unwrap_or(p("none")).root != "/wörk");
}

#[test]
fn resolved_descriptor_is_a_faithful_copy() {
    let d = Project::new(
        "/a".to_string(),
        "server".to_string(),
        vec!["--stdio".to_string(), "-v".to_string()],
    );
    let projects = vec![d];
    let found = find_project("/a/src", &projects).unwrap();
    assert_eq!(found.root, "/a");
    assert_eq!(found.command, "server");
    assert_eq!(found.args, vec!["--stdio".to_string(), "-v".to_string()]);
}
