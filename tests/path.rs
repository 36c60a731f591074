use bakelite_ssh_backend::path::{PathJoiner, SimplePath};

fn ancestors_of(raw: &str) -> Vec<String> {
    SimplePath::new(raw).ancestors()
}

#[test]
fn test_path_joiner() {
    let path = "/var/run\\example";
    let iter = SimplePath::split(path);
    let mut path_joiner = PathJoiner::new(iter);
    assert_eq!(path_joiner.next().as_deref(), Some("var"));
    assert_eq!(path_joiner.next().as_deref(), Some("/"));
    assert_eq!(path_joiner.next().as_deref(), Some("run"));
    assert_eq!(path_joiner.next().as_deref(), Some("/"));
    assert_eq!(path_joiner.next().as_deref(), Some("example"));
    assert_eq!(path_joiner.next(), None);
    assert_eq!(path_joiner.next(), None);
}

#[test]
fn test_empty_iter() {
    let iter: Vec<String> = "".split("/").take(0).map(|s| s.to_string()).collect();
    let mut path_joiner = PathJoiner::new(iter);
    assert_eq!(path_joiner.next(), None);
    assert_eq!(path_joiner.next(), None);
}

#[test]
fn test_join() {
    let p1 = SimplePath::new("/var/run/");
    let p2 = "test";
    let joined = p1.join(p2);
    assert_eq!(joined.as_str(), "/var/run/test");
}

#[test]
fn test_join_second_rooted() {
    let p1 = SimplePath::new("/var/run/");
    let p2 = "/test";
    let joined = p1.join(p2);
    assert_eq!(joined.as_str(), "/test");
}

#[test]
fn test_join_empty() {
    let p1 = SimplePath::new("/var/run/");
    let p2 = SimplePath::new("");
    let joined1 = p1.join(p2.as_str());
    let joined2 = p2.join(p1.as_str());
    assert_eq!(joined1.as_str(), "/var/run");
    assert_eq!(joined2.as_str(), "/var/run");
}

#[test]
fn test_ancestors() {
    let path = SimplePath::new("/var/run/tmp/dir/");
    assert_eq!(path.ancestors(), vec!["/var/run/tmp/dir", "/var/run/tmp", "/var/run", "/var", "/"]);

    let path = SimplePath::new("///var/run//tmp/dir////");
    assert_eq!(path.ancestors(), vec!["/var/run/tmp/dir", "/var/run/tmp", "/var/run", "/var", "/"]);

    let path = SimplePath::new("var/run//tmp/dir////");
    assert_eq!(path.ancestors(), vec!["var/run/tmp/dir", "var/run/tmp", "var/run", "var"]);

    let path = SimplePath::new("////");
    assert_eq!(path.ancestors(), vec!["/"]);

    let path = SimplePath::new("");
    assert_eq!(path.ancestors(), vec![""]);
}

#[test]
fn parse_mixed_separators() {
    assert_eq!(SimplePath::new("a\\\\b//c\\").as_str(), "a/b/c");
    assert_eq!(SimplePath::new("//x\\y/").as_str(), "/x/y");
    assert_eq!(SimplePath::new("\\x").as_str(), "/x");
    assert_eq!(SimplePath::new("\\").as_str(), "/");
    assert_eq!(SimplePath::new("////").as_str(), "/");
    assert_eq!(SimplePath::new("").as_str(), "");
}

#[test]
fn parse_twice_is_parse_once() {
    for raw in ["a\\\\b//c\\", "//x\\y/", "\\/\\", "/", "", "é/ü\\ß"] {
        let once = SimplePath::new(raw);
        let twice = SimplePath::new(once.as_str());
        assert_eq!(once.as_str(), twice.as_str());
    }
}

#[test]
fn join_rooted_right_side_wins() {
    for base in ["", "/", "a/b", "/srv\\data"] {
        let joined = SimplePath::new(base).join("//etc\\\\conf/");
        assert_eq!(joined.as_str(), "/etc/conf");
    }
}

#[test]
fn join_backslash_rooted_right_side_wins() {
    assert_eq!(SimplePath::new("/srv").join("\\etc/x").as_str(), "/etc/x");
}

#[test]
fn join_absorbs_empty_operands() {
    assert_eq!(SimplePath::new("a\\b/").join("").as_str(), "a/b");
    assert_eq!(SimplePath::new("").join("x//y").as_str(), "x/y");
    assert_eq!(SimplePath::new("").join("").as_str(), "");
}

#[test]
fn join_onto_root_adds_one_separator() {
    assert_eq!(SimplePath::new("/").join("x").as_str(), "/x");
    assert_eq!(SimplePath::new("base").join("x\\y").as_str(), "base/x/y");
}

#[test]
fn ancestors_of_single_segments() {
    assert_eq!(ancestors_of("var"), vec!["var"]);
    assert_eq!(ancestors_of("/var"), vec!["/var", "/"]);
}

#[test]
fn split_drops_empty_segments() {
    assert_eq!(SimplePath::split("//a\\\\bc/d/"), vec!["a", "bc", "d"]);
    assert!(SimplePath::split("/\\/").is_empty());
    assert!(SimplePath::split("").is_empty());
}

#[test]
fn joiner_over_one_part() {
    let mut j = PathJoiner::new(vec!["only".to_string()]);
    assert_eq!(j.next().as_deref(), Some("only"));
    assert_eq!(j.next(), None);
}

#[test]
fn joiner_tokens_rebuild_parsed_path() {
    let raw = "\\usr//local\\bin/";
    let mut j = PathJoiner::new(SimplePath::split(raw));
    let mut joined = String::new();
    while let Some(t) = j.next() {
        joined.push_str(&t);
    }
    assert_eq!(joined, "usr/local/bin");
    assert_eq!(SimplePath::new(raw).as_str(), format!("/{}", joined));
    assert_eq!(SimplePath::new("usr//local\\bin/").as_str(), joined);
}
