use lbroker::config::WILDCARD;
use lbroker::glob_tree::Node;
use lbroker::broker_glob_tree::GlobTree;

#[test]
fn glob_tree_test_check() {
    let mut t = GlobTree::new();
    assert!(!t.check("metrics"));
    t.insert("metrics");
    assert!(t.check("metrics"));
}

#[test]
fn glob_tree_test_remove() {
    let mut t = GlobTree::new();
    t.insert("metrics");
    assert!(t.check("metrics"));
    t.remove("metrics").unwrap();
    assert!(t.is_empty());
    assert!(!t.check("metrics"));
}

#[test]
fn glob_tree_test_wildcard() {
    let mut t = GlobTree::new();
    t.insert(&WILDCARD.to_string());
    assert!(t.check("foo"));
}

#[test]
fn glob_tree_test_inner_wildcard() {
    let mut t = GlobTree::new();
    t.insert(&format!("fooo{}ar", WILDCARD));
    assert!(t.check("fooozar"));
    assert!(t.check("fooo/zbasfjadfasldfjah/ar"));
    assert!(!t.check("fooo/zbasfjadfasldfjah/"));
    assert!(!t.check("fooozarnt"));
}

#[test]
fn glob_tree_test_partial_match() {
    let mut t = GlobTree::new();
    t.insert("testing");
    assert!(!t.check("test"));
}

#[test]
fn glob_tree_test_check_with_overlapping() {
    let mut t = GlobTree::new();
    t.insert("testing");
    t.insert("test");
    assert!(t.check("test"));
}

#[test]
fn glob_tree_test_contains() {
    let mut t = GlobTree::new();
    t.insert("testing");
    assert!(t.contains("testing"));
}

#[test]
fn glob_tree_test_doesnt_contain_substring() {
    let mut t = GlobTree::new();
    t.insert("testing");
    assert!(!t.contains("test"));
}

#[test]
fn glob_tree_node_list_strings() {
    let mut a = Node::new(Some('a'));
    let mut b = Node::new(Some('b'));
    let mut c = Node::new(Some('c'));
    let b2 = Node::new(Some('b'));
    let d = Node::new(Some('d'));
    // c included 2 times
    c.insert_child(d);
    c.increment_count();

    // b included three times (the node, not the character 'b')
    b.insert_child(c);
    b.insert_child(b2);
    b.increment_count();
    b.increment_count();

    // a included three times
    a.insert_child(b);
    a.increment_count();
    a.increment_count();
    assert_eq!(a.list_strings(), vec!["abb", "abc", "abcd"]);
}

#[test]
fn glob_tree_test_list() {
    let mut t = GlobTree::new();
    let mut patterns = vec![".venv", ".DS_STORE", "~/Documents/Important/2024/*", "*.exe"];
    for pattern in &patterns {
        t.insert(pattern);
    }
    assert_eq!(patterns.sort(), t.list().sort());
}

#[test]
fn glob_tree_test_node_child_count() {
    let mut node = Node::new(Some('a'));
    assert_eq!(node.child_count(), 0);
    node.insert_child(Node::new(Some('b')));
    assert_eq!(node.child_count(), 1);
}

#[test]
fn broker_tree_insert_then_remove_restores_tree() {
    let mut t = GlobTree::new();
    t.insert("metrics/*");
    t.remove("metrics/*").unwrap();
    assert!(t.is_empty());
    assert!(!t.check("metrics/a"));
    assert!(t.has_room());
}

#[test]
fn broker_tree_stored_patterns_accept_themselves() {
    let mut t = GlobTree::new();
    for p in ["a*b", "ab", "a", "*x"] {
        t.insert(p);
    }
    for p in ["a*b", "ab", "a", "*x"] {
        assert!(t.check(p));
    }
}

#[test]
fn broker_tree_checks_every_stored_pattern() {
    let mut t = GlobTree::new();
    t.insert("*");
    t.insert("ab");
    assert!(t.check("xyz"));
    assert!(t.check("abc"));
    let mut u = GlobTree::new();
    u.insert("a*");
    u.insert("ab");
    assert!(u.check("abc"));
    assert!(u.check("ab"));
    assert!(!u.check("b"));
}

#[test]
fn broker_tree_remove_unknown_pattern_fails() {
    let mut t = GlobTree::new();
    t.insert("abc");
    assert_eq!(t.remove("ab"), Err("Not found"));
    assert!(t.contains("abc"));
}

#[test]
fn broker_tree_wildcard_stands_for_any_run() {
    let mut t = GlobTree::new();
    t.insert("a*c");
    assert!(t.check("abbc"));
    assert!(t.check("abc"));
    assert!(t.check("ac"));
    assert!(!t.check("abd"));
}

#[test]
fn broker_tree_question_mark_is_literal() {
    let mut t = GlobTree::new();
    t.insert("a?");
    assert!(t.check("a?"));
    assert!(!t.check("ab"));
}

#[test]
fn broker_tree_new_holds_no_pattern() {
    let mut t = GlobTree::new();
    assert!(t.is_empty());
    assert!(t.list().is_empty());
    assert!(!t.check(""));
    assert!(!t.check("metrics"));
    t.insert("");
    assert!(t.check(""));
    assert_eq!(t.list(), vec!["".to_string()]);
    assert!(!t.check("x"));
}

#[test]
fn broker_tree_without_wildcards_accepts_exactly_the_patterns() {
    let mut t = GlobTree::new();
    t.insert("testing");
    t.insert("test");
    assert!(!t.check("tes"));
    assert!(t.check("test"));
    assert!(t.check("testing"));
    assert!(!t.check("testings"));
    assert!(!t.check("tester"));
}
