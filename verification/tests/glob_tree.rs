use lbroker::config::WILDCARD;
use lbroker::glob_tree::{GlobTree, Node};

#[test]
fn lib_test_check() {
    let mut t = GlobTree::new();
    assert!(!t.check("metrics"));
    t.insert("metrics");
    assert!(t.check("metrics"));
}

#[test]
fn lib_test_remove() {
    let mut t = GlobTree::new();
    t.insert("metrics");
    assert!(t.check("metrics"));
    t.remove("metrics").unwrap();
    assert!(t.is_empty());
    assert!(!t.check("metrics"));
}

#[test]
fn test_wildcard_simple() {
    let mut t = GlobTree::new();
    t.insert(&WILDCARD.to_string());
    assert!(t.check("foo"));
}

#[test]
fn lib_test_inner_wildcard() {
    let mut t = GlobTree::new();
    let pattern = format!("fooo{}ar", WILDCARD);
    t.insert(&pattern);
    assert!(t.check("fooozar"));
    assert!(t.check("fooo/zbasfjadfasldfjah/ar"));
    assert!(!t.check("fooo/zbasfjadfasldfjah/"));
    assert!(!t.check("fooozarnt"));
}

#[test]
fn lib_test_partial_match() {
    let mut t = GlobTree::new();
    t.insert("testing");
    assert!(!t.check("test"));
}

#[test]
fn lib_test_check_with_overlapping() {
    let mut t = GlobTree::new();
    t.insert("testing");
    t.insert("test");
    assert!(t.check("test"));
}

#[test]
fn lib_test_contains() {
    let mut t = GlobTree::new();
    t.insert("testing");
    assert!(t.contains("testing"));
}

#[test]
fn lib_test_doesnt_contain_substring() {
    let mut t = GlobTree::new();
    t.insert("testing");
    assert!(!t.contains("test"));
}

#[test]
fn lib_node_list_strings() {
    let mut a = Node::new(Some('a'));
    let mut b = Node::new(Some('b'));
    let mut c = Node::new(Some('c'));
    let b2 = Node::new(Some('b'));
    let d = Node::new(Some('d'));
    // c included 2 times
    c.insert_child(d);
    c.increment_count();

    // b included three times (the node, not the character 'b')
    b.insert_child(c);
    b.insert_child(b2);
    b.increment_count();
    b.increment_count();

    // a included three times
    a.insert_child(b);
    a.increment_count();
    a.increment_count();
    assert_eq!(a.list_strings(), vec!["abb", "abc", "abcd"]);
}

#[test]
#[allow(clippy::unit_cmp)]
fn lib_test_list() {
    let mut t = GlobTree::new();
    let mut patterns = vec![".venv", ".DS_STORE", "~/Documents/Important/2024/*", "*.exe"];
    for pattern in &patterns {
        t.insert(pattern);
    }
    assert_eq!(patterns.sort(), t.list().sort());
}

#[test]
fn lib_test_node_child_count() {
    let mut node = Node::new(Some('a'));
    assert_eq!(node.child_count(), 0);
    node.insert_child(Node::new(Some('b')));
    assert_eq!(node.child_count(), 1);
}

#[test]
fn test_fixed_length_wildcard_simple() {
    let mut t = GlobTree::new();
    t.insert("ab?d");
    assert!(t.check("abcd"));
    assert!(!t.check("abccd"));
}

#[test]
fn test_fixed_length_wildcard_overlapping_variable_length_wildcard() {
    let mut t = GlobTree::new();
    t.insert("ab?d");
    t.insert("ab*");
    assert!(t.check("abcd"));
    assert!(t.check("abccd"));
}

#[test]
fn test_empty_string_matches_empty_pattern() {
    let mut t = GlobTree::new();
    t.insert("");
    assert!(t.check(""));
}

#[test]
fn lib_insert_then_remove_restores_patterns() {
    let mut t = GlobTree::new();
    t.insert("ab");
    let before = t.list();
    t.insert("abcd");
    assert!(t.contains("abcd"));
    t.remove("abcd").unwrap();
    assert_eq!(t.list(), before);
    assert!(!t.contains("abcd"));
    assert!(t.contains("ab"));
}

#[test]
fn lib_remove_unknown_pattern_fails() {
    let mut t = GlobTree::new();
    t.insert("abc");
    assert_eq!(t.remove("ab"), Err("Not found"));
    assert!(t.contains("abc"));
}

#[test]
fn lib_find_match_names_a_matching_pattern() {
    let mut t = GlobTree::new();
    assert_eq!(t.find_match("foo"), None);
    t.insert("f?o");
    t.insert("bar*");
    assert_eq!(t.find_match("foo"), Some("f?o".to_string()));
    assert_eq!(t.find_match("barbell"), Some("bar*".to_string()));
    assert_eq!(t.find_match("bar"), Some("bar*".to_string()));
    assert_eq!(t.find_match("baz"), None);
    assert!(t.has_room());
}

#[test]
fn lib_patterns_match_themselves() {
    let mut t = GlobTree::new();
    for p in ["a*b", "??", "*", "x?y*z"] {
        t.insert(p);
        assert!(t.check(p));
    }
}

#[test]
fn lib_single_wildcard_matches_one_character() {
    let mut t = GlobTree::new();
    t.insert("?");
    assert!(t.check("a"));
    assert!(!t.check(""));
    assert!(!t.check("ab"));
}

#[test]
fn lib_wildcard_matches_an_empty_run() {
    let mut t = GlobTree::new();
    t.insert("*");
    assert!(t.check(""));
    assert!(t.check("x"));
    let mut u = GlobTree::new();
    u.insert("fo*l");
    assert!(u.check("fol"));
    assert!(u.check("fool"));
    assert!(!u.check("fo"));
    let mut v = GlobTree::new();
    v.insert("foo*");
    assert!(v.check("foo"));
}

#[test]
fn lib_every_stored_pattern_stays_contained() {
    let mut t = GlobTree::new();
    t.insert("ab");
    t.insert("ac");
    t.insert("a");
    assert!(t.contains("a"));
    assert!(t.contains("ab"));
    assert!(t.contains("ac"));
    assert!(t.check("a"));
    let mut u = GlobTree::new();
    u.insert("");
    u.insert("a");
    assert!(u.contains(""));
    assert!(u.check(""));
    assert!(u.check("a"));
    let mut w = GlobTree::new();
    w.insert("a");
    w.insert("ab");
    w.insert("ac");
    assert!(w.contains("a"));
}

#[test]
fn lib_remove_right_after_insert_restores_the_tree() {
    let mut t = GlobTree::new();
    t.insert("a");
    t.remove("a").unwrap();
    assert!(t.is_empty());
    assert!(!t.contains("a"));
    let mut u = GlobTree::new();
    u.insert("ab");
    u.insert("abc");
    u.remove("abc").unwrap();
    assert_eq!(u.list(), vec!["ab".to_string()]);
    assert!(!u.check("abc"));
    assert!(u.check("ab"));
}

#[test]
fn lib_matching_compares_characters() {
    let mut t = GlobTree::new();
    t.insert("é");
    assert!(t.contains("é"));
    assert!(t.check("é"));
    let mut u = GlobTree::new();
    u.insert("?");
    assert!(u.check("é"));
    assert!(!u.check("éé"));
}

#[test]
fn lib_new_tree_holds_no_pattern() {
    let t = GlobTree::new();
    assert!(t.is_empty());
    assert!(t.list().is_empty());
    assert!(!t.check(""));
    assert!(!t.contains(""));
}

#[test]
fn lib_default_tree_is_empty() {
    let mut t = GlobTree::default();
    assert!(t.is_empty());
    assert!(!t.check("a"));
    t.insert("a");
    assert!(t.check("a"));
}

#[test]
fn lib_clone_holds_the_same_patterns() {
    let mut t = GlobTree::new();
    t.insert("a*");
    t.insert("ab");
    t.insert("ab");
    let mut u = t.clone();
    assert_eq!(u.list(), t.list());
    assert!(u.check("axyz"));
    u.remove("ab").unwrap();
    assert!(u.contains("ab"));
    u.remove("ab").unwrap();
    assert!(!u.contains("ab"));
    assert!(t.contains("ab"));
    let mut n = Node::new(Some('a'));
    n.insert_child(Node::new(Some('b')));
    let m = n.clone();
    assert_eq!(m.list_strings(), n.list_strings());
    assert_eq!(m.child_count(), 1);
}

#[test]
fn lib_history_of_changes_decides_matches() {
    let mut t = GlobTree::new();
    t.insert("a*");
    t.insert("b?");
    t.insert("a*");
    assert_eq!(t.remove("a*"), Ok(()));
    assert!(t.check("abc"));
    assert_eq!(t.remove("a*"), Ok(()));
    assert!(!t.check("abc"));
    assert_eq!(t.remove("a*"), Err("Not found"));
    assert!(t.check("bx"));
    assert!(!t.check("b"));
    t.insert("*");
    assert!(t.check(""));
    assert_eq!(t.remove("b?"), Ok(()));
    assert_eq!(t.remove("*"), Ok(()));
    assert!(t.is_empty());
    assert!(!t.check("bx"));
}
