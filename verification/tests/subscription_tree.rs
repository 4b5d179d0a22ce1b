use lbroker::config::{SYSTEM_TOPIC_PREFIX, WILDCARD};
use lbroker::subscription_tree::SubscriptionTree;

#[test]
fn test_subscribe() {
    let mut st = SubscriptionTree::new();
    assert!(!st.is_subscribed("metrics"));
    st.subscribe("metrics");
    assert!(st.is_subscribed("metrics"));
}

#[test]
fn test_unsubscribe() {
    let mut st = SubscriptionTree::new();
    st.subscribe("metrics");
    assert!(st.is_subscribed("metrics"));
    st.unsubscribe("metrics").unwrap();
    assert!(st.is_empty());
    assert!(!st.is_subscribed("metrics"));
}

#[test]
fn subscription_tree_test_wildcard() {
    let mut st = SubscriptionTree::new();
    st.subscribe(&format!("{}", WILDCARD));
    assert!(st.is_subscribed("foo"));
}

#[test]
fn test_system_topics_filter() {
    let mut st = SubscriptionTree::new();
    st.subscribe(&format!("{}", WILDCARD));
    assert!(!st.is_subscribed(&format!("{}foo", SYSTEM_TOPIC_PREFIX)));
}

#[test]
fn subscription_root_wildcard_subscribes_plain_topics() {
    let mut st = SubscriptionTree::new();
    st.subscribe("*");
    assert!(st.is_subscribed(""));
    assert!(st.is_subscribed("a/b/c"));
    assert!(!st.is_subscribed("!metrics"));
}

#[test]
fn subscription_marker_pattern_reaches_system_topics() {
    let mut st = SubscriptionTree::new();
    st.subscribe("!*");
    assert!(st.is_subscribed("!metrics"));
    assert!(!st.is_subscribed("metrics"));
}

#[test]
fn subscription_unsubscribe_unknown_fails() {
    let mut st = SubscriptionTree::new();
    assert_eq!(st.unsubscribe("x"), Err("Not found"));
    st.subscribe("ab");
    assert_eq!(st.unsubscribe("ab"), Ok(()));
    assert!(st.is_empty());
    assert!(st.has_room());
}

#[test]
fn subscription_prefix_of_a_pattern_is_not_subscribed() {
    let mut st = SubscriptionTree::new();
    assert!(!st.is_subscribed(""));
    assert!(!st.is_subscribed("metrics"));
    st.subscribe("metrics");
    assert!(!st.is_subscribed("met"));
    assert!(!st.is_subscribed(""));
    assert!(st.is_subscribed("metrics"));
}

#[test]
fn subscription_unsubscribe_needs_a_stored_pattern() {
    let mut st = SubscriptionTree::new();
    st.subscribe("metrics");
    assert_eq!(st.unsubscribe("met"), Err("Not found"));
    assert!(st.is_subscribed("metrics"));
    assert!(!st.is_empty());
}

#[test]
fn subscription_marker_admits_every_system_topic() {
    let mut st = SubscriptionTree::new();
    st.subscribe("!");
    assert!(st.is_subscribed("!system/metrics/commands"));
    assert!(st.is_subscribed("!"));
    assert!(!st.is_subscribed("foo"));
    let mut all = SubscriptionTree::new();
    all.subscribe("*");
    assert!(all.is_subscribed("foo"));
    assert!(!all.is_subscribed("!system/metrics/commands"));
}

#[test]
fn subscription_further_patterns_keep_earlier_topics() {
    let mut st = SubscriptionTree::new();
    st.subscribe("a/*");
    st.subscribe("!");
    st.subscribe("a/b");
    st.subscribe("");
    assert!(st.is_subscribed("a/x"));
    assert!(st.is_subscribed("!anything"));
    assert!(st.is_subscribed("a/b"));
    assert!(st.is_subscribed(""));
}
