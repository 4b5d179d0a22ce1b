use lbroker::datagram::{publish_command, subscribe_command, unsubscribe_command, Command};
use lbroker::processor::{route, CommandProcessor, Route};
use rmpv::Value;

#[test]
fn forwards_only_subscribed_topics() {
    let mut p = CommandProcessor::new();
    assert!(!p.should_forward("a/b"));
    assert!(p.has_room());
    assert_eq!(p.handle_command(&subscribe_command("a/*")), None);
    assert!(p.should_forward("a/b"));
    assert!(!p.should_forward("b/a"));
}

#[test]
fn unsubscribing_an_unknown_pattern_warns() {
    let mut p = CommandProcessor::new();
    assert_eq!(p.handle_command(&unsubscribe_command("x")), Some("Not found"));
    p.handle_command(&subscribe_command("x"));
    assert!(p.should_forward("x"));
    assert_eq!(p.handle_command(&unsubscribe_command("x")), None);
    assert!(!p.should_forward("x"));
}

#[test]
fn publications_leave_subscriptions_alone() {
    let mut p = CommandProcessor::new();
    p.handle_command(&subscribe_command("t"));
    assert_eq!(p.handle_command(&publish_command("u", Value::from(1))), None);
    assert!(p.should_forward("t"));
    assert!(!p.should_forward("u"));
}

#[test]
fn commands_are_routed() {
    match route(publish_command("t", Value::from(true))) {
        Route::Broadcast(m) => assert_eq!(m.topic, "t"),
        _ => panic!("publication not broadcast"),
    }
    match route(subscribe_command("p")) {
        Route::Connection(Command::Subscribe { pattern }) => assert_eq!(pattern, "p"),
        _ => panic!("subscription not routed to the connection"),
    }
    match route(unsubscribe_command("p")) {
        Route::Connection(Command::Unsubscribe { pattern }) => assert_eq!(pattern, "p"),
        _ => panic!("unsubscription not routed to the connection"),
    }
}

#[test]
fn system_topics_need_a_marker_subscription() {
    let mut p = CommandProcessor::new();
    p.handle_command(&subscribe_command("*"));
    assert!(p.should_forward("foo"));
    assert!(!p.should_forward("!system/metrics/commands"));
    let mut q = CommandProcessor::new();
    q.handle_command(&subscribe_command("!"));
    assert!(q.should_forward("!system/metrics/commands"));
    assert!(!q.should_forward("foo"));
}
