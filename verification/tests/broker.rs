use lbroker::broker::{admits_topic, has_prefix, ConnectionTopics, TopicRegistry};

#[test]
fn topic_creation_and_subscription() {
    let mut bus: TopicRegistry<Vec<u8>> = TopicRegistry::new();
    assert!(bus.create_topic("test.topic"));
    assert!(!bus.create_topic("test.topic"));
    let last = bus.subscribe_to_topic("test.topic");
    assert!(matches!(last, Some(None)));
    assert!(bus.list_topics().contains(&"test.topic".to_string()));
    assert!(bus.subscribe_to_topic("missing").is_none());
}

#[test]
fn send_creates_topic() {
    let mut bus: TopicRegistry<Vec<u8>> = TopicRegistry::new();
    assert!(bus.send("auto.created.topic", vec![1, 2, 3, 4]));
    assert!(bus.contains("auto.created.topic"));
    assert!(bus.list_topics().contains(&"auto.created.topic".to_string()));
    assert!(!bus.send("auto.created.topic", vec![5]));
}

#[test]
fn last_message_is_kept_for_late_subscribers() {
    let mut bus: TopicRegistry<Vec<u8>> = TopicRegistry::new();
    bus.create_topic("buffered.topic");
    bus.send("buffered.topic", vec![1, 2, 3]);
    bus.send("buffered.topic", vec![4, 5, 6]);
    bus.send("buffered.topic", vec![7, 8, 9]);
    match bus.subscribe_to_topic("buffered.topic") {
        Some(Some(m)) => assert_eq!(*m, vec![7, 8, 9]),
        _ => panic!("no buffered message"),
    }
    bus.send("other", vec![0]);
    match bus.subscribe_to_topic("buffered.topic") {
        Some(Some(m)) => assert_eq!(*m, vec![7, 8, 9]),
        _ => panic!("message lost"),
    }
    assert_eq!(bus.list_topics().len(), 2);
}

#[test]
fn new_topic_matching_a_pattern_is_received() {
    let mut bus: TopicRegistry<Vec<u8>> = TopicRegistry::new();
    let mut conn = ConnectionTopics::new();
    let added = conn.handle_subscribe("sensor.*", &bus.list_topics());
    assert!(added.is_empty());
    assert!(bus.send("sensor.temperature", vec![42, 43, 44]));
    assert!(conn.handle_new_topic("sensor.temperature"));
    assert!(conn.is_receiving("sensor.temperature"));
    assert!(!conn.handle_new_topic("sensor.temperature"));
    match bus.subscribe_to_topic("sensor.temperature") {
        Some(Some(m)) => assert_eq!(*m, vec![42, 43, 44]),
        _ => panic!("no buffered message"),
    }
    assert!(!conn.handle_new_topic("other"));
}

#[test]
fn subscribing_picks_up_existing_topics() {
    let existing = vec!["a.1".to_string(), "b.1".to_string(), "a.2".to_string()];
    let mut conn = ConnectionTopics::new();
    assert!(conn.has_room());
    let added = conn.handle_subscribe("a.*", &existing);
    assert_eq!(added, vec!["a.1".to_string(), "a.2".to_string()]);
    let added = conn.handle_subscribe("*.1", &existing);
    assert_eq!(added, vec!["b.1".to_string()]);
    assert!(conn.is_receiving("b.1"));
}

#[test]
fn unsubscribing_drops_unmatched_topics() {
    let existing = vec!["a.1".to_string(), "b.1".to_string()];
    let mut conn = ConnectionTopics::new();
    conn.handle_subscribe("a.*", &existing);
    conn.handle_subscribe("*.1", &existing);
    let dropped = conn.handle_unsubscribe("*.1");
    assert_eq!(dropped, vec!["b.1".to_string()]);
    assert!(conn.is_receiving("a.1"));
    assert!(!conn.is_receiving("b.1"));
    let dropped = conn.handle_unsubscribe("nothing");
    assert!(dropped.is_empty());
}

#[test]
fn system_topics_need_a_system_pattern() {
    let mut conn = ConnectionTopics::new();
    conn.handle_subscribe("*", &Vec::new());
    assert!(!conn.handle_new_topic("!system/metrics"));
    assert!(!conn.forwards("!system/metrics/commands"));
    assert!(conn.forwards("weather"));
    let mut sys = ConnectionTopics::new();
    sys.handle_subscribe("!system*", &Vec::new());
    assert!(sys.handle_new_topic("!system/metrics"));
    assert!(sys.forwards("!system/metrics/commands"));
}

#[test]
fn prefixes() {
    assert!(has_prefix("!system/metrics", "!system"));
    assert!(!has_prefix("!sys", "!system"));
    assert!(has_prefix("abc", ""));
    assert!(admits_topic("weather", "*"));
    assert!(!admits_topic("!system/x", "*"));
    assert!(admits_topic("!system/x", "!system*"));
}

#[test]
fn star_receives_every_plain_topic() {
    let existing = vec!["a".to_string(), "b/c".to_string(), "!system/metrics".to_string()];
    let mut conn = ConnectionTopics::new();
    let added = conn.handle_subscribe("*", &existing);
    assert_eq!(added, vec!["a".to_string(), "b/c".to_string(), "!system/metrics".to_string()]);
    assert!(conn.handle_new_topic("weather"));
    assert!(conn.forwards("anything"));
}

#[test]
fn subscribing_adds_each_existing_topic_once_in_order() {
    let existing = vec!["b.1".to_string(), "a.1".to_string(), "b.1".to_string(), "c.2".to_string()];
    let mut conn = ConnectionTopics::new();
    conn.handle_subscribe("a.1", &existing);
    let added = conn.handle_subscribe("*.1", &existing);
    assert_eq!(added, vec!["b.1".to_string()]);
    let added = conn.handle_subscribe("*", &existing);
    assert_eq!(added, vec!["c.2".to_string()]);
}

#[test]
fn unsubscribing_keeps_and_drops_topics_in_order() {
    let existing = vec!["a.1".to_string(), "b.1".to_string(), "a.2".to_string(), "b.2".to_string()];
    let mut conn = ConnectionTopics::new();
    conn.handle_subscribe("*", &existing);
    conn.handle_subscribe("a.*", &existing);
    let dropped = conn.handle_unsubscribe("*");
    assert_eq!(dropped, vec!["b.1".to_string(), "b.2".to_string()]);
    assert!(conn.is_receiving("a.1"));
    assert!(conn.is_receiving("a.2"));
    assert!(!conn.is_receiving("b.1"));
}
