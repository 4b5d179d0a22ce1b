use lbroker::metrics::{metric_message, metric_topic, Count, Throughput};
use rmpv::Value;

#[test]
fn metric_topics_live_under_the_system_prefix() {
    assert_eq!(metric_topic("commands"), "!system/metrics/commands");
    assert_eq!(metric_topic(""), "!system/metrics/");
}

#[test]
fn metric_message_carries_the_value() {
    let m = metric_message("connections", 5);
    assert_eq!(m.topic, "!system/metrics/connections");
    assert_eq!(m.value, Value::from(5u64));
    assert_ne!(m.value, Value::from(4u64));
}

#[test]
fn throughput_counts_and_resets() {
    let mut t = Throughput::new("commands");
    assert_eq!(*t.value(), 0);
    t.increment(1);
    t.increment(2);
    assert_eq!(*t.value(), 3);
    assert_eq!(t.name(), "commands");
    assert_eq!(t.rate_name(), "commands-per-second");
    t.reset();
    assert_eq!(*t.value(), 0);
}

#[test]
fn count_goes_up_and_down() {
    let mut c = Count::new("connections");
    c.add(3);
    c.subtract(1);
    assert_eq!(*c.value(), 2);
    c.apply(5);
    assert_eq!(*c.value(), 7);
    c.apply(-7);
    assert_eq!(*c.value(), 0);
    assert_eq!(c.name(), "connections");
}

#[test]
fn metrics_root_topic() {
    assert_eq!(lbroker::metrics::metrics_topic(), "!system/metrics");
}

#[test]
fn count_ends_at_start_plus_the_changes() {
    let mut c = Count::new("connections");
    let changes: [i64; 5] = [3, -1, 4, -2, 1];
    for d in changes {
        c.apply(d);
    }
    assert_eq!(*c.value(), 5);
    c.add(2);
    c.subtract(7);
    assert_eq!(*c.value(), 0);
    assert_eq!(c.name(), "connections");
}
