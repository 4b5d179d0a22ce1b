use lbroker::buffer_config::{config_from_cli, BufferConfig, ConfigWarning, FlushStrategy, PerformanceMode};

#[test]
fn presets() {
    let c = BufferConfig::low_latency();
    assert_eq!(c.size, 4096);
    assert_eq!(c.flush_strategy, FlushStrategy::Immediate);
    let c = BufferConfig::balanced();
    assert_eq!(c.size, 32768);
    assert_eq!(c.flush_strategy, FlushStrategy::Periodic { interval_ms: 10 });
    let c = BufferConfig::high_throughput();
    assert_eq!(c.size, 131072);
    assert_eq!(c.flush_strategy, FlushStrategy::Auto);
    let c = BufferConfig::default();
    assert_eq!(c.size, 32768);
    let c = PerformanceMode::HighThroughput.to_config();
    assert_eq!(c.size, 128 * 1024);
    let c = BufferConfig::custom(10, FlushStrategy::Auto);
    assert_eq!(c.size, 10);
    assert_eq!(c.flush_strategy, FlushStrategy::Auto);
}

#[test]
fn flush_decisions() {
    assert!(FlushStrategy::Immediate.flush_after_write(false));
    assert!(FlushStrategy::Auto.flush_after_write(true));
    assert!(!FlushStrategy::Auto.flush_after_write(false));
    assert!(!FlushStrategy::Periodic { interval_ms: 5 }.flush_after_write(true));
    assert_eq!(FlushStrategy::Periodic { interval_ms: 5 }.flush_period_ms(), Some(5));
    assert_eq!(FlushStrategy::Auto.flush_period_ms(), None);
}

#[test]
fn cli_modes() {
    let (c, w) = config_from_cli(Some("Low-Latency"), None, None, 10);
    assert_eq!(c.size, 4096);
    assert_eq!(w, None);
    let (c, w) = config_from_cli(Some("HIGHTHROUGHPUT"), Some(1), Some("immediate"), 10);
    assert_eq!(c.flush_strategy, FlushStrategy::Auto);
    assert_eq!(w, None);
    let (c, w) = config_from_cli(Some("fast"), None, None, 10);
    assert_eq!(c.flush_strategy, FlushStrategy::Periodic { interval_ms: 10 });
    assert_eq!(w, Some(ConfigWarning::UnknownMode));
}

#[test]
fn cli_custom_settings() {
    let (c, w) = config_from_cli(None, Some(64), Some("Periodic"), 25);
    assert_eq!(c.size, 65536);
    assert_eq!(c.flush_strategy, FlushStrategy::Periodic { interval_ms: 25 });
    assert_eq!(w, None);
    let (c, w) = config_from_cli(None, None, Some("sometimes"), 25);
    assert_eq!(c.size, 32768);
    assert_eq!(c.flush_strategy, FlushStrategy::Auto);
    assert_eq!(w, Some(ConfigWarning::UnknownFlushStrategy));
    let (c, w) = config_from_cli(None, Some(2), None, 25);
    assert_eq!(c.size, 2048);
    assert_eq!(c.flush_strategy, FlushStrategy::Auto);
    assert_eq!(w, None);
    let (c, w) = config_from_cli(None, None, None, 25);
    assert_eq!(c.size, 32768);
    assert_eq!(c.flush_strategy, FlushStrategy::Periodic { interval_ms: 10 });
    assert_eq!(w, None);
}
