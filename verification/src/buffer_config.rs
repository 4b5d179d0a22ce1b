//! Configuration for write buffering and performance tuning
use vstd::prelude::*;
use vstd::string::StringExecFns;

verus! {

/// Strategy for flushing the write buffer
#[derive(Debug, Clone, Copy, PartialEq, Eq, Structural)]
pub enum FlushStrategy {
    /// Flush immediately after each write (lowest latency, most syscalls)
    Immediate,
    /// Flush periodically based on time interval (balanced)
    Periodic { interval_ms: u64 },
    /// Let buffer auto-flush when full (highest throughput, highest latency)
    Auto,
}

/// Performance mode presets
#[derive(Debug, Clone, Copy, PartialEq, Eq, Structural)]
pub enum PerformanceMode {
    LowLatency,
    Balanced,
    HighThroughput,
}

/// Configuration for write buffering
#[derive(Debug, Clone, Copy)]
pub struct BufferConfig {
    /// Size of the write buffer in bytes
    pub size: usize,
    /// Strategy for flushing the buffer
    pub flush_strategy: FlushStrategy,
}

/// The buffer configuration that a performance mode stands for.
pub open spec fn mode_config(mode: PerformanceMode) -> BufferConfig {
    match mode {
        PerformanceMode::LowLatency => BufferConfig { size: 4096, flush_strategy: FlushStrategy::Immediate },
        PerformanceMode::Balanced => BufferConfig {
            size: 32768,
            flush_strategy: FlushStrategy::Periodic { interval_ms: 10 },
        },
        PerformanceMode::HighThroughput => BufferConfig { size: 131072, flush_strategy: FlushStrategy::Auto },
    }
}

impl PerformanceMode {
    /// The buffer configuration of this preset: 4 KB with immediate flush, 32 KB with a
    /// 10 ms periodic flush, or 128 KB flushed when full.
    pub fn to_config(self) -> (config: BufferConfig)
        ensures
            config == mode_config(self),
    {
        match self {
            PerformanceMode::LowLatency => BufferConfig {
                size: 4 * 1024,
                flush_strategy: FlushStrategy::Immediate,
            },
            PerformanceMode::Balanced => BufferConfig {
                size: 32 * 1024,
                flush_strategy: FlushStrategy::Periodic { interval_ms: 10 },
            },
            PerformanceMode::HighThroughput => BufferConfig {
                size: 128 * 1024,
                flush_strategy: FlushStrategy::Auto,
            },
        }
    }
}

impl BufferConfig {
    /// Low latency configuration (4KB buffer, immediate flush)
    pub fn low_latency() -> (config: Self)
        ensures
            config == mode_config(PerformanceMode::LowLatency),
    {
        PerformanceMode::LowLatency.to_config()
    }

    /// Balanced configuration (32KB buffer, 10ms periodic flush)
    pub fn balanced() -> (config: Self)
        ensures
            config == mode_config(PerformanceMode::Balanced),
    {
        PerformanceMode::Balanced.to_config()
    }

    /// High throughput configuration (128KB buffer, auto flush)
    pub fn high_throughput() -> (config: Self)
        ensures
            config == mode_config(PerformanceMode::HighThroughput),
    {
        PerformanceMode::HighThroughput.to_config()
    }

    /// Custom configuration
    pub fn custom(size: usize, flush_strategy: FlushStrategy) -> (config: Self)
        ensures
            config.size == size,
            config.flush_strategy == flush_strategy,
    {
        BufferConfig { size, flush_strategy }
    }
}

impl Default for BufferConfig {
    /// The default configuration is the balanced preset.
    fn default() -> (config: Self)
        ensures
            config == mode_config(PerformanceMode::Balanced),
    {
        Self::balanced()
    }
}

impl FlushStrategy {
    /// Whether the writer flushes right after writing a message, given whether any other
    /// message is waiting: always when flushing immediately, when nothing waits when
    /// flushing automatically, and never when flushing on a timer.
    pub fn flush_after_write(self, queue_empty: bool) -> (r: bool)
        ensures
            r == match self {
                FlushStrategy::Immediate => true,
                FlushStrategy::Auto => queue_empty,
                FlushStrategy::Periodic { .. } => false,
            },
    {
        match self {
            FlushStrategy::Immediate => true,
            FlushStrategy::Auto => queue_empty,
            FlushStrategy::Periodic { .. } => false,
        }
    }

    /// The period of the flush timer, in milliseconds, when this strategy flushes on a timer.
    pub fn flush_period_ms(self) -> (r: Option<u64>)
        ensures
            r == match self {
                FlushStrategy::Periodic { interval_ms } => Some(interval_ms),
                _ => None::<u64>,
            },
    {
        match self {
            FlushStrategy::Periodic { interval_ms } => Some(interval_ms),
            _ => None,
        }
    }
}

/// A setting on the command line that was not understood and was replaced by a default.
#[derive(Debug, Clone, Copy, PartialEq, Eq, Structural)]
pub enum ConfigWarning {
    /// The performance mode is unknown; the balanced preset is used.
    UnknownMode,
    /// The flush strategy is unknown; automatic flushing is used.
    UnknownFlushStrategy,
}

/// The text of `s` in lower case.
pub uninterp spec fn lowercase_text(s: Seq<char>) -> Seq<char>;

/// Lower-cases `s` with std's `str::to_lowercase`, whose result is a function of `s` alone;
/// it is named by `lowercase_text`.
#[verifier::external_body]
fn lowercase(s: &str) -> (r: String)
    ensures
        r@ == lowercase_text(s@),
{
    s.to_lowercase()
}

/// The performance mode named `name`, written in lower case.
pub open spec fn mode_named(name: Seq<char>) -> Option<PerformanceMode> {
    if name == "low-latency"@ || name == "lowlatency"@ {
        Some(PerformanceMode::LowLatency)
    } else if name == "balanced"@ {
        Some(PerformanceMode::Balanced)
    } else if name == "high-throughput"@ || name == "highthroughput"@ {
        Some(PerformanceMode::HighThroughput)
    } else {
        None
    }
}

/// The flush strategy named `name`, written in lower case; a periodic one uses `interval_ms`.
pub open spec fn strategy_named(name: Seq<char>, interval_ms: u64) -> Option<FlushStrategy> {
    if name == "immediate"@ {
        Some(FlushStrategy::Immediate)
    } else if name == "auto"@ {
        Some(FlushStrategy::Auto)
    } else if name == "periodic"@ {
        Some(FlushStrategy::Periodic { interval_ms })
    } else {
        None
    }
}

/// The buffer configuration that the server's command line asks for: a named mode wins
/// (balanced when the name is unknown); otherwise a buffer size in KB (32 KB when absent) or
/// a flush strategy (automatic when absent or unknown) make a custom configuration; with
/// none of them, the default balanced preset.
pub open spec fn cli_config(
    mode: Option<Seq<char>>,
    buffer_kb: Option<usize>,
    strategy: Option<Seq<char>>,
    interval_ms: u64,
) -> (BufferConfig, Option<ConfigWarning>) {
    match mode {
        Some(name) => match mode_named(lowercase_text(name)) {
            Some(m) => (mode_config(m), None),
            None => (mode_config(PerformanceMode::Balanced), Some(ConfigWarning::UnknownMode)),
        },
        None => if buffer_kb is Some || strategy is Some {
            let size = match buffer_kb {
                Some(kb) => (kb * 1024) as usize,
                None => 32768usize,
            };
            match strategy {
                Some(name) => match strategy_named(lowercase_text(name), interval_ms) {
                    Some(st) => (BufferConfig { size, flush_strategy: st }, None),
                    None => (
                        BufferConfig { size, flush_strategy: FlushStrategy::Auto },
                        Some(ConfigWarning::UnknownFlushStrategy),
                    ),
                },
                None => (BufferConfig { size, flush_strategy: FlushStrategy::Auto }, None),
            }
        } else {
            (mode_config(PerformanceMode::Balanced), None)
        },
    }
}

/// Every documented performance mode name, in any case, selects its preset without a
/// warning: `low-latency` (or `lowlatency`) a 4 KB buffer flushed after each write,
/// `balanced` a 32 KB buffer flushed every 10 ms, `high-throughput` (or `highthroughput`) a
/// 128 KB buffer flushed when full; any other name gives the balanced preset and a warning.
/// A mode, when given, decides alone: the other options play no part.
pub proof fn lemma_mode_names_select_presets(
    mode: Seq<char>,
    buffer_kb: Option<usize>,
    strategy: Option<Seq<char>>,
    interval_ms: u64,
)
    ensures
        ({
            let name = lowercase_text(mode);
            let r = cli_config(Some(mode), buffer_kb, strategy, interval_ms);
            &&& (name == "low-latency"@ || name == "lowlatency"@) ==> r == (
                BufferConfig { size: 4096, flush_strategy: FlushStrategy::Immediate },
                None::<ConfigWarning>,
            )
            &&& name == "balanced"@ ==> r == (
                BufferConfig { size: 32768, flush_strategy: FlushStrategy::Periodic { interval_ms: 10 } },
                None::<ConfigWarning>,
            )
            &&& (name == "high-throughput"@ || name == "highthroughput"@) ==> r == (
                BufferConfig { size: 131072, flush_strategy: FlushStrategy::Auto },
                None::<ConfigWarning>,
            )
            &&& !(name == "low-latency"@ || name == "lowlatency"@ || name == "balanced"@
                || name == "high-throughput"@ || name == "highthroughput"@) ==> r == (
                BufferConfig { size: 32768, flush_strategy: FlushStrategy::Periodic { interval_ms: 10 } },
                Some(ConfigWarning::UnknownMode),
            )
        }),
{
    reveal_strlit("low-latency");
    reveal_strlit("lowlatency");
    reveal_strlit("balanced");
    reveal_strlit("high-throughput");
    reveal_strlit("highthroughput");
    assert("low-latency"@.len() == 11 && "lowlatency"@.len() == 10 && "balanced"@.len() == 8
        && "high-throughput"@.len() == 15 && "highthroughput"@.len() == 14);
    let name = lowercase_text(mode);
    if name == "balanced"@ {
        assert(name != "low-latency"@ && name != "lowlatency"@);
    }
    if name == "high-throughput"@ || name == "highthroughput"@ {
        assert(name != "low-latency"@ && name != "lowlatency"@ && name != "balanced"@);
    }
}

/// Without a mode, every documented flush strategy name, in any case, selects its strategy
/// without a warning (`immediate`, `auto`, or `periodic` with the given interval), any other
/// name automatic flushing and a warning; the buffer holds the given number of KB, or 32 KB.
pub proof fn lemma_strategy_names_select_strategies(
    buffer_kb: Option<usize>,
    strategy: Seq<char>,
    interval_ms: u64,
)
    ensures
        ({
            let name = lowercase_text(strategy);
            let r = cli_config(None, buffer_kb, Some(strategy), interval_ms);
            &&& r.0.size == (match buffer_kb {
                Some(kb) => (kb * 1024) as usize,
                None => 32768usize,
            })
            &&& name == "immediate"@ ==> r.0.flush_strategy == FlushStrategy::Immediate && r.1 == None::<ConfigWarning>
            &&& name == "auto"@ ==> r.0.flush_strategy == FlushStrategy::Auto && r.1 == None::<ConfigWarning>
            &&& name == "periodic"@ ==> r.0.flush_strategy == (FlushStrategy::Periodic { interval_ms })
                && r.1 == None::<ConfigWarning>
            &&& !(name == "immediate"@ || name == "auto"@ || name == "periodic"@) ==> r.0.flush_strategy
                == FlushStrategy::Auto && r.1 == Some(ConfigWarning::UnknownFlushStrategy)
        }),
{
    reveal_strlit("immediate");
    reveal_strlit("auto");
    reveal_strlit("periodic");
    assert("immediate"@.len() == 9 && "auto"@.len() == 4 && "periodic"@.len() == 8);
    let name = lowercase_text(strategy);
    if name == "auto"@ {
        assert(name != "immediate"@);
    }
    if name == "periodic"@ {
        assert(name != "immediate"@ && name != "auto"@);
    }
}

/// With no option at all, the configuration is the balanced preset without a warning.
pub proof fn lemma_no_options_is_balanced(interval_ms: u64)
    ensures
        cli_config(None, None, None, interval_ms) == (
            BufferConfig { size: 32768, flush_strategy: FlushStrategy::Periodic { interval_ms: 10 } },
            None::<ConfigWarning>,
        ),
{
}

/// Whether the lower-cased `name` equals `text`.
fn is_named(name: &String, text: &str) -> (r: bool)
    ensures
        r == (name@ == text@),
{
    *name == String::from_str(text)
}

/// Choose the buffer configuration from the server's command line options, with a warning
/// when a name was not understood.
pub fn config_from_cli(
    mode: Option<&str>,
    buffer_kb: Option<usize>,
    strategy: Option<&str>,
    interval_ms: u64,
) -> (r: (BufferConfig, Option<ConfigWarning>))
    requires
        buffer_kb matches Some(kb) ==> kb * 1024 <= usize::MAX,
    ensures
        r == cli_config(
            match mode { Some(m) => Some(m@), None => None },
            buffer_kb,
            match strategy { Some(st) => Some(st@), None => None },
            interval_ms,
        ),
{
    match mode {
        Some(m) => {
            let name = lowercase(m);
            if is_named(&name, "low-latency") || is_named(&name, "lowlatency") {
                (BufferConfig::low_latency(), None)
            } else if is_named(&name, "balanced") {
                (BufferConfig::balanced(), None)
            } else if is_named(&name, "high-throughput") || is_named(&name, "highthroughput") {
                (BufferConfig::high_throughput(), None)
            } else {
                (BufferConfig::balanced(), Some(ConfigWarning::UnknownMode))
            }
        },
        None => {
            if buffer_kb.is_some() || strategy.is_some() {
                let size: usize = match buffer_kb {
                    Some(kb) => kb * 1024,
                    None => 32 * 1024,
                };
                match strategy {
                    Some(st) => {
                        let name = lowercase(st);
                        if is_named(&name, "immediate") {
                            (BufferConfig::custom(size, FlushStrategy::Immediate), None)
                        } else if is_named(&name, "auto") {
                            (BufferConfig::custom(size, FlushStrategy::Auto), None)
                        } else if is_named(&name, "periodic") {
                            (BufferConfig::custom(size, FlushStrategy::Periodic { interval_ms }), None)
                        } else {
                            (BufferConfig::custom(size, FlushStrategy::Auto), Some(ConfigWarning::UnknownFlushStrategy))
                        }
                    },
                    None => (BufferConfig::custom(size, FlushStrategy::Auto), None),
                }
            } else {
                (BufferConfig::default(), None)
            }
        },
    }
}

} // verus!
