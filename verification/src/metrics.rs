//! The state of the broker's metrics: a throughput that counts events between resets and a
//! count that goes up and down, and the topics on which they are published.
use crate::config;
use crate::datagram::Message;
use rmpv::Value;
use vstd::prelude::*;
use vstd::string::StringExecFns;

verus! {

/// The topic on which the metric `metric` is published: the system prefix, `/metrics/`,
/// then the metric's name.
pub open spec fn metric_topic_text(metric: Seq<char>) -> Seq<char> {
    config::SYSTEM_TOPIC_PREFIX@ + "/metrics/"@ + metric
}

/// The topic under which every metric is published: the system prefix, then `/metrics`.
pub fn metrics_topic() -> (t: String)
    ensures
        t@ == config::SYSTEM_TOPIC_PREFIX@ + "/metrics"@,
{
    let mut t = String::from_str(config::SYSTEM_TOPIC_PREFIX);
    t.append("/metrics");
    t
}

/// The topic on which the metric `metric` is published.
pub fn metric_topic(metric: &str) -> (t: String)
    ensures
        t@ == metric_topic_text(metric@),
{
    let mut t = String::from_str(config::SYSTEM_TOPIC_PREFIX);
    t.append("/metrics/");
    t.append(metric);
    t
}

/// The msgpack integer holding `n`.
pub uninterp spec fn integer_value(n: u64) -> Value;

/// Converts `n` with rmpv's `From<u64> for Value`, which gives the integer value `n`; that
/// value is named by `integer_value`.
#[verifier::external_body]
fn value_from_u64(n: u64) -> (v: Value)
    ensures
        v == integer_value(n),
{
    Value::from(n)
}

/// The message that publishes the value `n` of the metric `metric`.
pub fn metric_message(metric: &str, n: u64) -> (m: Message)
    ensures
        m.topic@ == metric_topic_text(metric@),
        m.value == integer_value(n),
{
    Message { topic: metric_topic(metric), value: value_from_u64(n) }
}

/// Throughput metric tracks the total volume of events since the last reset.
///
/// Example, how many requests did a website receive in a 30s window?
pub struct Throughput {
    name: String,
    value: u64,
}

impl Throughput {
    /// The name of the metric.
    pub closed spec fn spec_name(self) -> Seq<char> {
        self.name@
    }

    /// The number of events counted since the last reset.
    pub closed spec fn spec_value(self) -> u64 {
        self.value
    }

    /// A throughput named `name` that has counted nothing.
    pub fn new(name: &str) -> (t: Throughput)
        ensures
            t.spec_name() == name@,
            t.spec_value() == 0,
    {
        Throughput { name: String::from_str(name), value: 0 }
    }

    /// The name of the metric.
    pub fn name(&self) -> (r: &str)
        ensures
            r@ == self.spec_name(),
    {
        self.name.as_str()
    }

    /// The number of events counted since the last reset.
    pub fn value(&self) -> (r: &u64)
        ensures
            *r == self.spec_value(),
    {
        &self.value
    }

    /// Count `by` more events.
    pub fn increment(&mut self, by: u64)
        requires
            old(self).spec_value() + by <= u64::MAX,
        ensures
            final(self).spec_value() == old(self).spec_value() + by,
            final(self).spec_name() == old(self).spec_name(),
    {
        self.value += by;
    }

    /// Start counting again from zero.
    pub fn reset(&mut self)
        ensures
            final(self).spec_value() == 0,
            final(self).spec_name() == old(self).spec_name(),
    {
        self.value = 0;
    }

    /// The name under which the rate of this metric is published: its name followed by
    /// `-per-second`.
    pub fn rate_name(&self) -> (r: String)
        ensures
            r@ == self.spec_name() + "-per-second"@,
    {
        let mut r = self.name.clone();
        r.append("-per-second");
        r
    }
}

/// The value of a count after a signed change `delta`.
pub open spec fn count_after(value: u64, delta: i64) -> int {
    value + delta
}

/// The sum of a sequence of signed changes.
pub open spec fn sum_changes(deltas: Seq<i64>) -> int
    decreases deltas.len(),
{
    if deltas.len() == 0 {
        0
    } else {
        sum_changes(deltas.drop_last()) + deltas.last()
    }
}

/// A count that goes through the values `values`, each one obtained from the one before by
/// applying the change at the same place in `deltas`, ends at its first value plus the sum
/// of the changes.
pub proof fn lemma_count_after_changes(values: Seq<u64>, deltas: Seq<i64>)
    requires
        values.len() == deltas.len() + 1,
        forall|i: int|
            0 <= i < deltas.len() ==> values[i + 1] == count_after(values[i], #[trigger] deltas[i]),
    ensures
        values.last() == values[0] + sum_changes(deltas),
    decreases deltas.len(),
{
    if deltas.len() > 0 {
        let k = deltas.len() - 1;
        lemma_count_after_changes(values.drop_last(), deltas.drop_last());
        assert(values[k + 1] == count_after(values[k], deltas[k]));
    }
}

/// A metric for keeping a count of things, e.g. the number of active connections
pub struct Count {
    name: String,
    value: u64,
}

impl Count {
    /// The name of the metric.
    pub closed spec fn spec_name(self) -> Seq<char> {
        self.name@
    }

    /// The current count.
    pub closed spec fn spec_value(self) -> u64 {
        self.value
    }

    /// A count named `name` at zero.
    pub fn new(name: &str) -> (c: Count)
        ensures
            c.spec_name() == name@,
            c.spec_value() == 0,
    {
        Count { name: String::from_str(name), value: 0 }
    }

    /// The name of the metric.
    pub fn name(&self) -> (r: &str)
        ensures
            r@ == self.spec_name(),
    {
        self.name.as_str()
    }

    /// The current count.
    pub fn value(&self) -> (r: &u64)
        ensures
            *r == self.spec_value(),
    {
        &self.value
    }

    /// Add to the count
    pub fn add(&mut self, n: u64)
        requires
            old(self).spec_value() + n <= u64::MAX,
        ensures
            final(self).spec_value() == old(self).spec_value() + n,
            final(self).spec_name() == old(self).spec_name(),
    {
        self.value += n;
    }

    /// Subtract from the count
    pub fn subtract(&mut self, n: u64)
        requires
            n <= old(self).spec_value(),
        ensures
            final(self).spec_value() == old(self).spec_value() - n,
            final(self).spec_name() == old(self).spec_name(),
    {
        self.value -= n;
    }

    /// Apply a signed change sent by a mutator: a nonnegative one is added, a negative one
    /// subtracted.
    pub fn apply(&mut self, delta: i64)
        requires
            delta != i64::MIN,
            0 <= count_after(old(self).spec_value(), delta) <= u64::MAX,
        ensures
            final(self).spec_value() == count_after(old(self).spec_value(), delta),
            final(self).spec_name() == old(self).spec_name(),
    {
        if delta >= 0 {
            self.add(delta as u64);
        } else {
            let magnitude: i64 = -delta;
            self.subtract(magnitude as u64);
        }
    }
}

} // verus!
