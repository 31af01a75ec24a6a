//! Counters and latency histograms of a running broker, and their text form.

use vstd::prelude::*;

use crate::text;

verus! {

/// How many finite bounds a latency histogram has.
pub const LATENCY_BUCKETS: usize = 9;

/// The bounds of the latency buckets, in microseconds.
pub open spec fn bucket_bound(index: int) -> u64 {
    if index == 0 {
        100
    } else if index == 1 {
        500
    } else if index == 2 {
        1_000
    } else if index == 3 {
        5_000
    } else if index == 4 {
        10_000
    } else if index == 5 {
        50_000
    } else if index == 6 {
        100_000
    } else if index == 7 {
        500_000
    } else {
        1_000_000
    }
}

fn latency_bound(index: usize) -> (bound: u64)
    ensures
        bound == bucket_bound(index as int),
{
    if index == 0 {
        100
    } else if index == 1 {
        500
    } else if index == 2 {
        1_000
    } else if index == 3 {
        5_000
    } else if index == 4 {
        10_000
    } else if index == 5 {
        50_000
    } else if index == 6 {
        100_000
    } else if index == 7 {
        500_000
    } else {
        1_000_000
    }
}

/// The sum of two counts, which start again from zero behind the largest.
pub open spec fn wrapped(a: u64, b: u64) -> u64 {
    if a + b > u64::MAX {
        (a + b - 0x1_0000_0000_0000_0000) as u64
    } else {
        (a + b) as u64
    }
}

/// A duration in microseconds as it is counted: the largest count stands for longer ones.
pub open spec fn counted_micros(micros: u128) -> u64 {
    if micros > u64::MAX {
        u64::MAX
    } else {
        micros as u64
    }
}

/// A histogram as a value. The buckets are cumulative; the last one counts everything.
#[verifier::ext_equal]
pub struct Latencies {
    pub buckets: Seq<u64>,
    pub count: u64,
    pub sum_us: u64,
}

impl Latencies {
    pub open spec fn none() -> Latencies {
        Latencies {
            buckets: Seq::new((LATENCY_BUCKETS + 1) as nat, |i: int| 0u64),
            count: 0,
            sum_us: 0,
        }
    }

    /// The histogram after one more observation.
    pub open spec fn observed(self, micros: u128) -> Latencies {
        let counted = counted_micros(micros);
        Latencies {
            buckets: Seq::new(
                (LATENCY_BUCKETS + 1) as nat,
                |i: int|
                    if i == LATENCY_BUCKETS || counted <= bucket_bound(i) {
                        wrapped(self.buckets[i], 1)
                    } else {
                        self.buckets[i]
                    },
            ),
            count: wrapped(self.count, 1),
            sum_us: wrapped(self.sum_us, counted),
        }
    }
}

/// A number of microseconds as a decimal fraction of seconds.
pub open spec fn seconds_text(micros: u64) -> Seq<char> {
    text::decimal(micros as nat / 1_000_000) + "."@ + text::fixed_width(
        micros as nat % 1_000_000,
        10,
        6,
    )
}

/// The help and type lines of a metric.
pub open spec fn header_text(name: Seq<char>, help: Seq<char>, kind: Seq<char>) -> Seq<char> {
    "# HELP "@ + name + " "@ + help + "\n# TYPE "@ + name + " "@ + kind + "\n"@
}

/// A metric with one value.
pub open spec fn metric_text(
    name: Seq<char>,
    help: Seq<char>,
    kind: Seq<char>,
    value: u64,
) -> Seq<char> {
    header_text(name, help, kind) + name + " "@ + text::decimal(value as nat) + "\n"@
}

pub open spec fn bucket_line(name: Seq<char>, bound: Seq<char>, value: u64) -> Seq<char> {
    name + "_bucket{le=\""@ + bound + "\"} "@ + text::decimal(value as nat) + "\n"@
}

/// The lines of the first `count` buckets.
pub open spec fn bucket_lines(name: Seq<char>, buckets: Seq<u64>, count: nat) -> Seq<char>
    decreases count,
{
    if count == 0 {
        Seq::empty()
    } else {
        bucket_lines(name, buckets, (count - 1) as nat) + bucket_line(
            name,
            seconds_text(bucket_bound(count - 1)),
            buckets[count - 1],
        )
    }
}

pub open spec fn histogram_text(name: Seq<char>, help: Seq<char>, latencies: Latencies) -> Seq<
    char,
> {
    header_text(name, help, "histogram"@) + bucket_lines(
        name,
        latencies.buckets,
        LATENCY_BUCKETS as nat,
    ) + bucket_line(name, "+Inf"@, latencies.buckets[LATENCY_BUCKETS as int]) + (name + "_count "@
        + text::decimal(latencies.count as nat) + "\n"@) + (name + "_sum "@ + seconds_text(
        latencies.sum_us,
    ) + "\n"@)
}

/// A latency histogram.
pub struct Histogram {
    buckets: Vec<u64>,
    count: u64,
    sum_us: u64,
}

impl View for Histogram {
    type V = Latencies;

    closed spec fn view(&self) -> Latencies {
        Latencies { buckets: self.buckets@, count: self.count, sum_us: self.sum_us }
    }
}

impl Histogram {
    pub open spec fn wf(self) -> bool {
        self@.buckets.len() == LATENCY_BUCKETS + 1
    }

    /// Counts one duration.
    pub fn observe(&mut self, micros: u128)
        requires
            old(self).wf(),
        ensures
            final(self).wf(),
            final(self)@ == old(self)@.observed(micros),
    {
        let ghost before = self@;
        let counted: u64 = if micros > u64::MAX as u128 {
            u64::MAX
        } else {
            micros as u64
        };
        let mut index: usize = 0;
        while index < LATENCY_BUCKETS
            invariant
                index <= LATENCY_BUCKETS,
                self.wf(),
                self.count == before.count,
                self.sum_us == before.sum_us,
                before.buckets.len() == LATENCY_BUCKETS + 1,
                forall|i: int|
                    0 <= i < index ==> #[trigger] self.buckets@[i] == if counted <= bucket_bound(
                        i,
                    ) {
                        wrapped(before.buckets[i], 1)
                    } else {
                        before.buckets[i]
                    },
                forall|i: int|
                    index <= i <= LATENCY_BUCKETS ==> #[trigger] self.buckets@[i]
                        == before.buckets[i],
            decreases LATENCY_BUCKETS - index,
        {
            if counted <= latency_bound(index) {
                let raised: u64 = self.buckets[index].wrapping_add(1);
                self.buckets.set(index, raised);
            }
            index = index + 1;
        }
        let all: u64 = self.buckets[LATENCY_BUCKETS].wrapping_add(1);
        self.buckets.set(LATENCY_BUCKETS, all);
        self.count = self.count.wrapping_add(1);
        self.sum_us = self.sum_us.wrapping_add(counted);
        assert(self@ =~= before.observed(micros));
    }

    /// Appends the histogram.
    pub fn render(&self, output: &mut String, name: &str, help: &str)
        requires
            self.wf(),
        ensures
            final(output)@ == old(output)@ + histogram_text(name@, help@, self@),
    {
        let mut out = header(name, help, "histogram");
        let mut buckets = String::new();
        let mut index: usize = 0;
        while index < LATENCY_BUCKETS
            invariant
                index <= LATENCY_BUCKETS,
                self.wf(),
                buckets@ == bucket_lines(name@, self@.buckets, index as nat),
            decreases LATENCY_BUCKETS - index,
        {
            let seconds = format_seconds(latency_bound(index));
            let line = bucket(name, seconds.as_str(), self.buckets[index]);
            buckets.append(line.as_str());
            index = index + 1;
        }
        out.append(buckets.as_str());
        let infinity = bucket(name, "+Inf", self.buckets[LATENCY_BUCKETS]);
        out.append(infinity.as_str());
        let mut count = name.to_owned();
        count.append("_count ");
        text::push_decimal(&mut count, self.count);
        count.append("\n");
        out.append(count.as_str());
        let mut sum = name.to_owned();
        sum.append("_sum ");
        let sum_seconds = format_seconds(self.sum_us);
        sum.append(sum_seconds.as_str());
        sum.append("\n");
        out.append(sum.as_str());
        output.append(out.as_str());
    }
}

impl Default for Histogram {
    fn default() -> (histogram: Self)
        ensures
            histogram.wf(),
            histogram@ == Latencies::none(),
    {
        let mut buckets: Vec<u64> = Vec::new();
        let mut index: usize = 0;
        while index < LATENCY_BUCKETS + 1
            invariant
                index <= LATENCY_BUCKETS + 1,
                buckets@.len() == index,
                forall|i: int| 0 <= i < index ==> #[trigger] buckets@[i] == 0,
            decreases LATENCY_BUCKETS + 1 - index,
        {
            buckets.push(0);
            index = index + 1;
        }
        let histogram = Histogram { buckets, count: 0, sum_us: 0 };
        assert(histogram@ =~= Latencies::none());
        histogram
    }
}

fn bucket(name: &str, bound: &str, value: u64) -> (line: String)
    ensures
        line@ == bucket_line(name@, bound@, value),
{
    let mut out = name.to_owned();
    out.append("_bucket{le=\"");
    out.append(bound);
    out.append("\"} ");
    text::push_decimal(&mut out, value);
    out.append("\n");
    out
}

pub fn format_seconds(micros: u64) -> (seconds: String)
    ensures
        seconds@ == seconds_text(micros),
{
    let mut out = text::decimal_text(micros / 1_000_000);
    out.append(".");
    text::push_fixed_width(&mut out, micros % 1_000_000, 10, 6);
    out
}

pub(crate) fn header(name: &str, help: &str, kind: &str) -> (lines: String)
    ensures
        lines@ == header_text(name@, help@, kind@),
{
    let mut out = "# HELP ".to_owned();
    out.append(name);
    out.append(" ");
    out.append(help);
    out.append("\n# TYPE ");
    out.append(name);
    out.append(" ");
    out.append(kind);
    out.append("\n");
    out
}

/// Appends a metric with one value.
fn metric(output: &mut String, name: &str, help: &str, kind: &str, value: u64)
    ensures
        final(output)@ == old(output)@ + metric_text(name@, help@, kind@, value),
{
    let mut out = header(name, help, kind);
    out.append(name);
    out.append(" ");
    text::push_decimal(&mut out, value);
    out.append("\n");
    output.append(out.as_str());
}

/// A character as it stands in a label value.
pub open spec fn escaped_char(c: char) -> Seq<char> {
    if c == '\\' {
        "\\\\"@
    } else if c == '\n' {
        "\\n"@
    } else if c == '"' {
        "\\\""@
    } else {
        seq![c]
    }
}

/// A label value: backslashes, line feeds and quotes are escaped.
pub open spec fn escaped(value: Seq<char>) -> Seq<char>
    decreases value.len(),
{
    if value.len() == 0 {
        Seq::empty()
    } else {
        escaped(value.drop_last()) + escaped_char(value.last())
    }
}

pub fn escape_label(value: &str) -> (label: String)
    ensures
        label@ == escaped(value@),
{
    let chars = text::chars_of(value);
    let mut label = String::new();
    let mut i: usize = 0;
    while i < chars.len()
        invariant
            i <= chars@.len(),
            label@ == escaped(chars@.take(i as int)),
        decreases chars@.len() - i,
    {
        let c: char = chars[i];
        proof {
            assert(chars@.take(i + 1).drop_last() =~= chars@.take(i as int));
            assert(chars@.take(i + 1).last() == c);
        }
        if c == '\\' {
            label.append("\\\\");
        } else if c == '\n' {
            label.append("\\n");
        } else if c == '"' {
            label.append("\\\"");
        } else {
            label.push(c);
            assert(label@ =~= escaped(chars@.take(i as int)) + seq![c]);
        }
        i = i + 1;
    }
    assert(chars@.take(i as int) =~= chars@);
    label
}

/// The metrics of a broker as a value.
#[verifier::ext_equal]
pub struct Metrics {
    pub active_connections: u64,
    pub produced_messages: u64,
    pub produced_bytes: u64,
    pub fetched_messages: u64,
    pub fetched_bytes: u64,
    pub broker_busy: u64,
    pub retention_segments_removed: u64,
    pub replication_failures: u64,
    pub automatic_promotions: u64,
    pub produce_latency: Latencies,
    pub fetch_latency: Latencies,
    pub append_latency: Latencies,
    pub flush_latency: Latencies,
}

impl Metrics {
    /// The metrics once a connection is opened.
    pub open spec fn connected(self) -> Metrics {
        Metrics { active_connections: wrapped(self.active_connections, 1), ..self }
    }

    /// The metrics once a connection is closed.
    pub open spec fn disconnected(self) -> Metrics {
        Metrics {
            active_connections: if self.active_connections == 0 {
                u64::MAX
            } else {
                (self.active_connections - 1) as u64
            },
            ..self
        }
    }

    /// The metrics once some messages are accepted.
    pub open spec fn with_produced(self, messages: u64, bytes: u64) -> Metrics {
        Metrics {
            produced_messages: wrapped(self.produced_messages, messages),
            produced_bytes: wrapped(self.produced_bytes, bytes),
            ..self
        }
    }

    /// The metrics once some messages are handed out.
    pub open spec fn with_fetched(self, messages: u64, bytes: u64) -> Metrics {
        Metrics {
            fetched_messages: wrapped(self.fetched_messages, messages),
            fetched_bytes: wrapped(self.fetched_bytes, bytes),
            ..self
        }
    }

    /// The metrics once some segments are removed.
    pub open spec fn with_removed(self, segments: u64) -> Metrics {
        Metrics {
            retention_segments_removed: wrapped(self.retention_segments_removed, segments),
            ..self
        }
    }

    /// The text form of the metrics.
    pub open spec fn text(self) -> Seq<char> {
        metric_text(
            "sevlamq_active_connections"@,
            "Current client TCP connections."@,
            "gauge"@,
            self.active_connections,
        ) + metric_text(
            "sevlamq_messages_produced_total"@,
            "Messages accepted by the broker."@,
            "counter"@,
            self.produced_messages,
        ) + metric_text(
            "sevlamq_bytes_produced_total"@,
            "Uncompressed payload bytes accepted by the broker."@,
            "counter"@,
            self.produced_bytes,
        ) + metric_text(
            "sevlamq_messages_fetched_total"@,
            "Messages returned by fetch requests."@,
            "counter"@,
            self.fetched_messages,
        ) + metric_text(
            "sevlamq_bytes_fetched_total"@,
            "Payload bytes returned by fetch requests."@,
            "counter"@,
            self.fetched_bytes,
        ) + metric_text(
            "sevlamq_broker_busy_total"@,
            "Requests rejected because the storage queue remained full."@,
            "counter"@,
            self.broker_busy,
        ) + metric_text(
            "sevlamq_retention_segments_removed_total"@,
            "Closed log segments removed by retention."@,
            "counter"@,
            self.retention_segments_removed,
        ) + metric_text(
            "sevlamq_replication_failures_total"@,
            "Replications that did not reach all followers."@,
            "counter"@,
            self.replication_failures,
        ) + metric_text(
            "sevlamq_automatic_leader_promotions_total"@,
            "Partition leaders promoted after failed probes."@,
            "counter"@,
            self.automatic_promotions,
        ) + histogram_text(
            "sevlamq_produce_duration_seconds"@,
            "End-to-end produce request latency."@,
            self.produce_latency,
        ) + histogram_text(
            "sevlamq_fetch_duration_seconds"@,
            "End-to-end fetch request latency."@,
            self.fetch_latency,
        ) + histogram_text(
            "sevlamq_append_duration_seconds"@,
            "Storage append latency."@,
            self.append_latency,
        ) + histogram_text(
            "sevlamq_flush_duration_seconds"@,
            "Durable storage synchronization latency."@,
            self.flush_latency,
        )
    }
}

/// What a broker counts while it runs.
pub struct RuntimeMetrics {
    active_connections: u64,
    produced_messages: u64,
    produced_bytes: u64,
    fetched_messages: u64,
    fetched_bytes: u64,
    broker_busy: u64,
    retention_segments_removed: u64,
    replication_failures: u64,
    automatic_promotions: u64,
    produce_latency: Histogram,
    fetch_latency: Histogram,
    append_latency: Histogram,
    flush_latency: Histogram,
}

impl View for RuntimeMetrics {
    type V = Metrics;

    closed spec fn view(&self) -> Metrics {
        Metrics {
            active_connections: self.active_connections,
            produced_messages: self.produced_messages,
            produced_bytes: self.produced_bytes,
            fetched_messages: self.fetched_messages,
            fetched_bytes: self.fetched_bytes,
            broker_busy: self.broker_busy,
            retention_segments_removed: self.retention_segments_removed,
            replication_failures: self.replication_failures,
            automatic_promotions: self.automatic_promotions,
            produce_latency: self.produce_latency@,
            fetch_latency: self.fetch_latency@,
            append_latency: self.append_latency@,
            flush_latency: self.flush_latency@,
        }
    }
}

impl Default for RuntimeMetrics {
    fn default() -> (metrics: Self)
        ensures
            metrics.wf(),
            metrics@ == (Metrics {
                active_connections: 0,
                produced_messages: 0,
                produced_bytes: 0,
                fetched_messages: 0,
                fetched_bytes: 0,
                broker_busy: 0,
                retention_segments_removed: 0,
                replication_failures: 0,
                automatic_promotions: 0,
                produce_latency: Latencies::none(),
                fetch_latency: Latencies::none(),
                append_latency: Latencies::none(),
                flush_latency: Latencies::none(),
            }),
    {
        RuntimeMetrics {
            active_connections: 0,
            produced_messages: 0,
            produced_bytes: 0,
            fetched_messages: 0,
            fetched_bytes: 0,
            broker_busy: 0,
            retention_segments_removed: 0,
            replication_failures: 0,
            automatic_promotions: 0,
            produce_latency: Histogram::default(),
            fetch_latency: Histogram::default(),
            append_latency: Histogram::default(),
            flush_latency: Histogram::default(),
        }
    }
}

impl RuntimeMetrics {
    pub closed spec fn wf(self) -> bool {
        &&& self.produce_latency.wf()
        &&& self.fetch_latency.wf()
        &&& self.append_latency.wf()
        &&& self.flush_latency.wf()
    }

    pub fn connection_opened(&mut self)
        requires
            old(self).wf(),
        ensures
            final(self).wf(),
            final(self)@ == old(self)@.connected(),
    {
        self.active_connections = self.active_connections.wrapping_add(1);
    }

    pub fn connection_closed(&mut self)
        requires
            old(self).wf(),
        ensures
            final(self).wf(),
            final(self)@ == old(self)@.disconnected(),
    {
        self.active_connections = self.active_connections.wrapping_sub(1);
    }

    pub fn produced(&mut self, messages: usize, bytes: usize)
        requires
            old(self).wf(),
        ensures
            final(self).wf(),
            final(self)@ == old(self)@.with_produced(messages as u64, bytes as u64),
    {
        self.produced_messages = self.produced_messages.wrapping_add(messages as u64);
        self.produced_bytes = self.produced_bytes.wrapping_add(bytes as u64);
    }

    pub fn fetched(&mut self, messages: usize, bytes: usize)
        requires
            old(self).wf(),
        ensures
            final(self).wf(),
            final(self)@ == old(self)@.with_fetched(messages as u64, bytes as u64),
    {
        self.fetched_messages = self.fetched_messages.wrapping_add(messages as u64);
        self.fetched_bytes = self.fetched_bytes.wrapping_add(bytes as u64);
    }

    pub fn broker_busy(&mut self)
        requires
            old(self).wf(),
        ensures
            final(self).wf(),
            final(self)@ == (Metrics {
                broker_busy: wrapped(old(self)@.broker_busy, 1),
                ..old(self)@
            }),
    {
        self.broker_busy = self.broker_busy.wrapping_add(1);
    }

    pub fn retention_removed(&mut self, segments: usize)
        requires
            old(self).wf(),
        ensures
            final(self).wf(),
            final(self)@ == old(self)@.with_removed(segments as u64),
    {
        self.retention_segments_removed = self.retention_segments_removed.wrapping_add(
            segments as u64,
        );
    }

    /// Counts a replication that has failed.
    pub fn replication_failed(&mut self)
        requires
            old(self).wf(),
        ensures
            final(self).wf(),
            final(self)@ == (Metrics {
                replication_failures: wrapped(old(self)@.replication_failures, 1),
                ..old(self)@
            }),
    {
        self.replication_failures = self.replication_failures.wrapping_add(1);
    }

    /// Counts a leader that was promoted because the one before did not answer.
    pub fn leader_promoted(&mut self)
        requires
            old(self).wf(),
        ensures
            final(self).wf(),
            final(self)@ == (Metrics {
                automatic_promotions: wrapped(old(self)@.automatic_promotions, 1),
                ..old(self)@
            }),
    {
        self.automatic_promotions = self.automatic_promotions.wrapping_add(1);
    }

    pub fn observe_produce(&mut self, micros: u128)
        requires
            old(self).wf(),
        ensures
            final(self).wf(),
            final(self)@ == (Metrics {
                produce_latency: old(self)@.produce_latency.observed(micros),
                ..old(self)@
            }),
    {
        self.produce_latency.observe(micros);
    }

    pub fn observe_fetch(&mut self, micros: u128)
        requires
            old(self).wf(),
        ensures
            final(self).wf(),
            final(self)@ == (Metrics {
                fetch_latency: old(self)@.fetch_latency.observed(micros),
                ..old(self)@
            }),
    {
        self.fetch_latency.observe(micros);
    }

    pub fn observe_append(&mut self, micros: u128)
        requires
            old(self).wf(),
        ensures
            final(self).wf(),
            final(self)@ == (Metrics {
                append_latency: old(self)@.append_latency.observed(micros),
                ..old(self)@
            }),
    {
        self.append_latency.observe(micros);
    }

    pub fn observe_flush(&mut self, micros: u128)
        requires
            old(self).wf(),
        ensures
            final(self).wf(),
            final(self)@ == (Metrics {
                flush_latency: old(self)@.flush_latency.observed(micros),
                ..old(self)@
            }),
    {
        self.flush_latency.observe(micros);
    }

    /// Appends all metrics.
    pub fn render(&self, output: &mut String)
        requires
            self.wf(),
        ensures
            final(output)@ == old(output)@ + self@.text(),
    {
        let mut out = String::new();
        metric(
            &mut out,
            "sevlamq_active_connections",
            "Current client TCP connections.",
            "gauge",
            self.active_connections,
        );
        assert(out@ =~= metric_text(
            "sevlamq_active_connections"@,
            "Current client TCP connections."@,
            "gauge"@,
            self.active_connections,
        ));
        metric(
            &mut out,
            "sevlamq_messages_produced_total",
            "Messages accepted by the broker.",
            "counter",
            self.produced_messages,
        );
        metric(
            &mut out,
            "sevlamq_bytes_produced_total",
            "Uncompressed payload bytes accepted by the broker.",
            "counter",
            self.produced_bytes,
        );
        metric(
            &mut out,
            "sevlamq_messages_fetched_total",
            "Messages returned by fetch requests.",
            "counter",
            self.fetched_messages,
        );
        metric(
            &mut out,
            "sevlamq_bytes_fetched_total",
            "Payload bytes returned by fetch requests.",
            "counter",
            self.fetched_bytes,
        );
        metric(
            &mut out,
            "sevlamq_broker_busy_total",
            "Requests rejected because the storage queue remained full.",
            "counter",
            self.broker_busy,
        );
        metric(
            &mut out,
            "sevlamq_retention_segments_removed_total",
            "Closed log segments removed by retention.",
            "counter",
            self.retention_segments_removed,
        );
        metric(
            &mut out,
            "sevlamq_replication_failures_total",
            "Replications that did not reach all followers.",
            "counter",
            self.replication_failures,
        );
        metric(
            &mut out,
            "sevlamq_automatic_leader_promotions_total",
            "Partition leaders promoted after failed probes.",
            "counter",
            self.automatic_promotions,
        );
        self.produce_latency.render(
            &mut out,
            "sevlamq_produce_duration_seconds",
            "End-to-end produce request latency.",
        );
        self.fetch_latency.render(
            &mut out,
            "sevlamq_fetch_duration_seconds",
            "End-to-end fetch request latency.",
        );
        self.append_latency.render(
            &mut out,
            "sevlamq_append_duration_seconds",
            "Storage append latency.",
        );
        self.flush_latency.render(
            &mut out,
            "sevlamq_flush_duration_seconds",
            "Durable storage synchronization latency.",
        );
        output.append(out.as_str());
    }
}

/// Whether the buckets add up: each counts at least as much as the one before, and the last one
/// counts everything.
pub open spec fn is_cumulative(latencies: Latencies) -> bool {
    &&& latencies.buckets.len() == LATENCY_BUCKETS + 1
    &&& latencies.buckets[LATENCY_BUCKETS as int] == latencies.count
    &&& forall|i: int, j: int|
        #![trigger latencies.buckets[i], latencies.buckets[j]]
        0 <= i <= j <= LATENCY_BUCKETS ==> latencies.buckets[i] <= latencies.buckets[j]
}

/// The buckets add up from the start, and each observation keeps it so, until the count starts
/// again from zero.
pub proof fn histogram_stays_cumulative(latencies: Latencies, micros: u128)
    ensures
        is_cumulative(Latencies::none()),
        is_cumulative(latencies) && latencies.count < u64::MAX ==> is_cumulative(
            latencies.observed(micros),
        ),
{
    if is_cumulative(latencies) && latencies.count < u64::MAX {
        let after = latencies.observed(micros);
        assert forall|i: int, j: int|
            #![trigger after.buckets[i], after.buckets[j]]
            0 <= i <= j <= LATENCY_BUCKETS implies after.buckets[i] <= after.buckets[j] by {
            assert(latencies.buckets[i] <= latencies.buckets[j]);
            assert(latencies.buckets[j] <= latencies.buckets[LATENCY_BUCKETS as int]);
        }
    }
}

/// A histogram after some durations were observed.
pub open spec fn observed_all(durations: Seq<u128>) -> Latencies
    decreases durations.len(),
{
    if durations.len() == 0 {
        Latencies::none()
    } else {
        observed_all(durations.drop_last()).observed(durations.last())
    }
}

/// Whatever durations were observed, the buckets add up and the count is theirs, until the count
/// starts again from zero.
pub proof fn observations_stay_cumulative(durations: Seq<u128>)
    requires
        durations.len() <= u64::MAX,
    ensures
        is_cumulative(observed_all(durations)),
        observed_all(durations).count == durations.len(),
    decreases durations.len(),
{
    if durations.len() == 0 {
        histogram_stays_cumulative(Latencies::none(), 0);
    } else {
        observations_stay_cumulative(durations.drop_last());
        histogram_stays_cumulative(observed_all(durations.drop_last()), durations.last());
    }
}

/// A label value stays on its line, whatever it holds.
pub proof fn label_has_no_line_feed(value: Seq<char>)
    ensures
        text::lacks(escaped(value), '\n'),
    decreases value.len(),
{
    if value.len() > 0 {
        label_has_no_line_feed(value.drop_last());
        reveal_strlit("\\\\");
        reveal_strlit("\\n");
        reveal_strlit("\\\"");
        let front = escaped(value.drop_last());
        let back = escaped_char(value.last());
        assert forall|i: int| 0 <= i < escaped(value).len() implies #[trigger] escaped(value)[i]
            != '\n' by {
            if i < front.len() {
                assert(escaped(value)[i] == front[i]);
            } else {
                assert(escaped(value)[i] == back[i - front.len()]);
            }
        }
    }
}

/// A duration counts in each bucket whose bound it keeps to, in the one for all, and in the sum.
pub proof fn durations_count_in_their_buckets(latencies: Latencies, micros: u64, place: int)
    requires
        0 <= place < 9,
        latencies.buckets.len() == 10,
        latencies.count < u64::MAX,
        forall|i: int| 0 <= i < 10 ==> #[trigger] latencies.buckets[i] < u64::MAX,
        latencies.sum_us + micros <= u64::MAX,
    ensures
        ({
            let bounds = seq![100u64, 500, 1_000, 5_000, 10_000, 50_000, 100_000, 500_000, 1_000_000];
            let after = latencies.observed(micros as u128);
            &&& after.buckets.len() == 10
            &&& micros <= bounds[place] ==> after.buckets[place] == latencies.buckets[place] + 1
            &&& micros > bounds[place] ==> after.buckets[place] == latencies.buckets[place]
            &&& after.buckets[9] == latencies.buckets[9] + 1
            &&& after.count == latencies.count + 1
            &&& after.sum_us == latencies.sum_us + micros
        }),
{
}

/// Counts add up, and start again from zero behind the largest.
pub proof fn counts_add_up(a: u64, b: u64)
    ensures
        a + b <= u64::MAX ==> wrapped(a, b) == a + b,
        a + b > u64::MAX ==> wrapped(a, b) == a + b - u64::MAX - 1,
{
}

/// A number of microseconds is told in seconds with six decimals.
pub proof fn seconds_have_six_decimals(seconds: u64, rest: u64)
    requires
        rest < 1_000_000,
        seconds * 1_000_000 + rest <= u64::MAX,
    ensures
        seconds_text((seconds * 1_000_000 + rest) as u64) == text::decimal(seconds as nat) + "."@
            + text::fixed_width(rest as nat, 10, 6),
{
}

/// A label is escaped character by character: a backslash, a line feed and a quote each become two
/// characters, and every other one stays.
pub proof fn labels_are_escaped_by_character(value: Seq<char>, c: char)
    ensures
        escaped(Seq::empty()) == Seq::<char>::empty(),
        escaped(value.push(c)) == escaped(value) + if c == '\\' {
            seq!['\\', '\\']
        } else if c == '\n' {
            seq!['\\', 'n']
        } else if c == '"' {
            seq!['\\', '"']
        } else {
            seq![c]
        },
{
    reveal_strlit("\\\\");
    reveal_strlit("\\n");
    reveal_strlit("\\\"");
    assert(value.push(c).drop_last() =~= value);
    assert("\\\\"@ =~= seq!['\\', '\\']);
    assert("\\n"@ =~= seq!['\\', 'n']);
    assert("\\\""@ =~= seq!['\\', '"']);
}

/// A connection that is opened and closed leaves the metrics as they were, and while it is open it
/// counts as one.
pub proof fn closed_connections_do_not_count(metrics: Metrics)
    ensures
        metrics.connected().disconnected() == metrics,
        metrics.disconnected().connected() == metrics,
        metrics.active_connections < u64::MAX ==> metrics.connected().active_connections
            == metrics.active_connections + 1,
{
}

/// What is counted in two steps adds up to what is counted in one, and all of it is counted.
pub proof fn messages_are_all_counted(metrics: Metrics, m: u64, n: u64, b: u64, c: u64)
    requires
        m + n <= u64::MAX,
        b + c <= u64::MAX,
    ensures
        metrics.with_produced(m, b).with_produced(n, c) == metrics.with_produced(
            (m + n) as u64,
            (b + c) as u64,
        ),
        metrics.with_fetched(m, b).with_fetched(n, c) == metrics.with_fetched(
            (m + n) as u64,
            (b + c) as u64,
        ),
        metrics.with_removed(m).with_removed(n) == metrics.with_removed((m + n) as u64),
        metrics.produced_messages + m <= u64::MAX ==> metrics.with_produced(m, b).produced_messages
            == metrics.produced_messages + m,
        metrics.produced_bytes + b <= u64::MAX ==> metrics.with_produced(m, b).produced_bytes
            == metrics.produced_bytes + b,
        metrics.fetched_messages + m <= u64::MAX ==> metrics.with_fetched(m, b).fetched_messages
            == metrics.fetched_messages + m,
        metrics.fetched_bytes + b <= u64::MAX ==> metrics.with_fetched(m, b).fetched_bytes
            == metrics.fetched_bytes + b,
        metrics.retention_segments_removed + m <= u64::MAX ==> metrics.with_removed(
            m,
        ).retention_segments_removed == metrics.retention_segments_removed + m,
{
}

} // verus!
