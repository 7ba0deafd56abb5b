//! The page of metrics.

use vstd::prelude::*;
use vstd::string::*;
use crate::broker::model::Tallies;
use crate::connection::queues::QueueTallies;
use crate::crypto::TlsProfile;
use crate::latency;
use crate::latency::{HistogramView, LatencyHistogram};
use crate::metrics::census::Census;
use crate::policy::Limits;
use crate::text;
use crate::text::{ascii_string, decimal_string, decimal_text};

verus! {

/// How full the queues are.
#[derive(Debug, Clone, Copy, PartialEq, Eq, Structural)]
pub struct QueueDepths {
    /// How many packets wait for clients.
    pub client_messages: u64,
    /// How many packets may wait for clients.
    pub client_capacity: u64,
    /// How many messages wait for the bridge.
    pub bridge_messages: u64,
    /// How many messages may wait for the bridge.
    pub bridge_capacity: u64,
}

/// How long it took to route messages.
#[derive(Debug)]
pub struct LatencySummary {
    /// The buckets: their bounds in microseconds, and how many messages took no longer.
    pub buckets: Vec<(Option<u64>, u64)>,
    /// How many messages were measured.
    pub count: u64,
    /// How long they took together, in nanoseconds.
    pub sum_nanos: u64,
    /// How long half of the messages took at most, in microseconds.
    pub p50_micros: u64,
    /// How long 95 of 100 messages took at most, in microseconds.
    pub p95_micros: u64,
    /// How long 99 of 100 messages took at most, in microseconds.
    pub p99_micros: u64,
}

/// A summary, as the contracts see it.
pub struct SummaryView {
    /// The buckets.
    pub buckets: Seq<(Option<u64>, u64)>,
    /// How many messages were measured.
    pub count: u64,
    /// How long they took together.
    pub sum_nanos: u64,
    /// How long half of the messages took at most.
    pub p50_micros: u64,
    /// How long 95 of 100 messages took at most.
    pub p95_micros: u64,
    /// How long 99 of 100 messages took at most.
    pub p99_micros: u64,
}

impl View for LatencySummary {
    type V = SummaryView;

    open spec fn view(&self) -> SummaryView {
        SummaryView {
            buckets: self.buckets@,
            count: self.count,
            sum_nanos: self.sum_nanos,
            p50_micros: self.p50_micros,
            p95_micros: self.p95_micros,
            p99_micros: self.p99_micros,
        }
    }
}

impl SummaryView {
    /// Whether this is the summary of a histogram.
    pub open spec fn summarises(self, h: HistogramView) -> bool {
        &&& self.count == h.count
        &&& self.sum_nanos == h.sum_ns
        &&& self.buckets.len() == 20
        &&& forall|i: int|
            #![trigger self.buckets[i]]
            0 <= i < 20 ==> self.buckets[i].1 == h.cumulative((i + 1) as nat) && self.buckets[i].0
                == (if i < 19 {
                Some(latency::bounds()[i])
            } else {
                None
            })
        &&& self.p50_micros == h.quantile(50, 100)
        &&& self.p95_micros == h.quantile(95, 100)
        &&& self.p99_micros == h.quantile(99, 100)
    }
}

impl LatencySummary {
    /// The summary of a histogram.
    pub fn of(h: &LatencyHistogram) -> (r: Self)
        ensures
            r@.summarises(h@),
    {
        LatencySummary {
            buckets: h.cumulative_buckets(),
            count: h.count(),
            sum_nanos: h.sum_nanos(),
            p50_micros: h.quantile_micros(50, 100),
            p95_micros: h.quantile_micros(95, 100),
            p99_micros: h.quantile_micros(99, 100),
        }
    }
}

/// All that the broker tells of itself.
#[derive(Debug)]
pub struct Report<'a> {
    /// What the sessions come to.
    pub census: Census,
    /// How many messages were published.
    pub published: u64,
    /// The counters.
    pub tallies: Tallies,
    /// The counters of the queues.
    pub queues: QueueTallies,
    /// How full the queues are.
    pub depths: QueueDepths,
    /// How many messages are retained.
    pub retained: u64,
    /// How many Wills wait.
    pub pending_wills: u64,
    /// How many TLS connections have a key exchange that withstands quantum computers.
    pub tls_pqc: u64,
    /// How many TLS connections have a classical key exchange.
    pub tls_classical: u64,
    /// The limits.
    pub limits: Limits,
    /// The largest topic alias that clients may use.
    pub topic_alias_maximum: u16,
    /// How long it took to route messages.
    pub latency: LatencySummary,
    /// The version of the broker.
    pub version: &'a str,
    /// The series of the version.
    pub series: &'a str,
    /// Which key exchanges TLS accepts.
    pub tls_profile: TlsProfile,
}

/// All that the broker tells of itself, as the contracts see it.
pub struct ReportView {
    /// What the sessions come to.
    pub census: Census,
    /// How many messages were published.
    pub published: u64,
    /// The counters.
    pub tallies: Tallies,
    /// The counters of the queues.
    pub queues: QueueTallies,
    /// How full the queues are.
    pub depths: QueueDepths,
    /// How many messages are retained.
    pub retained: u64,
    /// How many Wills wait.
    pub pending_wills: u64,
    /// How many TLS connections have a key exchange that withstands quantum computers.
    pub tls_pqc: u64,
    /// How many TLS connections have a classical key exchange.
    pub tls_classical: u64,
    /// The limits.
    pub limits: Limits,
    /// The largest topic alias that clients may use.
    pub topic_alias_maximum: u16,
    /// How long it took to route messages.
    pub latency: SummaryView,
    /// The version of the broker.
    pub version: Seq<char>,
    /// The series of the version.
    pub series: Seq<char>,
    /// Which key exchanges TLS accepts.
    pub tls_profile: TlsProfile,
}

impl<'a> View for Report<'a> {
    type V = ReportView;

    open spec fn view(&self) -> ReportView {
        ReportView {
            census: self.census,
            published: self.published,
            tallies: self.tallies,
            queues: self.queues,
            depths: self.depths,
            retained: self.retained,
            pending_wills: self.pending_wills,
            tls_pqc: self.tls_pqc,
            tls_classical: self.tls_classical,
            limits: self.limits,
            topic_alias_maximum: self.topic_alias_maximum,
            latency: self.latency@,
            version: self.version@,
            series: self.series@,
            tls_profile: self.tls_profile,
        }
    }
}

/// The last decimal digits of a number, so many.
pub open spec fn last_digits(v: nat, width: nat) -> Seq<u8>
    decreases width,
{
    if width == 0 {
        Seq::empty()
    } else {
        last_digits(v / 10, (width - 1) as nat).push((48 + v % 10) as u8)
    }
}

/// A power of ten.
pub open spec fn ten_to(n: nat) -> nat
    decreases n,
{
    if n == 0 {
        1
    } else {
        10 * ten_to((n - 1) as nat)
    }
}

/// A number of parts of a second, of which `ten_to(places)` make one, in seconds with so many
/// decimal places.
pub open spec fn seconds_text(v: nat, places: nat) -> Seq<char> {
    decimal_text(v / ten_to(places)) + "."@ + text::ascii_text(last_digits(v, places))
}

/// Appends the last decimal digits of a number.
fn push_last_digits(v: u64, width: u64, out: &mut Vec<u8>)
    ensures
        final(out)@ == old(out)@ + last_digits(v as nat, width as nat),
        text::all_ascii(old(out)@) ==> text::all_ascii(final(out)@),
    decreases width,
{
    if width > 0 {
        push_last_digits(v / 10, width - 1, out);
        let ghost before = out@;
        out.push(48 + (v % 10) as u8);
        assert(out@ =~= old(out)@ + last_digits(v as nat, width as nat));
        assert forall|i: int|
            text::all_ascii(old(out)@) && 0 <= i < out@.len() implies #[trigger] out@[i] < 128 by {
            if i < before.len() {
                assert(out@[i] == before[i]);
            }
        }
    } else {
        assert(out@ =~= old(out)@ + Seq::<u8>::empty());
    }
}

/// A number of parts of a second in seconds.
fn seconds_string(v: u64, places: u64) -> (r: String)
    requires
        places == 6 || places == 9,
    ensures
        r@ == seconds_text(v as nat, places as nat),
{
    reveal_with_fuel(ten_to, 10);
    let unit: u64 = if places == 6 {
        1_000_000
    } else {
        1_000_000_000
    };
    assert(unit == ten_to(places as nat));
    let mut digits: Vec<u8> = Vec::new();
    push_last_digits(v, places, &mut digits);
    assert(digits@ =~= last_digits(v as nat, places as nat));
    decimal_string(v / unit).concat(".").concat(ascii_string(&digits).as_str())
}

/// The lines that say what a metric is.
pub open spec fn metric_head(name: Seq<char>, help: Seq<char>, kind: Seq<char>) -> Seq<char> {
    "# HELP "@ + name + " "@ + help + "\n# TYPE "@ + name + " "@ + kind + "\n"@
}

/// A line with a value.
pub open spec fn sample(name: Seq<char>, value: Seq<char>) -> Seq<char> {
    name + " "@ + value + "\n"@
}

/// A metric with one value.
pub open spec fn metric_text(
    name: Seq<char>,
    help: Seq<char>,
    kind: Seq<char>,
    value: Seq<char>,
) -> Seq<char> {
    metric_head(name, help, kind) + sample(name, value)
}

/// Appends the lines that say what a metric is.
fn head(out: &mut String, name: &str, help: &str, kind: &str)
    ensures
        final(out)@ == old(out)@ + metric_head(name@, help@, kind@),
{
    out.append("# HELP ");
    out.append(name);
    out.append(" ");
    out.append(help);
    out.append("\n# TYPE ");
    out.append(name);
    out.append(" ");
    out.append(kind);
    out.append("\n");
    assert(out@ =~= old(out)@ + metric_head(name@, help@, kind@));
}

/// Appends a line with a value.
fn line(out: &mut String, name: &str, value: &str)
    ensures
        final(out)@ == old(out)@ + sample(name@, value@),
{
    out.append(name);
    out.append(" ");
    out.append(value);
    out.append("\n");
    assert(out@ =~= old(out)@ + sample(name@, value@));
}

/// Appends a metric with one value.
fn metric(out: &mut String, name: &str, help: &str, kind: &str, value: &str)
    ensures
        final(out)@ == old(out)@ + metric_text(name@, help@, kind@, value@),
{
    head(out, name, help, kind);
    line(out, name, value);
    assert(out@ =~= old(out)@ + metric_text(name@, help@, kind@, value@));
}

/// The metrics of the sessions and messages, behind what comes before.
pub open spec fn sessions_text(before: Seq<char>, r: ReportView) -> Seq<char> {
    before + metric_text(
        "pipistrelle_connections_total"@,
        "Active MQTT client connections"@,
        "gauge"@,
        decimal_text(r.census.active_connections as nat),
    ) + metric_text(
        "pipistrelle_messages_published_total"@,
        "Messages published since startup"@,
        "counter"@,
        decimal_text(r.published as nat),
    ) + metric_text(
        "pipistrelle_subscriptions_total"@,
        "Subscriptions added since startup"@,
        "counter"@,
        decimal_text(r.tallies.subscriptions as nat),
    ) + metric_text(
        "pipistrelle_client_subscriptions_current"@,
        "Current subscriptions tracked across connected sessions"@,
        "gauge"@,
        decimal_text(r.census.current_subscriptions as nat),
    ) + metric_text(
        "pipistrelle_retained_messages_current"@,
        "Retained MQTT messages currently stored"@,
        "gauge"@,
        decimal_text(r.retained as nat),
    ) + metric_text(
        "pipistrelle_pending_wills_current"@,
        "Last Will messages currently persisted or awaiting publication"@,
        "gauge"@,
        decimal_text(r.pending_wills as nat),
    ) + metric_text(
        "pipistrelle_qos2_incoming_pending"@,
        "QoS 2 inbound flows waiting for PUBREL"@,
        "gauge"@,
        decimal_text(r.census.qos2_incoming as nat),
    ) + metric_text(
        "pipistrelle_qos2_outgoing_pending"@,
        "QoS 2 outbound flows waiting for PUBREC or PUBCOMP"@,
        "gauge"@,
        decimal_text(r.census.qos2_outgoing as nat),
    ) + metric_text(
        "pipistrelle_persistent_sessions_current"@,
        "MQTT sessions with non-zero expiry currently tracked"@,
        "gauge"@,
        decimal_text(r.census.persistent as nat),
    ) + metric_text(
        "pipistrelle_persistent_sessions_offline"@,
        "Persistent MQTT sessions currently offline"@,
        "gauge"@,
        decimal_text(r.census.offline as nat),
    ) + metric_text(
        "pipistrelle_session_takeovers_total"@,
        "ClientID takeovers completed with DISCONNECT 0x8E"@,
        "counter"@,
        decimal_text(r.tallies.session_takeovers as nat),
    ) + metric_text(
        "pipistrelle_wills_published_total"@,
        "Last Will messages published by the broker"@,
        "counter"@,
        decimal_text(r.tallies.wills_published as nat),
    )
}

/// Appends the metrics of the sessions and messages.
fn push_sessions(out: &mut String, r: &Report<'_>)
    ensures
        final(out)@ == sessions_text(old(out)@, r@),
{
    metric(
        out,
        "pipistrelle_connections_total",
        "Active MQTT client connections",
        "gauge",
        decimal_string(r.census.active_connections).as_str(),
    );
    metric(
        out,
        "pipistrelle_messages_published_total",
        "Messages published since startup",
        "counter",
        decimal_string(r.published).as_str(),
    );
    metric(
        out,
        "pipistrelle_subscriptions_total",
        "Subscriptions added since startup",
        "counter",
        decimal_string(r.tallies.subscriptions).as_str(),
    );
    metric(
        out,
        "pipistrelle_client_subscriptions_current",
        "Current subscriptions tracked across connected sessions",
        "gauge",
        decimal_string(r.census.current_subscriptions).as_str(),
    );
    metric(
        out,
        "pipistrelle_retained_messages_current",
        "Retained MQTT messages currently stored",
        "gauge",
        decimal_string(r.retained).as_str(),
    );
    metric(
        out,
        "pipistrelle_pending_wills_current",
        "Last Will messages currently persisted or awaiting publication",
        "gauge",
        decimal_string(r.pending_wills).as_str(),
    );
    metric(
        out,
        "pipistrelle_qos2_incoming_pending",
        "QoS 2 inbound flows waiting for PUBREL",
        "gauge",
        decimal_string(r.census.qos2_incoming).as_str(),
    );
    metric(
        out,
        "pipistrelle_qos2_outgoing_pending",
        "QoS 2 outbound flows waiting for PUBREC or PUBCOMP",
        "gauge",
        decimal_string(r.census.qos2_outgoing).as_str(),
    );
    metric(
        out,
        "pipistrelle_persistent_sessions_current",
        "MQTT sessions with non-zero expiry currently tracked",
        "gauge",
        decimal_string(r.census.persistent).as_str(),
    );
    metric(
        out,
        "pipistrelle_persistent_sessions_offline",
        "Persistent MQTT sessions currently offline",
        "gauge",
        decimal_string(r.census.offline).as_str(),
    );
    metric(
        out,
        "pipistrelle_session_takeovers_total",
        "ClientID takeovers completed with DISCONNECT 0x8E",
        "counter",
        decimal_string(r.tallies.session_takeovers).as_str(),
    );
    metric(
        out,
        "pipistrelle_wills_published_total",
        "Last Will messages published by the broker",
        "counter",
        decimal_string(r.tallies.wills_published).as_str(),
    );
}

/// The metrics of the queues of the clients, behind what comes before.
pub open spec fn queues_text(before: Seq<char>, r: ReportView) -> Seq<char> {
    before + metric_text(
        "pipistrelle_client_outbound_queue_messages"@,
        "Messages currently buffered across client outbound queues"@,
        "gauge"@,
        decimal_text(r.depths.client_messages as nat),
    ) + metric_text(
        "pipistrelle_client_outbound_queue_capacity_messages"@,
        "Total bounded outbound queue capacity across connected clients"@,
        "gauge"@,
        decimal_text(r.depths.client_capacity as nat),
    ) + metric_text(
        "pipistrelle_client_queue_backpressure_total"@,
        "Number of times a client outbound queue filled and forced producer backpressure"@,
        "counter"@,
        decimal_text(r.queues.client_backpressure_events as nat),
    ) + metric_text(
        "pipistrelle_client_queue_backpressure_wait_seconds_total"@,
        "Cumulative time producers waited for bounded client queue capacity"@,
        "counter"@,
        seconds_text(r.queues.client_backpressure_wait_ns as nat, 9),
    ) + metric_text(
        "pipistrelle_slow_consumer_disconnects_total"@,
        "Clients disconnected by the slow-consumer policy"@,
        "counter"@,
        decimal_text(r.queues.slow_consumer_disconnects as nat),
    ) + metric_text(
        "pipistrelle_subscription_quota_rejections_total"@,
        "SUBSCRIBE filters rejected because a client exceeded its quota"@,
        "counter"@,
        decimal_text(r.tallies.subscription_quota_rejections as nat),
    )
}

/// Appends the metrics of the queues of the clients.
fn push_queues(out: &mut String, r: &Report<'_>)
    ensures
        final(out)@ == queues_text(old(out)@, r@),
{
    metric(
        out,
        "pipistrelle_client_outbound_queue_messages",
        "Messages currently buffered across client outbound queues",
        "gauge",
        decimal_string(r.depths.client_messages).as_str(),
    );
    metric(
        out,
        "pipistrelle_client_outbound_queue_capacity_messages",
        "Total bounded outbound queue capacity across connected clients",
        "gauge",
        decimal_string(r.depths.client_capacity).as_str(),
    );
    metric(
        out,
        "pipistrelle_client_queue_backpressure_total",
        "Number of times a client outbound queue filled and forced producer backpressure",
        "counter",
        decimal_string(r.queues.client_backpressure_events).as_str(),
    );
    metric(
        out,
        "pipistrelle_client_queue_backpressure_wait_seconds_total",
        "Cumulative time producers waited for bounded client queue capacity",
        "counter",
        seconds_string(r.queues.client_backpressure_wait_ns, 9).as_str(),
    );
    metric(
        out,
        "pipistrelle_slow_consumer_disconnects_total",
        "Clients disconnected by the slow-consumer policy",
        "counter",
        decimal_string(r.queues.slow_consumer_disconnects).as_str(),
    );
    metric(
        out,
        "pipistrelle_subscription_quota_rejections_total",
        "SUBSCRIBE filters rejected because a client exceeded its quota",
        "counter",
        decimal_string(r.tallies.subscription_quota_rejections).as_str(),
    );
}

/// The metrics of the queue of the bridge, behind what comes before.
pub open spec fn bridge_text(before: Seq<char>, r: ReportView) -> Seq<char> {
    before + metric_text(
        "pipistrelle_bridge_outbound_queue_messages"@,
        "Messages waiting for the remote bridge"@,
        "gauge"@,
        decimal_text(r.depths.bridge_messages as nat),
    ) + metric_text(
        "pipistrelle_bridge_outbound_queue_capacity_messages"@,
        "Bounded remote bridge queue capacity"@,
        "gauge"@,
        decimal_text(r.depths.bridge_capacity as nat),
    ) + metric_text(
        "pipistrelle_bridge_queue_backpressure_total"@,
        "Times the remote bridge queue reached capacity"@,
        "counter"@,
        decimal_text(r.queues.bridge_backpressure_events as nat),
    ) + metric_text(
        "pipistrelle_bridge_queue_backpressure_wait_seconds_total"@,
        "Cumulative bridge producer wait time when policy is backpressure"@,
        "counter"@,
        seconds_text(r.queues.bridge_backpressure_wait_ns as nat, 9),
    ) + metric_text(
        "pipistrelle_bridge_queue_dropped_total"@,
        "Bridge messages dropped by the explicit drop-newest policy"@,
        "counter"@,
        decimal_text(r.queues.bridge_dropped as nat),
    )
}

/// Appends the metrics of the queue of the bridge.
fn push_bridge(out: &mut String, r: &Report<'_>)
    ensures
        final(out)@ == bridge_text(old(out)@, r@),
{
    metric(
        out,
        "pipistrelle_bridge_outbound_queue_messages",
        "Messages waiting for the remote bridge",
        "gauge",
        decimal_string(r.depths.bridge_messages).as_str(),
    );
    metric(
        out,
        "pipistrelle_bridge_outbound_queue_capacity_messages",
        "Bounded remote bridge queue capacity",
        "gauge",
        decimal_string(r.depths.bridge_capacity).as_str(),
    );
    metric(
        out,
        "pipistrelle_bridge_queue_backpressure_total",
        "Times the remote bridge queue reached capacity",
        "counter",
        decimal_string(r.queues.bridge_backpressure_events).as_str(),
    );
    metric(
        out,
        "pipistrelle_bridge_queue_backpressure_wait_seconds_total",
        "Cumulative bridge producer wait time when policy is backpressure",
        "counter",
        seconds_string(r.queues.bridge_backpressure_wait_ns, 9).as_str(),
    );
    metric(
        out,
        "pipistrelle_bridge_queue_dropped_total",
        "Bridge messages dropped by the explicit drop-newest policy",
        "counter",
        decimal_string(r.queues.bridge_dropped).as_str(),
    );
}

/// The metrics of the settings, behind what comes before.
pub open spec fn settings_text(before: Seq<char>, r: ReportView) -> Seq<char> {
    before + metric_text(
        "pipistrelle_publish_route_latency_sample_rate"@,
        "One latency observation is recorded for every N publishes"@,
        "gauge"@,
        decimal_text(r.limits.latency_sample_rate as nat),
    ) + metric_text(
        "pipistrelle_writer_batch_packets"@,
        "Maximum MQTT packets coalesced per writer batch"@,
        "gauge"@,
        decimal_text(r.limits.writer_batch_packets as nat),
    ) + metric_text(
        "pipistrelle_writer_batch_bytes"@,
        "Target byte ceiling for a writer batch"@,
        "gauge"@,
        decimal_text(r.limits.writer_batch_bytes as nat),
    ) + metric_text(
        "pipistrelle_receive_maximum"@,
        "Server-advertised MQTT Receive Maximum for inbound QoS1/2"@,
        "gauge"@,
        decimal_text(r.limits.receive_maximum as u64 as nat),
    ) + metric_text(
        "pipistrelle_maximum_packet_size_bytes"@,
        "Server-advertised MQTT Maximum Packet Size in bytes"@,
        "gauge"@,
        decimal_text(r.limits.maximum_packet_size as u64 as nat),
    ) + metric_text(
        "pipistrelle_topic_alias_maximum"@,
        "Server-advertised MQTT Topic Alias Maximum for Client-to-Server PUBLISH"@,
        "gauge"@,
        decimal_text(r.topic_alias_maximum as u64 as nat),
    )
}

/// Appends the metrics of the settings.
fn push_settings(out: &mut String, r: &Report<'_>)
    ensures
        final(out)@ == settings_text(old(out)@, r@),
{
    metric(
        out,
        "pipistrelle_publish_route_latency_sample_rate",
        "One latency observation is recorded for every N publishes",
        "gauge",
        decimal_string(r.limits.latency_sample_rate).as_str(),
    );
    metric(
        out,
        "pipistrelle_writer_batch_packets",
        "Maximum MQTT packets coalesced per writer batch",
        "gauge",
        decimal_string(r.limits.writer_batch_packets).as_str(),
    );
    metric(
        out,
        "pipistrelle_writer_batch_bytes",
        "Target byte ceiling for a writer batch",
        "gauge",
        decimal_string(r.limits.writer_batch_bytes).as_str(),
    );
    metric(
        out,
        "pipistrelle_receive_maximum",
        "Server-advertised MQTT Receive Maximum for inbound QoS1/2",
        "gauge",
        decimal_string(r.limits.receive_maximum as u64).as_str(),
    );
    metric(
        out,
        "pipistrelle_maximum_packet_size_bytes",
        "Server-advertised MQTT Maximum Packet Size in bytes",
        "gauge",
        decimal_string(r.limits.maximum_packet_size as u64).as_str(),
    );
    metric(
        out,
        "pipistrelle_topic_alias_maximum",
        "Server-advertised MQTT Topic Alias Maximum for Client-to-Server PUBLISH",
        "gauge",
        decimal_string(r.topic_alias_maximum as u64).as_str(),
    );
}

/// The metrics of the quantiles of the routing time, behind what comes before.
pub open spec fn quantiles_text(before: Seq<char>, r: ReportView) -> Seq<char> {
    before + metric_text(
        "pipistrelle_publish_route_latency_p50_seconds"@,
        "Approximate P50 publish routing latency"@,
        "gauge"@,
        seconds_text(r.latency.p50_micros as nat, 6),
    ) + metric_text(
        "pipistrelle_publish_route_latency_p95_seconds"@,
        "Approximate P95 publish routing latency"@,
        "gauge"@,
        seconds_text(r.latency.p95_micros as nat, 6),
    ) + metric_text(
        "pipistrelle_publish_route_latency_p99_seconds"@,
        "Approximate P99 publish routing latency"@,
        "gauge"@,
        seconds_text(r.latency.p99_micros as nat, 6),
    )
}

/// Appends the metrics of the quantiles of the routing time.
fn push_quantiles(out: &mut String, r: &Report<'_>)
    ensures
        final(out)@ == quantiles_text(old(out)@, r@),
{
    metric(
        out,
        "pipistrelle_publish_route_latency_p50_seconds",
        "Approximate P50 publish routing latency",
        "gauge",
        seconds_string(r.latency.p50_micros, 6).as_str(),
    );
    metric(
        out,
        "pipistrelle_publish_route_latency_p95_seconds",
        "Approximate P95 publish routing latency",
        "gauge",
        seconds_string(r.latency.p95_micros, 6).as_str(),
    );
    metric(
        out,
        "pipistrelle_publish_route_latency_p99_seconds",
        "Approximate P99 publish routing latency",
        "gauge",
        seconds_string(r.latency.p99_micros, 6).as_str(),
    );
}

/// The metrics of the TLS connections, behind what comes before.
pub open spec fn tls_text(before: Seq<char>, r: ReportView) -> Seq<char> {
    before + metric_head(
        "pipistrelle_tls_handshakes_total"@,
        "Successful TLS 1.3 handshakes by negotiated key exchange family"@,
        "counter"@,
    ) + sample(
        "pipistrelle_tls_handshakes_total{kind=\"pqc\"}"@,
        decimal_text(r.tls_pqc as nat),
    ) + sample(
        "pipistrelle_tls_handshakes_total{kind=\"classical\"}"@,
        decimal_text(r.tls_classical as nat),
    )
}

/// Appends the metrics of the TLS connections.
fn push_tls(out: &mut String, r: &Report<'_>)
    ensures
        final(out)@ == tls_text(old(out)@, r@),
{
    head(
        out,
        "pipistrelle_tls_handshakes_total",
        "Successful TLS 1.3 handshakes by negotiated key exchange family",
        "counter",
    );
    line(
        out,
        "pipistrelle_tls_handshakes_total{kind=\"pqc\"}",
        decimal_string(r.tls_pqc).as_str(),
    );
    line(
        out,
        "pipistrelle_tls_handshakes_total{kind=\"classical\"}",
        decimal_string(r.tls_classical).as_str(),
    );
}

/// The line of a bucket: how many messages took no longer than its bound.
pub open spec fn bucket_line(bucket: (Option<u64>, u64)) -> Seq<char> {
    sample(
        "pipistrelle_publish_route_latency_seconds_bucket{le=\""@ + (match bucket.0 {
            Some(micros) => seconds_text(micros as nat, 6),
            None => "+Inf"@,
        }) + "\"}"@,
        decimal_text(bucket.1 as nat),
    )
}

/// The lines of the first buckets, behind what comes before.
pub open spec fn bucket_lines(before: Seq<char>, buckets: Seq<(Option<u64>, u64)>, n: nat) -> Seq<
    char,
>
    decreases n,
{
    if n == 0 {
        before
    } else {
        bucket_lines(before, buckets, (n - 1) as nat) + bucket_line(buckets[n - 1])
    }
}

/// The histogram of the routing time, behind what comes before.
pub open spec fn histogram_text(before: Seq<char>, r: ReportView) -> Seq<char> {
    bucket_lines(
        before + metric_head(
            "pipistrelle_publish_route_latency_seconds"@,
            "Sampled time spent routing one inbound PUBLISH, including bounded queue waits"@,
            "histogram"@,
        ),
        r.latency.buckets,
        r.latency.buckets.len(),
    ) + sample(
        "pipistrelle_publish_route_latency_seconds_count"@,
        decimal_text(r.latency.count as nat),
    ) + sample(
        "pipistrelle_publish_route_latency_seconds_sum"@,
        seconds_text(r.latency.sum_nanos as nat, 9),
    )
}

/// Appends the histogram of the routing time.
fn push_histogram(out: &mut String, r: &Report<'_>)
    ensures
        final(out)@ == histogram_text(old(out)@, r@),
{
    head(
        out,
        "pipistrelle_publish_route_latency_seconds",
        "Sampled time spent routing one inbound PUBLISH, including bounded queue waits",
        "histogram",
    );
    let ghost start = out@;
    let mut i: usize = 0;
    while i < r.latency.buckets.len()
        invariant
            i <= r.latency.buckets@.len(),
            out@ == bucket_lines(start, r.latency.buckets@, i as nat),
        decreases r.latency.buckets@.len() - i,
    {
        let (bound, count): (Option<u64>, u64) = r.latency.buckets[i];
        let bound_text = match bound {
            Some(micros) => seconds_string(micros, 6),
            None => "+Inf".to_owned(),
        };
        let name = "pipistrelle_publish_route_latency_seconds_bucket{le=\"".to_owned().concat(
            bound_text.as_str(),
        ).concat("\"}");
        line(out, name.as_str(), decimal_string(count).as_str());
        i = i + 1;
    }
    line(
        out,
        "pipistrelle_publish_route_latency_seconds_count",
        decimal_string(r.latency.count).as_str(),
    );
    line(
        out,
        "pipistrelle_publish_route_latency_seconds_sum",
        seconds_string(r.latency.sum_nanos, 9).as_str(),
    );
}

/// What the broker is, behind what comes before.
pub open spec fn build_text(before: Seq<char>, r: ReportView) -> Seq<char> {
    before + metric_head(
        "pipistrelle_build_info"@,
        "Pipistrelle build information"@,
        "gauge"@,
    ) + sample(
        "pipistrelle_build_info{version=\""@ + r.version + "\",series=\""@ + r.series
            + "\",tls_profile=\""@ + crate::crypto::profile_name(r.tls_profile) + "\"}"@,
        "1"@,
    )
}

/// Appends what the broker is.
fn push_build(out: &mut String, r: &Report<'_>)
    ensures
        final(out)@ == build_text(old(out)@, r@),
{
    head(out, "pipistrelle_build_info", "Pipistrelle build information", "gauge");
    let name = "pipistrelle_build_info{version=\"".to_owned().concat(r.version).concat(
        "\",series=\"",
    ).concat(r.series).concat("\",tls_profile=\"").concat(r.tls_profile.as_str()).concat("\"}");
    line(out, name.as_str(), "1");
}

/// The page of metrics.
pub open spec fn page_text(r: ReportView) -> Seq<char> {
    build_text(
        quantiles_text(
            histogram_text(
                settings_text(
                    bridge_text(
                        queues_text(tls_text(sessions_text(Seq::empty(), r), r), r),
                        r,
                    ),
                    r,
                ),
                r,
            ),
            r,
        ),
        r,
    )
}

/// Makes the page of metrics.
pub fn metrics_page(r: &Report<'_>) -> (page: String)
    ensures
        page@ == page_text(r@),
{
    let mut page = String::new();
    assert(page@ =~= Seq::empty());
    push_sessions(&mut page, r);
    push_tls(&mut page, r);
    push_queues(&mut page, r);
    push_bridge(&mut page, r);
    push_settings(&mut page, r);
    push_histogram(&mut page, r);
    push_quantiles(&mut page, r);
    push_build(&mut page, r);
    page
}

/// The last digits of a number are as many as asked for, all of them decimal digits, and their value
/// is what is left of the number without the digits before them.
pub proof fn law_last_digits(v: nat, width: nat)
    ensures
        last_digits(v, width).len() == width,
        text::all_digits(last_digits(v, width)),
        text::digits_value(last_digits(v, width)) == v % ten_to(width),
        ten_to(width) > 0,
    decreases width,
{
    if width > 0 {
        let n = (width - 1) as nat;
        law_last_digits(v / 10, n);
        let front = last_digits(v / 10, n);
        let all = last_digits(v, width);
        assert(all.drop_last() =~= front);
        assert forall|i: int| 0 <= i < all.len() implies 48 <= #[trigger] all[i] <= 57 by {
            if i < front.len() {
                assert(all[i] == front[i]);
            }
        }
        let t = ten_to(n);
        assert((v / 10) % t * 10 + v % 10 == v % (10 * t)) by {
            vstd::arithmetic::div_mod::lemma_mod_breakdown(v as int, 10, t as int);
        }
    } else {
        assert(v % 1 == 0);
    }
}

} // verus!
