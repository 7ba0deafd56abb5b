//! Settings: policies and limits, and what their texts mean.

use vstd::prelude::*;
use vstd::utf8;
use crate::text;
use crate::text::{normalized, parse_number, spells};

verus! {

/// What happens to a client that does not keep up.
#[derive(Debug, Clone, Copy, PartialEq, Eq, Structural)]
pub enum SlowConsumerPolicy {
    /// Whoever publishes waits.
    Backpressure,
    /// The client is disconnected once it has not caught up for a while.
    Disconnect,
}

impl SlowConsumerPolicy {
    /// The policy that a setting names; `Backpressure` unless it is `disconnect`.
    pub fn parse(value: &str) -> (r: Self)
        ensures
            r == (if text::setting(value@) == "disconnect"@ {
                SlowConsumerPolicy::Disconnect
            } else {
                SlowConsumerPolicy::Backpressure
            }),
    {
        if spells(&normalized(value), "disconnect") {
            SlowConsumerPolicy::Disconnect
        } else {
            SlowConsumerPolicy::Backpressure
        }
    }

    /// The name of the policy.
    pub fn as_str(self) -> (r: &'static str)
        ensures
            r@ == slow_consumer_name(self),
    {
        match self {
            SlowConsumerPolicy::Backpressure => "backpressure",
            SlowConsumerPolicy::Disconnect => "disconnect",
        }
    }
}

/// The name of what happens to a client that does not keep up.
pub open spec fn slow_consumer_name(policy: SlowConsumerPolicy) -> Seq<char> {
    match policy {
        SlowConsumerPolicy::Backpressure => "backpressure"@,
        SlowConsumerPolicy::Disconnect => "disconnect"@,
    }
}

/// The name of what happens when the queue of the bridge is full.
pub open spec fn bridge_queue_name(policy: BridgeQueuePolicy) -> Seq<char> {
    match policy {
        BridgeQueuePolicy::DropNewest => "drop-newest"@,
        BridgeQueuePolicy::Backpressure => "backpressure"@,
    }
}

/// What happens to a message for the bridge when its queue is full.
#[derive(Debug, Clone, Copy, PartialEq, Eq, Structural)]
pub enum BridgeQueuePolicy {
    /// The message is dropped.
    DropNewest,
    /// Whoever publishes waits.
    Backpressure,
}

impl BridgeQueuePolicy {
    /// The policy that a setting names; `DropNewest` unless it is `backpressure`.
    pub fn parse(value: &str) -> (r: Self)
        ensures
            r == (if text::setting(value@) == "backpressure"@ {
                BridgeQueuePolicy::Backpressure
            } else {
                BridgeQueuePolicy::DropNewest
            }),
    {
        if spells(&normalized(value), "backpressure") {
            BridgeQueuePolicy::Backpressure
        } else {
            BridgeQueuePolicy::DropNewest
        }
    }

    /// The name of the policy.
    pub fn as_str(self) -> (r: &'static str)
        ensures
            r@ == bridge_queue_name(self),
    {
        match self {
            BridgeQueuePolicy::DropNewest => "drop-newest",
            BridgeQueuePolicy::Backpressure => "backpressure",
        }
    }
}

/// The number that a setting asks for, brought between two bounds; a default where the setting is
/// absent or no number.
pub open spec fn bounded(value: Option<Seq<char>>, low: u64, high: u64, default: u64) -> u64 {
    match value {
        None => default,
        Some(t) => match text::number(utf8::encode_utf8(t), u64::MAX) {
            None => default,
            Some(v) => if v < low {
                low
            } else if v > high {
                high
            } else {
                v
            },
        },
    }
}

/// The content of a setting.
pub open spec fn setting_opt(value: Option<&str>) -> Option<Seq<char>> {
    match value {
        Some(v) => Some(v@),
        None => None,
    }
}

/// The number that a setting asks for, brought between two bounds.
pub fn bounded_setting(value: Option<&str>, low: u64, high: u64, default: u64) -> (r: u64)
    requires
        low <= high,
    ensures
        r == bounded(setting_opt(value), low, high, default),
{
    match value {
        None => default,
        Some(t) => match parse_number(t, u64::MAX) {
            None => default,
            Some(v) => if v < low {
                low
            } else if v > high {
                high
            } else {
                v
            },
        },
    }
}

/// The least of `p`, `2 * p`, `4 * p` and so on that is not below `v`, where none of those before
/// it is above 32768.
pub open spec fn power_of_two_from(v: u64, p: u64) -> u64
    decreases 65536 - p,
{
    if p >= v || p > 32768 || p == 0 {
        p
    } else {
        power_of_two_from(v, (p * 2) as u64)
    }
}

/// The texts of the settings, each where it is present.
pub struct Settings<'a> {
    /// How many packets may wait for a client.
    pub client_queue_capacity: Option<&'a str>,
    /// How many topic filters a client may subscribe to.
    pub max_subscriptions_per_client: Option<&'a str>,
    /// What happens to a client that does not keep up.
    pub slow_consumer_policy: Option<&'a str>,
    /// For how long a client may not keep up, in milliseconds.
    pub slow_consumer_timeout_ms: Option<&'a str>,
    /// How many messages may wait for the bridge.
    pub bridge_queue_capacity: Option<&'a str>,
    /// What happens when the queue of the bridge is full.
    pub bridge_queue_policy: Option<&'a str>,
    /// Of how many messages the routing time of one is measured.
    pub latency_sample_rate: Option<&'a str>,
    /// How many packets are written at a time.
    pub writer_batch_packets: Option<&'a str>,
    /// How many bytes are written at a time.
    pub writer_batch_bytes: Option<&'a str>,
    /// How many unacknowledged messages a client may send at a time.
    pub receive_maximum: Option<&'a str>,
    /// The largest packet a client may send.
    pub max_packet_size: Option<&'a str>,
}

/// The limits and policies of the broker.
#[derive(Debug, Clone, Copy, PartialEq, Eq, Structural)]
pub struct Limits {
    /// How many packets may wait for a client.
    pub client_queue_capacity: u64,
    /// How many topic filters a client may subscribe to.
    pub max_subscriptions_per_client: u64,
    /// What happens to a client that does not keep up.
    pub slow_consumer_policy: SlowConsumerPolicy,
    /// For how long a client may not keep up, in milliseconds.
    pub slow_consumer_timeout_ms: u64,
    /// How many messages may wait for the bridge.
    pub bridge_queue_capacity: u64,
    /// What happens when the queue of the bridge is full.
    pub bridge_queue_policy: BridgeQueuePolicy,
    /// Of how many messages the routing time of one is measured; a power of two.
    pub latency_sample_rate: u64,
    /// How many packets are written at a time.
    pub writer_batch_packets: u64,
    /// How many bytes are written at a time.
    pub writer_batch_bytes: u64,
    /// How many unacknowledged messages a client may send at a time.
    pub receive_maximum: u16,
    /// The largest packet a client may send.
    pub maximum_packet_size: u32,
}

/// The Receive Maximum that a setting asks for: any 16-bit number but 0, and 1024 otherwise.
pub open spec fn receive_maximum_of(value: Option<Seq<char>>) -> u16 {
    match value {
        None => 1024,
        Some(t) => match text::number(utf8::encode_utf8(t), 65535) {
            Some(v) => if v > 0 {
                v as u16
            } else {
                1024
            },
            None => 1024,
        },
    }
}

/// The largest topic alias that clients may use, as a setting asks for: any 16-bit number, where
/// 0 disables aliases, and 32 otherwise.
pub open spec fn topic_alias_maximum_of(value: Option<Seq<char>>) -> u16 {
    match value {
        None => 32,
        Some(t) => match text::number(utf8::encode_utf8(t), 65535) {
            Some(v) => v as u16,
            None => 32,
        },
    }
}

/// The largest topic alias that clients may use, as a setting asks for.
pub fn topic_alias_maximum(value: Option<&str>) -> (r: u16)
    ensures
        r == topic_alias_maximum_of(setting_opt(value)),
{
    match value {
        None => 32,
        Some(t) => match parse_number(t, 65535) {
            Some(v) => v as u16,
            None => 32,
        },
    }
}

impl Limits {
    /// The limits and policies that the settings ask for, each brought between its bounds.
    pub fn from_settings(s: &Settings<'_>) -> (r: Limits)
        ensures
            r.client_queue_capacity == bounded(
                setting_opt(s.client_queue_capacity),
                16,
                65_536,
                1_024,
            ),
            r.max_subscriptions_per_client == bounded(
                setting_opt(s.max_subscriptions_per_client),
                1,
                65_535,
                256,
            ),
            r.slow_consumer_policy == (match s.slow_consumer_policy {
                Some(v) => if text::setting(v@) == "disconnect"@ {
                    SlowConsumerPolicy::Disconnect
                } else {
                    SlowConsumerPolicy::Backpressure
                },
                None => SlowConsumerPolicy::Backpressure,
            }),
            r.slow_consumer_timeout_ms == bounded(
                setting_opt(s.slow_consumer_timeout_ms),
                10,
                60_000,
                5_000,
            ),
            r.bridge_queue_capacity == bounded(
                setting_opt(s.bridge_queue_capacity),
                16,
                262_144,
                4_096,
            ),
            r.bridge_queue_policy == (match s.bridge_queue_policy {
                Some(v) => if text::setting(v@) == "backpressure"@ {
                    BridgeQueuePolicy::Backpressure
                } else {
                    BridgeQueuePolicy::DropNewest
                },
                None => BridgeQueuePolicy::DropNewest,
            }),
            r.latency_sample_rate == power_of_two_from(
                bounded(setting_opt(s.latency_sample_rate), 1, 65_536, 64),
                1,
            ),
            r.writer_batch_packets == bounded(setting_opt(s.writer_batch_packets), 1, 4_096, 256),
            r.writer_batch_bytes == bounded(
                setting_opt(s.writer_batch_bytes),
                4_096,
                4_194_304,
                262_144,
            ),
            r.receive_maximum == receive_maximum_of(setting_opt(s.receive_maximum)),
            r.maximum_packet_size == bounded(
                setting_opt(s.max_packet_size),
                1_024,
                268_435_455,
                16_777_216,
            ),
    {
        let rate: u64 = bounded_setting(s.latency_sample_rate, 1, 65_536, 64);
        let mut power: u64 = 1;
        while power < rate && power <= 32768
            invariant
                0 < power <= 65536,
                rate <= 65536,
                power_of_two_from(rate, power) == power_of_two_from(rate, 1),
            decreases 65536 - power,
        {
            power = power * 2;
        }
        Limits {
            client_queue_capacity: bounded_setting(s.client_queue_capacity, 16, 65_536, 1_024),
            max_subscriptions_per_client: bounded_setting(
                s.max_subscriptions_per_client,
                1,
                65_535,
                256,
            ),
            slow_consumer_policy: match s.slow_consumer_policy {
                Some(v) => SlowConsumerPolicy::parse(v),
                None => SlowConsumerPolicy::Backpressure,
            },
            slow_consumer_timeout_ms: bounded_setting(
                s.slow_consumer_timeout_ms,
                10,
                60_000,
                5_000,
            ),
            bridge_queue_capacity: bounded_setting(s.bridge_queue_capacity, 16, 262_144, 4_096),
            bridge_queue_policy: match s.bridge_queue_policy {
                Some(v) => BridgeQueuePolicy::parse(v),
                None => BridgeQueuePolicy::DropNewest,
            },
            latency_sample_rate: power,
            writer_batch_packets: bounded_setting(s.writer_batch_packets, 1, 4_096, 256),
            writer_batch_bytes: bounded_setting(s.writer_batch_bytes, 4_096, 4_194_304, 262_144),
            receive_maximum: receive_maximum_setting(s.receive_maximum),
            maximum_packet_size: bounded_setting(
                s.max_packet_size,
                1_024,
                268_435_455,
                16_777_216,
            ) as u32,
        }
    }
}

/// The Receive Maximum that a setting asks for.
fn receive_maximum_setting(value: Option<&str>) -> (r: u16)
    ensures
        r == receive_maximum_of(setting_opt(value)),
{
    match value {
        None => 1024,
        Some(t) => match parse_number(t, 65535) {
            Some(v) => if v > 0 {
                v as u16
            } else {
                1024
            },
            None => 1024,
        },
    }
}

/// Whether the power of two is one: the weight of a single bit up to 65536.
pub open spec fn is_sample_rate(v: u64) -> bool {
    v == 1 || v == 2 || v == 4 || v == 8 || v == 16 || v == 32 || v == 64 || v == 128 || v == 256
        || v == 512 || v == 1024 || v == 2048 || v == 4096 || v == 8192 || v == 16384 || v == 32768
        || v == 65536
}

/// The sample rate is a power of two, and it is not below what was asked for.
pub proof fn law_sample_rate_is_power_of_two(v: u64, p: u64)
    requires
        v <= 65536,
        is_sample_rate(p),
    ensures
        is_sample_rate(power_of_two_from(v, p)),
        power_of_two_from(v, p) >= v,
    decreases 65536 - p,
{
    if p < v && p <= 32768 {
        law_sample_rate_is_power_of_two(v, (p * 2) as u64);
    }
}

/// Whether the routing time of a message is measured: one of `rate` messages is.
pub fn sampled(sequence: u64, rate: u64) -> (r: bool)
    requires
        rate > 0,
    ensures
        r == (sequence % rate == 0),
{
    sequence % rate == 0
}

/// How many of the numbers from `start` on, `count` of them, are multiples of `rate`.
pub open spec fn multiples(start: nat, count: nat, rate: nat) -> nat
    decreases count,
{
    if count == 0 {
        0
    } else {
        multiples(start, (count - 1) as nat, rate) + if (start + count - 1) % (rate as int) == 0 {
            1nat
        } else {
            0
        }
    }
}

/// The number of multiples up to the first of them, and beyond.
proof fn lemma_multiples(start: nat, count: nat, rate: nat)
    requires
        rate > 0,
    ensures
        ({
            let first: int = if start % rate == 0 {
                0
            } else {
                rate - start % rate
            };
            multiples(start, count, rate) == (if first >= count {
                0
            } else {
                1 + (count - 1 - first) / (rate as int)
            })
        }),
    decreases count,
{
    if count > 0 {
        lemma_multiples(start, (count - 1) as nat, rate);
        let first: int = if start % rate == 0 {
            0
        } else {
            rate - start % rate
        };
        let last = start + count - 1;
        let d: int = count - 1 - first;
        let r: int = rate as int;
        assert((start + first) % r == 0) by (nonlinear_arith)
            requires
                r == rate,
                rate > 0,
                first == (if start % rate == 0 {
                    0
                } else {
                    rate - start % rate
                }),
        ;
        assert(last == (start + first) + d);
        vstd::arithmetic::div_mod::lemma_fundamental_div_mod(start + first, r);
        let q = (start + first) / r;
        assert(start + first == r * q);
        vstd::arithmetic::div_mod::lemma_mod_multiples_vanish(q, d, r);
        assert(last % r == d % r);
        if d > 0 {
            assert((d % r == 0) ==> d / r == (d - 1) / r + 1) by (nonlinear_arith)
                requires
                    d > 0,
                    r > 0,
            ;
            assert((d % r != 0) ==> d / r == (d - 1) / r) by (nonlinear_arith)
                requires
                    d > 0,
                    r > 0,
            ;
        } else if d == 0 {
            assert(0int / r == 0) by (nonlinear_arith)
                requires
                    r > 0,
            ;
            assert(0int % r == 0) by (nonlinear_arith)
                requires
                    r > 0,
            ;
        } else {
            assert(d % r != 0) by {
                if start % rate == 0 {
                } else {
                    assert(-r < d < 0) by (nonlinear_arith)
                        requires
                            d == count - 1 - first,
                            first == rate - start % rate,
                            r == rate,
                            count >= 1,
                            d < 0,
                            start % rate > 0,
                            rate > 0,
                    ;
                    assert(d % r != 0) by (nonlinear_arith)
                        requires
                            -r < d < 0,
                    ;
                }
            }
        }
    }
}

/// How many of `count` messages from number `start` on have their routing time measured.
pub fn sampled_sequences_in_range(start: u64, count: u64, sample_rate: u64) -> (n: u64)
    requires
        sample_rate > 0,
    ensures
        n == multiples(start as nat, count as nat, sample_rate as nat),
{
    proof {
        lemma_multiples(start as nat, count as nat, sample_rate as nat);
    }
    if count == 0 {
        return 0;
    }
    let into: u64 = start % sample_rate;
    let first_delta: u64 = if into == 0 {
        0
    } else {
        sample_rate - into
    };
    if first_delta >= count {
        0
    } else {
        assert((count - 1 - first_delta) / (sample_rate as int) <= count - 1 - first_delta)
            by (nonlinear_arith)
            requires
                sample_rate > 0,
                count - 1 - first_delta >= 0,
        ;
        1 + (count - 1 - first_delta) / sample_rate
    }
}

} // verus!
