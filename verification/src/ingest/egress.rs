//! In which form packets with an alias go out to their only receiver.

use vstd::prelude::*;
use crate::codec::encode;
use crate::codec::packet::PacketView;
use crate::codec::property;
use crate::codec::property::ValueView;
use crate::ingest::forward;
use crate::ingest::forward::{expand_fast_alias_batch, forward_with_alias, FastAliasEgressCache};
use crate::ingest::scan::{FastIngestBatch, FastIngestLayout, LayoutView};

verus! {

/// What is done next with a batch of packets that use an alias.
pub enum EgressStep {
    /// This packet is sent, which establishes the receiver's alias and carries the first message;
    /// whether that was possible decides how to go on.
    Mapping(Vec<u8>),
    /// These packets are sent, each of this length, and the batch is done.
    Packets(Vec<u8>, usize),
    /// Nothing: the packet at the front is decoded.
    Decode,
}

/// What is done next, as the contracts see it.
#[verifier::ext_equal]
pub enum EgressView {
    /// The receiver's alias is established.
    Mapping(Seq<u8>),
    /// These packets are sent.
    Packets(Seq<u8>, nat),
    /// The packet at the front is decoded.
    Decode,
}

impl View for EgressStep {
    type V = EgressView;

    open spec fn view(&self) -> EgressView {
        match *self {
            EgressStep::Mapping(bytes) => EgressView::Mapping(bytes@),
            EgressStep::Packets(bytes, length) => EgressView::Packets(bytes@, length as nat),
            EgressStep::Decode => EgressView::Decode,
        }
    }
}

/// The packets of a batch with the full topic, where that is possible.
pub open spec fn with_topic(
    buf: Seq<u8>,
    batch: FastIngestBatch,
    layout: LayoutView,
    topic: Seq<char>,
) -> EgressView {
    if forward::can_expand(layout, topic) && forward::whole(buf, batch, layout) {
        let payload = (layout.total - layout.prefix.len()) as nat;
        EgressView::Packets(
            forward::expanded(buf, layout, topic, batch.messages as nat),
            forward::topic_prefix(topic, payload).len() + payload,
        )
    } else {
        EgressView::Decode
    }
}

/// What is done next with a batch. The receiver has an alias for the topic, which it knows or does
/// not know yet, or none; and it was tried to establish the alias, with this success, or not yet.
/// The packets carry the receiver's alias, where there is one and it could be established, and
/// else the full topic.
pub open spec fn egress(
    buf: Seq<u8>,
    batch: FastIngestBatch,
    layout: LayoutView,
    topic: Seq<char>,
    outbound: Option<(u16, bool)>,
    mapped: Option<bool>,
) -> EgressView {
    match outbound {
        None => with_topic(buf, batch, layout, topic),
        Some((alias, known)) => {
            let count = if known {
                batch.messages as nat
            } else {
                (batch.messages - 1) as nat
            };
            if !forward::can_rewrite(buf, batch, layout) {
                with_topic(buf, batch, layout, topic)
            } else if known || mapped == Some(true) {
                EgressView::Packets(
                    forward::rewritten(
                        forward::after_first(buf, layout.total, !known),
                        layout.total,
                        layout.prefix.len() - 2,
                        alias,
                        count,
                    ),
                    layout.total,
                )
            } else if mapped is None {
                EgressView::Mapping(
                    encode::simple_publish(
                        false,
                        topic,
                        Some((0x23u8, ValueView::Two(alias))),
                        forward::payload_at(buf, layout.total, layout.prefix.len(), 0),
                    ).bytes(),
                )
            } else {
                with_topic(buf, batch, layout, topic)
            }
        },
    }
}

/// Makes the packets of a batch with the full topic, where that is possible.
fn expand(
    buf: &[u8],
    batch: FastIngestBatch,
    layout: &FastIngestLayout,
    topic: &str,
    cache: &mut FastAliasEgressCache,
) -> (step: EgressStep)
    requires
        old(cache).wf(),
    ensures
        final(cache).wf(),
        step@ == with_topic(buf@, batch, layout@, topic@),
{
    match expand_fast_alias_batch(buf, batch, layout, topic, cache) {
        Some((packets, length)) => EgressStep::Packets(packets, length),
        None => EgressStep::Decode,
    }
}

/// What is done next with a batch of packets that use an alias.
pub fn next_egress(
    buf: &[u8],
    batch: FastIngestBatch,
    layout: &FastIngestLayout,
    topic: &str,
    outbound: Option<(u16, bool)>,
    mapped: Option<bool>,
    cache: &mut FastAliasEgressCache,
) -> (step: EgressStep)
    requires
        old(cache).wf(),
    ensures
        final(cache).wf(),
        step@ == egress(buf@, batch, layout@, topic@, outbound, mapped),
{
    let (alias, known) = match outbound {
        Some(pair) => pair,
        None => {
            return expand(buf, batch, layout, topic, cache);
        },
    };
    match forward_with_alias(buf, batch, layout, topic, alias, known) {
        None => expand(buf, batch, layout, topic, cache),
        Some(plan) => match plan.mapping {
            None => EgressStep::Packets(plan.packets, plan.packet_len),
            Some(mapping) => match mapped {
                None => EgressStep::Mapping(mapping),
                Some(true) => EgressStep::Packets(plan.packets, plan.packet_len),
                Some(false) => expand(buf, batch, layout, topic, cache),
            },
        },
    }
}

/// Where the receiver's alias could not be established, no message is lost: all of the batch go
/// out with the full topic, or the batch is decoded.
pub proof fn law_unsent_mapping_loses_no_message(
    buf: Seq<u8>,
    batch: FastIngestBatch,
    layout: LayoutView,
    topic: Seq<char>,
    alias: u16,
)
    ensures
        ({
            let step = egress(buf, batch, layout, topic, Some((alias, false)), Some(false));
            step is Decode || step == EgressView::Packets(
                forward::expanded(buf, layout, topic, batch.messages as nat),
                step->Packets_1,
            )
        }),
{
}

/// An alias that the receiver does not know is used only once it was established.
pub proof fn law_alias_is_established_before_it_is_used(
    buf: Seq<u8>,
    batch: FastIngestBatch,
    layout: LayoutView,
    topic: Seq<char>,
    alias: u16,
    mapped: Option<bool>,
)
    requires
        mapped != Some(true),
    ensures
        ({
            let step = egress(buf, batch, layout, topic, Some((alias, false)), mapped);
            step is Mapping || step == with_topic(buf, batch, layout, topic)
        }),
{
}

/// No message of a batch that is forwarded with an alias is lost or sent twice. Where the receiver
/// knows the alias, the packets that go out are those that came in, all of them, with nothing
/// changed but the two bytes of the alias. Where it does not know it yet, the first message goes out
/// in a PUBLISH of QoS 0 with the topic, the alias and that message's payload, and all other packets
/// follow in the same way. `i` is the number of a packet and `j` of a byte in it.
pub proof fn law_batch_goes_out_whole(
    buf: Seq<u8>,
    batch: FastIngestBatch,
    layout: LayoutView,
    topic: Seq<char>,
    alias: u16,
    known: bool,
    i: int,
    j: int,
)
    requires
        batch.messages > 0,
        batch.bytes == layout.total * batch.messages,
        batch.bytes <= buf.len(),
        2 <= layout.prefix.len() <= layout.total,
        0 <= i < batch.messages,
        known || i > 0,
        0 <= j < layout.total,
    ensures
        !known ==> egress(buf, batch, layout, topic, Some((alias, false)), None)
            == EgressView::Mapping(
            (PacketView::Publish {
                dup: false,
                qos: 0,
                retain: false,
                topic,
                packet_id: None,
                properties: property::meaning(seq![(0x23u8, ValueView::Two(alias))]),
                payload: buf.subrange(layout.prefix.len() as int, layout.total as int),
            }).bytes(),
        ),
        ({
            let step = egress(
                buf,
                batch,
                layout,
                topic,
                Some((alias, known)),
                if known {
                    None
                } else {
                    Some(true)
                },
            );
            let first: int = if known {
                0
            } else {
                1
            };
            let at = (i - first) * layout.total + j;
            &&& step is Packets
            &&& step->Packets_1 == layout.total
            &&& step->Packets_0.len() == (batch.messages - first) * layout.total
            &&& step->Packets_0[at] == if j == layout.prefix.len() - 2 {
                (alias / 256) as u8
            } else if j == layout.prefix.len() - 1 {
                (alias % 256) as u8
            } else {
                buf[i * layout.total + j]
            }
        }),
{
    let total = layout.total;
    let first: int = if known {
        0
    } else {
        1
    };
    assert(total <= batch.bytes) by (nonlinear_arith)
        requires
            batch.bytes == total * batch.messages,
            batch.messages > 0,
    ;
    assert(first * total == if known {
        0
    } else {
        total as int
    });
    let rest = forward::after_first(buf, total, !known);
    let n = (batch.messages - first) as nat;
    let at = layout.prefix.len() - 2;
    assert(n * total <= rest.len() && total <= batch.bytes && (i - first) * total + j + first
        * total == i * total + j && (i - first) * total + j >= 0 && i * total + j
        < batch.bytes) by (nonlinear_arith)
        requires
            n == batch.messages - first,
            first == 0 || first == 1,
            batch.messages > 0,
            batch.bytes == total * batch.messages,
            batch.bytes <= buf.len(),
            rest.len() == buf.len() - first * total,
            first <= i < batch.messages,
            0 <= j < total,
    ;
    forward::law_rewriting_keeps_payloads(rest, total, at, alias, n, i - first, j);
    assert(rest[(i - first) * total + j] == buf[i * total + j]);
    assert(0 * total + layout.prefix.len() == layout.prefix.len());
    assert(0 * total + total == total);
}

} // verus!
