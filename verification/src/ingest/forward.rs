//! Forwarding a batch: with the full topic in place of an alias, or with another alias.

use vstd::prelude::*;
use vstd::slice::slice_subrange;
use vstd::utf8;
use crate::codec::encode;
use crate::codec::encode::encode_publish_qos0_with_topic_alias;
use crate::codec::properties;
use crate::codec::property;
use crate::codec::property::{PropertySet, ValueView};
use crate::codec::wire;
use crate::codec::wire::encode_varint;
use crate::ingest::scan::{FastIngestBatch, FastIngestLayout, LayoutView};
use crate::text::str_eq;

verus! {

/// The bytes before the payload of a PUBLISH of QoS 0 that names its topic, for a payload of the
/// given length.
pub open spec fn topic_prefix(topic: Seq<char>, payload_len: nat) -> Seq<u8> {
    let t = utf8::encode_utf8(topic);
    seq![0x30u8] + wire::varint(2 + t.len() + 1 + payload_len) + wire::be16(t.len() as u16) + t
        + seq![0u8]
}

/// A PUBLISH without properties has an empty property block.
pub(crate) proof fn lemma_empty_block()
    ensures
        properties::properties_bytes(PropertySet::Publish, property::meaning(Seq::empty()))
            == seq![0u8],
{
    reveal(properties::properties_bytes);
    let p = property::meaning(Seq::empty());
    assert(p.user =~= Seq::empty());
    let ids = properties::order(PropertySet::Publish);
    lemma_listed_nothing(p, ids);
    assert(property::list_bytes(Seq::empty()) =~= Seq::empty());
    assert(property::block_bytes(Seq::empty()) =~= seq![0u8]);
}

/// Nothing is listed of no properties.
proof fn lemma_listed_nothing(p: property::PropertiesView, ids: Seq<u8>)
    requires
        p == property::meaning(Seq::empty()),
    ensures
        properties::listed(p, ids) == Seq::<(u8, ValueView)>::empty(),
    decreases ids.len(),
{
    assert(p.user =~= Seq::empty());
    if ids.len() > 0 {
        lemma_listed_nothing(p, ids.drop_last());
        assert(!p.values.contains_key(ids.last()));
        assert(properties::listed(p, ids) =~= Seq::<(u8, ValueView)>::empty());
    } else {
        assert(properties::listed(p, ids) =~= Seq::<(u8, ValueView)>::empty());
    }
}

/// A PUBLISH of QoS 0 that names its topic is the known bytes and the payload.
proof fn lemma_topic_prefix(topic: Seq<char>, payload: Seq<u8>)
    requires
        utf8::encode_utf8(topic).len() <= 65535,
        2 + utf8::encode_utf8(topic).len() + 1 + payload.len() <= 268_435_455,
    ensures
        encode::simple_publish(false, topic, None, payload).bytes() == topic_prefix(
            topic,
            payload.len(),
        ) + payload,
{
    lemma_empty_block();
    let t = utf8::encode_utf8(topic);
    let p = encode::simple_publish(false, topic, None, payload);
    assert(p.body() =~= wire::be16(t.len() as u16) + t + seq![0u8] + payload);
    assert(p.body().len() == 2 + t.len() + 1 + payload.len());
    assert(p.bytes() =~= topic_prefix(topic, payload.len()) + payload);
}

/// Whether packets of a form can be forwarded with a topic.
pub open spec fn can_expand(layout: LayoutView, topic: Seq<char>) -> bool {
    let t = utf8::encode_utf8(topic);
    layout.prefix.len() <= layout.total && t.len() <= 65535 && 2 + t.len() + 1 + (layout.total
        - layout.prefix.len()) <= 268_435_455
}

/// The bytes with which packets are forwarded, for one topic and one form.
#[derive(Debug)]
pub struct FastAliasEgressCache {
    /// The topic.
    pub topic: Option<String>,
    /// The length of a packet as it comes in.
    pub input_total_len: usize,
    /// How many bytes come before its payload.
    pub payload_offset: usize,
    /// The length of a packet as it goes out; 0 where nothing is known.
    pub packet_len: usize,
    /// The bytes before its payload.
    pub prefix: Vec<u8>,
}

impl Default for FastAliasEgressCache {
    fn default() -> (r: Self)
        ensures
            r.wf(),
    {
        FastAliasEgressCache {
            topic: None,
            input_total_len: 0,
            payload_offset: 0,
            packet_len: 0,
            prefix: Vec::new(),
        }
    }
}

impl FastAliasEgressCache {
    /// What is noted belongs to the topic and the form.
    pub open spec fn wf(&self) -> bool {
        self.packet_len != 0 ==> self.topic is Some && self.payload_offset <= self.input_total_len
            && self.prefix@ == topic_prefix(
            self.topic->0@,
            (self.input_total_len - self.payload_offset) as nat,
        ) && self.packet_len == self.prefix@.len() + self.input_total_len - self.payload_offset
    }

    /// Whether the bytes for a topic and a form are noted.
    pub open spec fn ready(&self, topic: Seq<char>, layout: LayoutView) -> bool {
        &&& self.packet_len != 0
        &&& self.prefix@ == topic_prefix(topic, (layout.total - layout.prefix.len()) as nat)
        &&& self.packet_len == self.prefix@.len() + layout.total - layout.prefix.len()
        &&& self.payload_offset == layout.prefix.len()
    }

    /// Notes the bytes for a topic and a form, and says whether packets of the form can be
    /// forwarded with the topic.
    pub fn prepare(&mut self, topic: &str, layout: &FastIngestLayout) -> (r: Option<()>)
        requires
            old(self).wf(),
        ensures
            final(self).wf(),
            r is Some == can_expand(layout@, topic@),
            r is Some ==> final(self).ready(topic@, layout@),
    {
        let bytes = topic.as_bytes();
        let payload_offset: usize = layout.prefix.len();
        if payload_offset > layout.total_len || bytes.len() > 65535 {
            return None;
        }
        let payload_len: usize = layout.total_len - payload_offset;
        if payload_len > 268_435_452 || bytes.len() > 268_435_452 - payload_len {
            return None;
        }
        if let Some(known) = &self.topic {
            if self.packet_len != 0 && str_eq(known.as_str(), topic) && self.input_total_len
                == layout.total_len && self.payload_offset == payload_offset {
                return Some(());
            }
        }
        let remaining: u32 = (3 + bytes.len() + payload_len) as u32;
        let mut prefix: Vec<u8> = Vec::new();
        prefix.push(0x30);
        encode_varint(remaining, &mut prefix);
        proof {
            wire::lemma_varint_len(remaining as nat);
        }
        prefix.push((bytes.len() / 256) as u8);
        prefix.push((bytes.len() % 256) as u8);
        prefix.extend_from_slice(bytes);
        prefix.push(0);
        assert(prefix@ =~= topic_prefix(topic@, payload_len as nat));
        self.packet_len = prefix.len() + payload_len;
        self.prefix = prefix;
        self.input_total_len = layout.total_len;
        self.payload_offset = payload_offset;
        self.topic = Some(topic.to_owned());
        Some(())
    }
}

/// The payload of packet number `i` of a batch.
pub open spec fn payload_at(buf: Seq<u8>, total: nat, offset: nat, i: int) -> Seq<u8> {
    buf.subrange(i * total + offset, i * total + total)
}

/// The first `n` packets of a batch, with the full topic.
pub open spec fn expanded(buf: Seq<u8>, layout: LayoutView, topic: Seq<char>, n: nat) -> Seq<u8>
    decreases n,
{
    if n == 0 {
        Seq::empty()
    } else {
        expanded(buf, layout, topic, (n - 1) as nat) + encode::simple_publish(
            false,
            topic,
            None,
            payload_at(buf, layout.total, layout.prefix.len(), n - 1),
        ).bytes()
    }
}

/// Whether a batch is made of whole packets of a form.
pub open spec fn whole(buf: Seq<u8>, batch: FastIngestBatch, layout: LayoutView) -> bool {
    batch.messages > 0 && batch.bytes == layout.total * batch.messages && batch.bytes <= buf.len()
}

/// A packet of a batch lies inside it.
proof fn lemma_packet_inside(total: nat, count: nat, i: int)
    requires
        0 <= i < count,
    ensures
        0 <= i * total,
        i * total + total <= total * count,
        (i + 1) * total == i * total + total,
{
    assert(0 <= i * total) by (nonlinear_arith)
        requires
            0 <= i,
    ;
    assert((i + 1) * total == i * total + total) by (nonlinear_arith);
    assert((i + 1) * total <= total * count) by (nonlinear_arith)
        requires
            i + 1 <= count,
    ;
}

/// Forwards a batch with the full topic in place of the alias: the packets, and the length of
/// each.
pub fn expand_fast_alias_batch(
    buf: &[u8],
    batch: FastIngestBatch,
    layout: &FastIngestLayout,
    topic: &str,
    cache: &mut FastAliasEgressCache,
) -> (r: Option<(Vec<u8>, usize)>)
    requires
        old(cache).wf(),
    ensures
        final(cache).wf(),
        r is Some == (can_expand(layout@, topic@) && whole(buf@, batch, layout@)),
        r matches Some((bytes, packet_len)) ==> {
            &&& bytes@ == expanded(buf@, layout@, topic@, batch.messages as nat)
            &&& packet_len == topic_prefix(
                topic@,
                (layout@.total - layout@.prefix.len()) as nat,
            ).len() + layout@.total - layout@.prefix.len()
        },
{
    if cache.prepare(topic, layout).is_none() {
        return None;
    }
    let total: usize = layout.total_len;
    if !covers(buf, batch, total) {
        return None;
    }
    let mut output: Vec<u8> = Vec::new();
    let mut i: u64 = 0;
    let mut place: usize = 0;
    while i < batch.messages
        invariant
            i <= batch.messages,
            whole(buf@, batch, layout@),
            buf@.len() <= usize::MAX,
            total == layout@.total,
            place == i * total,
            can_expand(layout@, topic@),
            cache.ready(topic@, layout@),
            output@ == expanded(buf@, layout@, topic@, i as nat),
        decreases batch.messages - i,
    {
        proof {
            lemma_packet_inside(total as nat, batch.messages as nat, i as int);
        }
        let payload = slice_subrange(buf, place + cache.payload_offset, place + total);
        assert(payload@ =~= payload_at(buf@, layout@.total, layout@.prefix.len(), i as int));
        let ghost before = output@;
        output.extend_from_slice(cache.prefix.as_slice());
        output.extend_from_slice(payload);
        proof {
            lemma_topic_prefix(topic@, payload@);
            assert(output@ =~= before + (cache.prefix@ + payload@));
        }
        place = place + total;
        i = i + 1;
    }
    Some((output, cache.packet_len))
}

/// Whether a batch is made of whole packets of a length.
fn covers(buf: &[u8], batch: FastIngestBatch, total: usize) -> (r: bool)
    ensures
        r == (batch.messages > 0 && batch.bytes == total * batch.messages && batch.bytes
            <= buf@.len()),
        r ==> buf@.len() <= usize::MAX,
{
    if batch.messages == 0 || batch.bytes > buf.len() {
        return false;
    }
    match (total as u64).checked_mul(batch.messages) {
        Some(product) => product == batch.bytes as u64,
        None => false,
    }
}

/// A packet with another alias at a place.
pub open spec fn realiased(packet: Seq<u8>, at: int, alias: u16) -> Seq<u8> {
    packet.update(at, (alias / 256) as u8).update(at + 1, (alias % 256) as u8)
}

/// The first `n` packets of a batch, with another alias.
pub open spec fn rewritten(buf: Seq<u8>, total: nat, at: int, alias: u16, n: nat) -> Seq<u8>
    decreases n,
{
    if n == 0 {
        Seq::empty()
    } else {
        rewritten(buf, total, at, alias, (n - 1) as nat) + realiased(
            buf.subrange((n - 1) * total, (n - 1) * total + total),
            at,
            alias,
        )
    }
}

/// Whether a batch can be forwarded with another alias.
pub open spec fn can_rewrite(buf: Seq<u8>, batch: FastIngestBatch, layout: LayoutView) -> bool {
    whole(buf, batch, layout) && layout.total != 0 && 2 <= layout.prefix.len() <= layout.total
}

/// Forwards a batch with another alias, which stands in the last two of the known bytes.
pub fn rewrite_fast_alias_batch(
    buf: &[u8],
    batch: FastIngestBatch,
    layout: &FastIngestLayout,
    outbound_alias: u16,
) -> (r: Option<Vec<u8>>)
    ensures
        r is Some == can_rewrite(buf@, batch, layout@),
        r matches Some(bytes) ==> bytes@ == rewritten(
            buf@,
            layout@.total,
            layout@.prefix.len() - 2,
            outbound_alias,
            batch.messages as nat,
        ),
{
    let total: usize = layout.total_len;
    if total == 0 || layout.prefix.len() < 2 || layout.prefix.len() > total || !covers(
        buf,
        batch,
        total,
    ) {
        return None;
    }
    let at: usize = layout.prefix.len() - 2;
    let mut output: Vec<u8> = Vec::new();
    let mut i: u64 = 0;
    let mut place: usize = 0;
    while i < batch.messages
        invariant
            i <= batch.messages,
            can_rewrite(buf@, batch, layout@),
            buf@.len() <= usize::MAX,
            total == layout@.total,
            at == layout@.prefix.len() - 2,
            place == i * total,
            output@ == rewritten(buf@, layout@.total, at as int, outbound_alias, i as nat),
        decreases batch.messages - i,
    {
        proof {
            lemma_packet_inside(total as nat, batch.messages as nat, i as int);
        }
        let ghost before = output@;
        let ghost packet = buf@.subrange(place as int, place + total);
        let front = slice_subrange(buf, place, place + at);
        let back = slice_subrange(buf, place + at + 2, place + total);
        output.extend_from_slice(front);
        output.push((outbound_alias / 256) as u8);
        output.push((outbound_alias % 256) as u8);
        output.extend_from_slice(back);
        assert(output@ =~= before + realiased(packet, at as int, outbound_alias));
        place = place + total;
        i = i + 1;
    }
    Some(output)
}

/// How a batch is forwarded to its only receiver.
pub struct AliasForward {
    /// A packet that establishes the receiver's alias, to be sent first; it carries the first
    /// message.
    pub mapping: Option<Vec<u8>>,
    /// The other packets.
    pub packets: Vec<u8>,
    /// The length of each of them.
    pub packet_len: usize,
    /// How many they are.
    pub count: u64,
}

/// What is left of a batch after its first packet.
pub open spec fn after_first(buf: Seq<u8>, total: nat, skip: bool) -> Seq<u8> {
    if skip {
        buf.skip(total as int)
    } else {
        buf
    }
}

/// Plans how a batch of packets with an alias is forwarded to a receiver for which another alias
/// stands for the topic. An alias that the receiver does not know yet is established with the
/// first message; the other packets carry the receiver's alias.
pub fn forward_with_alias(
    buf: &[u8],
    batch: FastIngestBatch,
    layout: &FastIngestLayout,
    topic: &str,
    alias: u16,
    established: bool,
) -> (r: Option<AliasForward>)
    ensures
        r is Some == can_rewrite(buf@, batch, layout@),
        r matches Some(plan) ==> {
            let total = layout@.total;
            let left = after_first(buf@, total, !established);
            &&& plan.packet_len == total
            &&& plan.count == (if established {
                batch.messages as int
            } else {
                batch.messages - 1
            })
            &&& plan.packets@ == rewritten(
                left,
                total,
                layout@.prefix.len() - 2,
                alias,
                plan.count as nat,
            )
            &&& plan.mapping is None == established
            &&& plan.mapping matches Some(bytes) ==> bytes@ == encode::simple_publish(
                false,
                topic@,
                Some((0x23u8, ValueView::Two(alias))),
                payload_at(buf@, total, layout@.prefix.len(), 0),
            ).bytes()
        },
{
    let total: usize = layout.total_len;
    if total == 0 || layout.prefix.len() < 2 || layout.prefix.len() > total || !covers(
        buf,
        batch,
        total,
    ) {
        return None;
    }
    if established {
        return match rewrite_fast_alias_batch(buf, batch, layout, alias) {
            Some(packets) => Some(
                AliasForward { mapping: None, packets, packet_len: total, count: batch.messages },
            ),
            None => None,
        };
    }
    proof {
        lemma_packet_inside(total as nat, batch.messages as nat, 0);
        assert(total * batch.messages == total * (batch.messages - 1) + total)
            by (nonlinear_arith);
        assert(total * (batch.messages - 1) >= 0) by (nonlinear_arith)
            requires
                batch.messages > 0,
        ;
    }
    let payload = slice_subrange(buf, layout.prefix.len(), total);
    assert(payload@ =~= payload_at(buf@, layout@.total, layout@.prefix.len(), 0));
    let mapping = encode_publish_qos0_with_topic_alias(topic, payload, alias);
    if batch.messages == 1 {
        return Some(
            AliasForward {
                mapping: Some(mapping),
                packets: Vec::new(),
                packet_len: total,
                count: 0,
            },
        );
    }
    let rest = slice_subrange(buf, total, buf.len());
    assert(rest@ =~= buf@.skip(total as int));
    let others = FastIngestBatch { bytes: batch.bytes - total, messages: batch.messages - 1 };
    match rewrite_fast_alias_batch(rest, others, layout, alias) {
        Some(packets) => Some(
            AliasForward {
                mapping: Some(mapping),
                packets,
                packet_len: total,
                count: others.messages,
            },
        ),
        None => None,
    }
}

/// Another alias changes nothing but the two bytes of the alias: every payload is as it was.
pub proof fn law_rewriting_keeps_payloads(
    buf: Seq<u8>,
    total: nat,
    at: int,
    alias: u16,
    n: nat,
    i: int,
    j: int,
)
    requires
        0 <= at,
        at + 2 <= total,
        n * total <= buf.len(),
        0 <= i < n,
        0 <= j < total,
    ensures
        rewritten(buf, total, at, alias, n).len() == n * total,
        rewritten(buf, total, at, alias, n)[i * total + j] == (if j == at {
            (alias / 256) as u8
        } else if j == at + 1 {
            (alias % 256) as u8
        } else {
            buf[i * total + j]
        }),
    decreases n,
{
    lemma_packet_inside(total, n, i);
    lemma_packet_inside(total, n, n - 1);
    assert(n * total == total * n) by (nonlinear_arith);
    let front = rewritten(buf, total, at, alias, (n - 1) as nat);
    let packet = buf.subrange((n - 1) * total, (n - 1) * total + total);
    lemma_rewritten_len(buf, total, at, alias, n);
    lemma_rewritten_len(buf, total, at, alias, (n - 1) as nat);
    if i == n - 1 {
        assert(rewritten(buf, total, at, alias, n)[i * total + j] == realiased(
            packet,
            at,
            alias,
        )[j]);
    } else {
        law_rewriting_keeps_payloads(buf, total, at, alias, (n - 1) as nat, i, j);
        lemma_packet_inside(total, (n - 1) as nat, i);
        assert((n - 1) * total == total * ((n - 1) as nat)) by (nonlinear_arith)
            requires
                n >= 1,
        ;
        assert(i * total + j < front.len());
    }
}

/// The length of a batch with another alias.
proof fn lemma_rewritten_len(buf: Seq<u8>, total: nat, at: int, alias: u16, n: nat)
    requires
        0 <= at,
        at + 2 <= total,
        n * total <= buf.len(),
    ensures
        rewritten(buf, total, at, alias, n).len() == n * total,
    decreases n,
{
    if n > 0 {
        lemma_packet_inside(total, n, n - 1);
        assert(n * total == (n - 1) * total + total) by (nonlinear_arith);
        assert((n - 1) * total >= 0) by (nonlinear_arith)
            requires
                n >= 1,
        ;
        lemma_rewritten_len(buf, total, at, alias, (n - 1) as nat);
    } else {
        assert(n * total == 0) by (nonlinear_arith)
            requires
                n == 0,
        ;
    }
}

} // verus!
