//! What becomes of the bytes that a connection reads.

use vstd::prelude::*;
use crate::broker::handshake;
use crate::broker::handshake::codec_error_reason;
use crate::broker::model::BrokerView;
use crate::broker::packets::PacketStep;
use crate::broker::state;
use crate::broker::state::BrokerState;
use crate::codec::decode::decode_packet_limited;
use crate::codec::packet;
use crate::codec::packet::{Packet, PacketView};
use crate::codec::property;
use crate::codec::property::PropertySet;
use crate::codec::wire;
use crate::codec::wire::CodecError;
use crate::connection::taking::Taken;
use crate::message;
use crate::session::inbound;
use crate::session::inbound::encode_disconnect;

verus! {

/// What becomes of the bytes at the front of what a client has sent.
pub enum BytesStep {
    /// They are not a whole packet yet.
    More,
    /// They are no packet: the connection is closed with these bytes, for this error.
    Refused(Vec<u8>, CodecError),
    /// So many of them were a packet, of which this becomes.
    Packet(usize, Taken),
}

impl BrokerView {
    /// Whether a client that sends a packet with this content can bring the broker there: with
    /// some packet of that content, and in some order of the groups that its message reaches.
    pub open spec fn takes(
        self,
        c: Seq<char>,
        content: PacketView,
        now_ms: u64,
        end: (PacketStep, Option<u8>),
    ) -> bool {
        exists|packet: Packet<'static>, groups: Seq<Seq<u8>>|
            packet@ == content && #[trigger] self.groups_of_packet(c, packet, now_ms, groups) && end
                == self.take(c, packet, now_ms, groups)
    }
}

/// Subscriptions take at least a byte each.
proof fn lemma_subscriptions_fit(s: Seq<u8>)
    ensures
        packet::parse_subscriptions(s) matches Ok(list) ==> list.len() <= s.len(),
    decreases s.len(),
{
    if s.len() > 0 {
        if let Ok((_, s1)) = wire::take_text(s) {
            if let Ok((_, rest)) = wire::take_u8(s1) {
                lemma_subscriptions_fit(rest);
            }
        }
    }
}

/// A variable byte integer ends in the bytes that hold it.
proof fn lemma_varint_end(s: Seq<u8>, i: nat)
    ensures
        wire::varint_at(s, i) matches Ok((_, end)) ==> end <= s.len(),
    decreases 4 - i,
{
    if i < s.len() && s[i as int] >= 128 && i < 3 {
        lemma_varint_end(s, i + 1);
    }
}

/// A SUBSCRIBE has no more subscriptions than bytes.
proof fn lemma_subscribe_fits(s: Seq<u8>)
    ensures
        packet::parse_packet(s) matches Ok((PacketView::Subscribe { subscriptions, .. }, _))
            ==> subscriptions.len() <= s.len(),
{
    reveal(packet::parse_body);
    reveal(property::take_properties);
    if let Ok((first, s1)) = wire::take_u8(s) {
        lemma_varint_end(s1, 0);
        if let Ok((remaining, s2)) = wire::take_varint(s1) {
            if s2.len() >= remaining {
                let body = s2.take(remaining as int);
                if let Ok((_, rest)) = wire::take_u16(body) {
                    lemma_varint_end(rest, 0);
                    if let Ok((_, list)) = property::take_properties(PropertySet::Subscribe, rest) {
                        lemma_subscriptions_fit(list);
                    }
                }
            }
        }
    }
}

impl BrokerState {
    /// Takes the packet at the front of what a client has sent.
    pub fn take_bytes(&mut self, client_id: &str, buf: &[u8], now_ms: u64) -> (r: BytesStep)
        requires
            old(self).wf(),
            old(self)@.sessions.contains_key(client_id@),
            old(self)@.routes.len() + buf@.len() <= usize::MAX,
        ensures
            final(self).wf(),
            match packet::parse_packet_limited(
                buf@,
                old(self)@.limits.maximum_packet_size as nat,
            ) {
                Err(CodecError::Incomplete) => r is More && final(self)@ == old(self)@,
                Err(e) => {
                    &&& r matches BytesStep::Refused(bytes, error)
                    &&& bytes@ == inbound::disconnect_packet(handshake::codec_reason(e)).bytes()
                    &&& error == e
                    &&& final(self)@ == old(self)@
                },
                Ok((content, size)) => {
                    &&& r matches BytesStep::Packet(used, taken)
                    &&& used == size <= buf@.len()
                    &&& old(self)@.takes(
                        client_id@,
                        content,
                        now_ms,
                        (
                            (final(self)@, state::actions_view(taken.actions@), taken.fault),
                            taken.leave,
                        ),
                    )
                    &&& taken.sampled == old(self)@.measures(client_id@, final(self)@)
                },
            },
    {
        match decode_packet_limited(buf, self.limits.maximum_packet_size) {
            Ok((packet, used)) => {
                proof {
                    lemma_subscribe_fits(buf@);
                }
                BytesStep::Packet(used, self.take_packet(client_id, &packet, now_ms))
            },
            Err(CodecError::Incomplete) => BytesStep::More,
            Err(e) => BytesStep::Refused(encode_disconnect(codec_error_reason(&e)), e),
        }
    }
}

/// What becomes of a packet depends on its content alone, and on the order in which the groups
/// that its message reaches are served.
pub proof fn law_content_of_a_packet_decides(
    b: BrokerView,
    c: Seq<char>,
    p: Packet<'_>,
    q: Packet<'_>,
    now_ms: u64,
    groups: Seq<Seq<u8>>,
)
    requires
        p@ == q@,
    ensures
        b.groups_of_packet(c, p, now_ms, groups) == b.groups_of_packet(c, q, now_ms, groups),
        b.take(c, p, now_ms, groups) == b.take(c, q, now_ms, groups),
{
    match (p, q) {
        (Packet::Publish(m), Packet::Publish(n)) => {
            message::lemma_same_publish_values(m.properties, n.properties, now_ms);
            assert(inbound::publish_in(m, now_ms) == inbound::publish_in(n, now_ms));
        },
        (Packet::Subscribe(m), Packet::Subscribe(n)) => {
            let (x, y) = (m.properties, n.properties);
            assert(x@.values.contains_key(0x0B) == y@.values.contains_key(0x0B));
            assert(x@.values[0x0B] == y@.values[0x0B]);
            assert(x.value(0x0B) == y.value(0x0B));
        },
        (Packet::Disconnect(m), Packet::Disconnect(n)) => {
            let (x, y) = (m.properties, n.properties);
            assert(x@.values.contains_key(0x11) == y@.values.contains_key(0x11));
            assert(x@.values[0x11] == y@.values[0x11]);
            assert(x.value(0x11) == y.value(0x11));
        },
        _ => {},
    }
}

} // verus!
