//! What becomes of each packet that a connection reads.

use vstd::prelude::*;
use crate::broker::model::{reached_groups, BrokerView};
use crate::broker::packets::PacketStep;
use crate::broker::publish::lemma_groups_exist;
use crate::broker::state;
use crate::broker::state::{BrokerAction, BrokerState};
use crate::codec::packet::{Packet, Publish};
use crate::policy::sampled;
use crate::session::inbound::{publish_in, PacketFault};

verus! {

/// What becomes of a packet.
pub struct Taken {
    /// What is to be done.
    pub actions: Vec<BrokerAction>,
    /// The fault for which the connection is closed.
    pub fault: Option<PacketFault>,
    /// The reason with which the client took leave.
    pub leave: Option<u8>,
    /// Whether the time that the packet took is measured.
    pub sampled: bool,
}

impl BrokerView {
    /// A client sends a packet, of whatever kind: it takes leave, publishes a message that goes
    /// nowhere, or wants something done. Returns the reason with which it took leave, too.
    pub open spec fn take(
        self,
        c: Seq<char>,
        packet: Packet<'_>,
        now_ms: u64,
        groups: Seq<Seq<u8>>,
    ) -> (PacketStep, Option<u8>) {
        match packet {
            Packet::Disconnect(p) => {
                let step = self.on_disconnect(c, p.properties.session_expiry_interval);
                (
                    step,
                    if step.2 is None {
                        Some(p.reason_code)
                    } else {
                        None
                    },
                )
            },
            Packet::Publish(p) => if self.nowhere(c, p) {
                let counted = self.with_session(c, self.sessions[c].session.published_one());
                ((counted, Seq::empty(), None), None)
            } else {
                (self.on_packet(c, packet, now_ms, groups), None)
            },
            _ => (self.on_packet(c, packet, now_ms, groups), None),
        }
    }

    /// Whether the time that a packet of a client took is measured: it published a message, and
    /// that is one of those that are measured.
    pub open spec fn measures(self, c: Seq<char>, end: BrokerView) -> bool {
        let before = self.sessions[c].session.published;
        let rate = self.limits.latency_sample_rate;
        &&& end.sessions.contains_key(c) && end.sessions[c].session.published != before
        &&& rate > 0 && before % rate == 0
    }
}

impl BrokerState {
    /// Takes a packet that a client has sent.
    pub fn take_packet(&mut self, client_id: &str, packet: &Packet<'_>, now_ms: u64) -> (r: Taken)
        requires
            old(self).wf(),
            old(self)@.sessions.contains_key(client_id@),
            packet matches Packet::Subscribe(p) ==> old(self)@.routes.len()
                + p.subscriptions@.len() <= usize::MAX,
        ensures
            final(self).wf(),
            exists|groups: Seq<Seq<u8>>| #[trigger]
                old(self)@.groups_of_packet(client_id@, *packet, now_ms, groups) && (
                    (final(self)@, state::actions_view(r.actions@), r.fault),
                    r.leave,
                ) == old(self)@.take(client_id@, *packet, now_ms, groups),
            r.sampled == old(self)@.measures(client_id@, final(self)@),
    {
        let ghost start = self@;
        let ghost c = client_id@;
        let rate: u64 = self.limits.latency_sample_rate;
        let before: u64 = match self.existing_session(client_id) {
            Some(session) => session.published_messages,
            None => 0,
        };
        let mut leave: Option<u8> = None;
        let (actions, fault) = match packet {
            Packet::Disconnect(p) => {
                proof {
                    let nobody = Seq::<Seq<u8>>::empty();
                    assert(start.groups_of_packet(c, *packet, now_ms, nobody));
                }
                let done = self.process_disconnect(client_id, p);
                if done.1.is_none() {
                    leave = Some(p.reason_code);
                }
                done
            },
            Packet::Publish(p) => {
                if self.goes_nowhere(client_id, p) {
                    self.count_batch(client_id, 1);
                    let none: Vec<BrokerAction> = Vec::new();
                    proof {
                        let view = publish_in(*p, now_ms);
                        let nobody = Seq::<Seq<u8>>::empty();
                        match start.published_topic(c, view) {
                            Some(t) => {
                                lemma_groups_exist(start.routes, t);
                                let groups = choose|groups: Seq<Seq<u8>>| #[trigger]
                                    reached_groups(start.routes, t, groups);
                                assert(start.groups_of_packet(c, *packet, now_ms, groups));
                            },
                            None => {
                                assert(start.groups_of_packet(c, *packet, now_ms, nobody));
                            },
                        }
                        assert(state::actions_view(none@) =~= Seq::empty());
                    }
                    (none, None)
                } else {
                    self.process_client_packet(client_id, packet, now_ms)
                }
            },
            _ => self.process_client_packet(client_id, packet, now_ms),
        };
        let after: u64 = match self.existing_session(client_id) {
            Some(session) => session.published_messages,
            None => before,
        };
        let measured = after != before && rate > 0 && sampled(before, rate);
        Taken { actions, fault, leave, sampled: measured }
    }
}

/// A message that is recognised to go nowhere is treated as any other would be: it is counted, and
/// nothing else happens. Only the format that it claims for its payload is not looked at.
pub proof fn law_recognised_message_goes_nowhere(
    b: BrokerView,
    c: Seq<char>,
    p: Publish<'_>,
    now_ms: u64,
    groups: Seq<Seq<u8>>,
)
    requires
        b.nowhere(c, p),
        p.properties.payload_format_indicator matches Some(format) ==> format <= 1,
    ensures
        b.on_packet(c, Packet::Publish(p), now_ms, groups) == b.take(
            c,
            Packet::Publish(p),
            now_ms,
            groups,
        ).0,
        b.take(c, Packet::Publish(p), now_ms, groups).0.1.len() == 0,
{
    let s = b.sessions[c].session;
    let view = publish_in(p, now_ms);
    let (t, r) = s.accept_publish(view, b.limits.receive_maximum);
    assert(t == s);
    assert(r == Ok::<Seq<char>, (u8, PacketFault)>(p.topic@));
    assert(b.with_session(c, s).sessions =~= b.sessions);
    assert(b.with_session(c, s) == b);
    let end = b.on_packet(c, Packet::Publish(p), now_ms, groups);
    assert(end.1 =~= Seq::empty());
}

/// A client that takes leave is taken at its reason code, unless what it says is refused. No other
/// packet is a leave.
pub proof fn law_only_a_disconnect_is_a_leave(
    b: BrokerView,
    c: Seq<char>,
    packet: Packet<'_>,
    now_ms: u64,
    groups: Seq<Seq<u8>>,
)
    ensures
        ({
            let (step, leave) = b.take(c, packet, now_ms, groups);
            &&& leave is Some <==> packet is Disconnect && step.2 is None
            &&& packet is Disconnect && step.2 is None ==> leave == Some(
                packet->Disconnect_0.reason_code,
            )
        }),
{
}

/// The routing time of a packet is measured where it has brought a message in, and as many messages
/// of the client came before as make a multiple of the rate.
pub proof fn law_every_so_many_messages_are_measured(b: BrokerView, c: Seq<char>, end: BrokerView)
    requires
        b.sessions.contains_key(c),
        end.sessions.contains_key(c),
        b.limits.latency_sample_rate > 0,
    ensures
        end.sessions[c].session.published == b.sessions[c].session.published ==> !b.measures(
            c,
            end,
        ),
        end.sessions[c].session.published != b.sessions[c].session.published ==> (b.measures(c, end)
            <==> b.sessions[c].session.published % b.limits.latency_sample_rate == 0),
{
}

} // verus!
