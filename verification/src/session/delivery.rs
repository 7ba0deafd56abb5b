//! Delivering messages to a client within its Receive Maximum.

use vstd::prelude::*;
use crate::codec::encode::encode_packet;
use crate::codec::packet::{Packet, PubAck, Publish};
use crate::codec::properties::PubAckProperties;
use crate::message::ApplicationProperties;
use crate::session::client;
use crate::session::client::{
    ClientSession, InFlightMessage, OutgoingQos2Message, OutgoingQos2Phase, SessionEffect,
};
use crate::session::model;
use crate::session::model::{EffectView, MessageView, OutView, SessionView};
use crate::text::copy_bytes;

verus! {

/// The PUBLISH that carries a message.
pub fn encode_message(
    dup: bool,
    qos: u8,
    packet_id: Option<u16>,
    topic: &str,
    payload: &[u8],
    retain: bool,
    properties: &ApplicationProperties,
    subscription_identifier: Option<u32>,
    now_ms: u64,
) -> (bytes: Vec<u8>)
    ensures
        bytes@ == model::publish_packet(
            dup,
            qos,
            packet_id,
            (MessageView {
                topic: topic@,
                payload: payload@,
                retain,
                subscription_identifier,
                properties: properties@,
            }),
            now_ms,
        ).bytes(),
{
    let packet = Packet::Publish(
        Publish {
            dup,
            qos,
            retain,
            topic,
            packet_id,
            properties: properties.as_publish_properties_at(subscription_identifier, now_ms),
            payload,
        },
    );
    let mut bytes: Vec<u8> = Vec::new();
    encode_packet(&packet, &mut bytes);
    assert(bytes@ =~= packet@.bytes());
    bytes
}

/// A PUBREL without properties.
pub fn encode_pubrel(packet_id: u16) -> (bytes: Vec<u8>)
    ensures
        bytes@ == model::ack_packet(6, packet_id, 0).bytes(),
{
    let packet = Packet::PubRel(
        PubAck { packet_id, reason_code: 0, properties: PubAckProperties::default() },
    );
    let mut bytes: Vec<u8> = Vec::new();
    encode_packet(&packet, &mut bytes);
    assert(bytes@ =~= packet@.bytes());
    bytes
}

/// The QoS 1 messages that wait to be sent.
pub open spec fn waiting1(s: SessionView) -> Set<u16> {
    Set::new(|id: u16| s.waits1(id))
}

/// The QoS 2 messages that wait to be sent.
pub open spec fn waiting2(s: SessionView) -> Set<u16> {
    Set::new(|id: u16| s.waits2(id))
}

/// How many messages wait to be sent.
pub open spec fn waiting(s: SessionView) -> nat {
    waiting1(s).len() + waiting2(s).len()
}

/// The tables of a session are finite.
pub open spec fn finite(s: SessionView) -> bool {
    s.in_flight.dom().finite() && s.outgoing_qos2.dom().finite() && s.outbound_active.finite()
}

/// No more messages wait than there are.
pub(crate) proof fn lemma_waiting_bound(s: SessionView)
    requires
        finite(s),
    ensures
        waiting1(s).finite(),
        waiting2(s).finite(),
        waiting(s) <= s.in_flight.dom().len() + s.outgoing_qos2.dom().len(),
{
    assert(waiting1(s).subset_of(s.in_flight.dom()));
    vstd::set_lib::lemma_len_subset(waiting1(s), s.in_flight.dom());
    assert(waiting2(s).subset_of(s.outgoing_qos2.dom()));
    vstd::set_lib::lemma_len_subset(waiting2(s), s.outgoing_qos2.dom());
}

/// There is only one message that waits first.
proof fn lemma_first_unique(s: SessionView, a: u16, b: u16)
    ensures
        s.first1(a) && s.first1(b) ==> a == b,
        s.first2(a) && s.first2(b) ==> a == b,
{
}

/// Taking up a message leaves fewer that wait.
pub(crate) proof fn lemma_send_next_progress(s: SessionView, now_ms: u64)
    requires
        finite(s),
        s.next_waiting() matches Some((qos, id)) && (qos == 1 || qos == 2) && (qos == 1
            ==> s.waits1(id)) && (qos == 2 ==> s.waits2(id)),
    ensures
        finite(s.send_next(now_ms).0),
        waiting(s.send_next(now_ms).0) < waiting(s),
{
    let (qos, id) = s.next_waiting()->0;
    let t = s.send_next(now_ms).0;
    lemma_waiting_bound(s);
    if qos == 1 {
        assert(waiting1(t).subset_of(waiting1(s).remove(id)));
        assert(waiting2(t).subset_of(waiting2(s)));
        vstd::set_lib::lemma_len_subset(waiting1(t), waiting1(s).remove(id));
        vstd::set_lib::lemma_len_subset(waiting2(t), waiting2(s));
    } else {
        assert(waiting2(t).subset_of(waiting2(s).remove(id)));
        assert(waiting1(t).subset_of(waiting1(s)));
        vstd::set_lib::lemma_len_subset(waiting2(t), waiting2(s).remove(id));
        vstd::set_lib::lemma_len_subset(waiting1(t), waiting1(s));
    }
}

/// Appends effects.
fn append_effects(list: &mut Vec<SessionEffect>, more: Vec<SessionEffect>)
    ensures
        client::effects_view(final(list)@) == client::effects_view(old(list)@)
            + client::effects_view(more@),
{
    let mut more = more;
    let ghost a = list@;
    let ghost b = more@;
    list.append(&mut more);
    assert(client::effects_view(list@) =~= client::effects_view(a) + client::effects_view(b));
}

impl ClientSession {
    /// Queues a message for the client.
    pub fn enqueue_publish(
        &mut self,
        topic: &str,
        payload: &[u8],
        qos: u8,
        retain: bool,
        properties: &ApplicationProperties,
        subscription_identifier: Option<u32>,
        now_ms: u64,
    ) -> (effects: Vec<SessionEffect>)
        requires
            old(self).wf(),
        ensures
            final(self).wf(),
            (final(self)@, client::effects_view(effects@)) == old(self)@.enqueue(
                (MessageView {
                    topic: topic@,
                    payload: payload@,
                    retain,
                    subscription_identifier,
                    properties: properties@,
                }),
                qos,
                now_ms,
            ),
    {
        let mut effects: Vec<SessionEffect> = Vec::new();
        assert(client::effects_view(effects@) =~= Seq::empty());
        let ghost m = MessageView {
            topic: topic@,
            payload: payload@,
            retain,
            subscription_identifier,
            properties: properties@,
        };
        if properties.is_expired_at(now_ms) {
            return effects;
        }
        if self.connected {
            let preview = encode_message(
                false,
                qos,
                if qos > 0 {
                    Some(1)
                } else {
                    None
                },
                topic,
                payload,
                retain,
                properties,
                subscription_identifier,
                now_ms,
            );
            if preview.len() > self.maximum_packet_size as usize {
                return effects;
            }
            if qos == 0 {
                effects.push(SessionEffect::Send(preview));
                assert(client::effects_view(effects@) =~= seq![effects@[0]@]);
                return effects;
            }
        } else if qos == 0 {
            return effects;
        }
        self.enqueue_tracked(
            topic,
            payload,
            qos,
            retain,
            properties,
            subscription_identifier,
            now_ms,
        )
    }

    /// Queues a message whose delivery is acknowledged.
    fn enqueue_tracked(
        &mut self,
        topic: &str,
        payload: &[u8],
        qos: u8,
        retain: bool,
        properties: &ApplicationProperties,
        subscription_identifier: Option<u32>,
        now_ms: u64,
    ) -> (effects: Vec<SessionEffect>)
        requires
            old(self).wf(),
            qos > 0,
        ensures
            final(self).wf(),
            (final(self)@, client::effects_view(effects@)) == old(self)@.enqueue_tracked(
                (MessageView {
                    topic: topic@,
                    payload: payload@,
                    retain,
                    subscription_identifier,
                    properties: properties@,
                }),
                qos,
                now_ms,
            ),
    {
        let ghost was = self@;
        let ghost m = MessageView {
            topic: topic@,
            payload: payload@,
            retain,
            subscription_identifier,
            properties: properties@,
        };
        let mut effects: Vec<SessionEffect> = Vec::new();
        assert(client::effects_view(effects@) =~= Seq::empty());
        let packet_id: u16 = self.get_next_packet_id();
        if packet_id == 0 {
            return effects;
        }
        let order: u64 = self.next_outbound_order;
        self.next_outbound_order = order.wrapping_add(1);
        let start_now = self.connected && self.outbound_active.len()
            < self.receive_maximum as usize;
        if start_now {
            self.outbound_active.insert(packet_id, ());
        }
        let keep = self.session_expiry_interval > 0;
        let ghost out = OutView {
            message: m,
            qos: if qos == 1 {
                1
            } else {
                2
            },
            order,
            started: start_now,
            completing: false,
        };
        if qos == 1 {
            let message = InFlightMessage {
                packet_id,
                topic: topic.to_owned(),
                payload: copy_bytes(payload),
                qos,
                retain,
                subscription_identifier,
                properties: properties.clone(),
                enqueue_order: order,
                delivery_started: start_now,
            };
            if keep {
                effects.push(SessionEffect::SaveInFlight(message.clone()));
            }
            self.in_flight.insert(packet_id, message);
        } else {
            let message = OutgoingQos2Message {
                topic: topic.to_owned(),
                payload: copy_bytes(payload),
                retain,
                subscription_identifier,
                properties: properties.clone(),
                enqueue_order: order,
                delivery_started: start_now,
                phase: OutgoingQos2Phase::AwaitPubRec,
            };
            if keep {
                effects.push(SessionEffect::SaveOutgoing(packet_id, message.clone()));
            }
            self.outgoing_qos2.insert(packet_id, message);
        }
        let ghost saved = effects@;
        if start_now {
            let bytes = encode_message(
                false,
                qos,
                Some(packet_id),
                topic,
                payload,
                retain,
                properties,
                subscription_identifier,
                now_ms,
            );
            effects.push(SessionEffect::Send(bytes));
        }
        proof {
            let (want, list) = was.enqueue_tracked(m, qos, now_ms);
            assert(self@.in_flight =~= want.in_flight);
            assert(self@.outgoing_qos2 =~= want.outgoing_qos2);
            assert(self@.outbound_active =~= want.outbound_active);
            assert(self@ =~= want);
            assert(client::effects_view(effects@) =~= list);
        }
        effects
    }

    /// The QoS 1 message that waits first.
    fn first_waiting1(&self) -> (r: Option<u16>)
        ensures
            match r {
                Some(id) => self@.first1(id),
                None => forall|id: u16| !self@.waits1(id),
            },
    {
        let ids = self.in_flight.ids();
        let mut best: Option<u16> = None;
        let mut i: usize = 0;
        while i < ids.len()
            invariant
                i <= ids@.len(),
                forall|k: int| 0 <= k < ids@.len() ==> self.in_flight@.contains_key(
                    #[trigger] ids@[k],
                ),
                match best {
                    Some(id) => self@.waits1(id) && forall|k: int|
                        0 <= k < i && self@.waits1(#[trigger] ids@[k]) ==> model::comes_first(
                            self@.in_flight[id].order,
                            id,
                            self@.in_flight[ids@[k]].order,
                            ids@[k],
                        ),
                    None => forall|k: int| 0 <= k < i ==> !self@.waits1(#[trigger] ids@[k]),
                },
            decreases ids@.len() - i,
        {
            let id: u16 = ids[i];
            if !self.outbound_active.contains_key(id) {
                if let Some(message) = self.in_flight.get(id) {
                    assert(self@.waits1(id));
                    let better = match best {
                        Some(other) => match self.in_flight.get(other) {
                            Some(current) => message.enqueue_order < current.enqueue_order || (
                            message.enqueue_order == current.enqueue_order && id < other),
                            None => true,
                        },
                        None => true,
                    };
                    if better {
                        best = Some(id);
                    }
                }
            }
            i = i + 1;
        }
        proof {
            assert forall|id: u16| #[trigger] self@.waits1(id) implies exists|k: int|
                0 <= k < ids@.len() && #[trigger] ids@[k] == id by {
                assert(ids@.contains(id));
            }
        }
        best
    }

    /// The QoS 2 message that waits first.
    fn first_waiting2(&self) -> (r: Option<u16>)
        ensures
            match r {
                Some(id) => self@.first2(id),
                None => forall|id: u16| !self@.waits2(id),
            },
    {
        let ids = self.outgoing_qos2.ids();
        let mut best: Option<u16> = None;
        let mut i: usize = 0;
        while i < ids.len()
            invariant
                i <= ids@.len(),
                forall|k: int| 0 <= k < ids@.len() ==> self.outgoing_qos2@.contains_key(
                    #[trigger] ids@[k],
                ),
                match best {
                    Some(id) => self@.waits2(id) && forall|k: int|
                        0 <= k < i && self@.waits2(#[trigger] ids@[k]) ==> model::comes_first(
                            self@.outgoing_qos2[id].order,
                            id,
                            self@.outgoing_qos2[ids@[k]].order,
                            ids@[k],
                        ),
                    None => forall|k: int| 0 <= k < i ==> !self@.waits2(#[trigger] ids@[k]),
                },
            decreases ids@.len() - i,
        {
            let id: u16 = ids[i];
            if !self.outbound_active.contains_key(id) {
                if let Some(message) = self.outgoing_qos2.get(id) {
                    if message.phase == OutgoingQos2Phase::AwaitPubRec {
                        assert(self@.waits2(id));
                        let better = match best {
                            Some(other) => match self.outgoing_qos2.get(other) {
                                Some(current) => message.enqueue_order < current.enqueue_order || (
                                message.enqueue_order == current.enqueue_order && id < other),
                                None => true,
                            },
                            None => true,
                        };
                        if better {
                            best = Some(id);
                        }
                    }
                }
            }
            i = i + 1;
        }
        proof {
            assert forall|id: u16| #[trigger] self@.waits2(id) implies exists|k: int|
                0 <= k < ids@.len() && #[trigger] ids@[k] == id by {
                assert(ids@.contains(id));
            }
        }
        best
    }

    /// The next message to send: its quality of service and its packet identifier.
    fn next_waiting(&self) -> (r: Option<(u8, u16)>)
        ensures
            r == self@.next_waiting(),
            r matches Some((qos, id)) ==> (qos == 1 || qos == 2) && (qos == 1 ==> self@.waits1(id))
                && (qos == 2 ==> self@.waits2(id)),
    {
        let one = self.first_waiting1();
        let two = self.first_waiting2();
        proof {
            if let Some(id) = one {
                assert(self@.first1(id));
                assert(self@.waits1(id));
                lemma_first_unique(self@, id, choose|k: u16| self@.first1(k));
            }
            if let Some(id) = two {
                assert(self@.first2(id));
                assert(self@.waits2(id));
                lemma_first_unique(self@, id, choose|k: u16| self@.first2(k));
            }
        }
        match (one, two) {
            (Some(id1), Some(id2)) => {
                let order1: u64 = match self.in_flight.get(id1) {
                    Some(m) => m.enqueue_order,
                    None => 0,
                };
                let order2: u64 = match self.outgoing_qos2.get(id2) {
                    Some(m) => m.enqueue_order,
                    None => 0,
                };
                if order1 <= order2 {
                    Some((1, id1))
                } else {
                    Some((2, id2))
                }
            },
            (Some(id1), None) => Some((1, id1)),
            (None, Some(id2)) => Some((2, id2)),
            (None, None) => None,
        }
    }

    /// Takes up a QoS 1 message that waits.
    fn send_in_flight(&mut self, id: u16, now_ms: u64) -> (effects: Vec<SessionEffect>)
        requires
            old(self).wf(),
            old(self)@.waits1(id),
            old(self)@.next_waiting() == Some((1u8, id)),
        ensures
            final(self).wf(),
            (final(self)@, client::effects_view(effects@)) == old(self)@.send_next(now_ms),
    {
        let ghost was = self@;
        let mut effects: Vec<SessionEffect> = Vec::new();
        match self.in_flight.remove(id) {
            Some(message) => {
                let mut message = message;
                let was_started = message.delivery_started;
                let bytes = encode_message(
                    was_started,
                    1,
                    Some(id),
                    message.topic.as_str(),
                    message.payload.as_slice(),
                    message.retain,
                    &message.properties,
                    message.subscription_identifier,
                    now_ms,
                );
                if (message.properties.is_expired_at(now_ms) && !was_started) || bytes.len()
                    > self.maximum_packet_size as usize {
                    effects.push(SessionEffect::DeleteInFlight(id));
                } else {
                    message.delivery_started = true;
                    self.outbound_active.insert(id, ());
                    if !was_started && self.session_expiry_interval > 0 {
                        effects.push(SessionEffect::SaveInFlight(message.clone()));
                    }
                    self.in_flight.insert(id, message);
                    effects.push(SessionEffect::Send(bytes));
                }
            },
            None => {},
        }
        proof {
            let (want, list) = was.send_next(now_ms);
            assert(self@.in_flight =~= want.in_flight);
            assert(self@.outbound_active =~= want.outbound_active);
            assert(self@ =~= want);
            assert(client::effects_view(effects@) =~= list);
        }
        effects
    }

    /// Takes up a QoS 2 message that waits.
    fn send_outgoing(&mut self, id: u16, now_ms: u64) -> (effects: Vec<SessionEffect>)
        requires
            old(self).wf(),
            old(self)@.waits2(id),
            old(self)@.next_waiting() == Some((2u8, id)),
        ensures
            final(self).wf(),
            (final(self)@, client::effects_view(effects@)) == old(self)@.send_next(now_ms),
    {
        let ghost was = self@;
        let mut effects: Vec<SessionEffect> = Vec::new();
        match self.outgoing_qos2.remove(id) {
            Some(message) => {
                let mut message = message;
                let was_started = message.delivery_started;
                let bytes = encode_message(
                    was_started,
                    2,
                    Some(id),
                    message.topic.as_str(),
                    message.payload.as_slice(),
                    message.retain,
                    &message.properties,
                    message.subscription_identifier,
                    now_ms,
                );
                if (message.properties.is_expired_at(now_ms) && !was_started) || bytes.len()
                    > self.maximum_packet_size as usize {
                    effects.push(SessionEffect::DeleteOutgoing(id));
                } else {
                    message.delivery_started = true;
                    self.outbound_active.insert(id, ());
                    if !was_started && self.session_expiry_interval > 0 {
                        effects.push(SessionEffect::SaveOutgoing(id, message.clone()));
                    }
                    self.outgoing_qos2.insert(id, message);
                    effects.push(SessionEffect::Send(bytes));
                }
            },
            None => {},
        }
        proof {
            let (want, list) = was.send_next(now_ms);
            assert(self@.outgoing_qos2 =~= want.outgoing_qos2);
            assert(self@.outbound_active =~= want.outbound_active);
            assert(self@ =~= want);
            assert(client::effects_view(effects@) =~= list);
        }
        effects
    }

    /// Takes up waiting messages, in the order of queueing, until the client's Receive Maximum is
    /// full.
    pub fn drain_receive_maximum(&mut self, now_ms: u64) -> (effects: Vec<SessionEffect>)
        requires
            old(self).wf(),
        ensures
            final(self).wf(),
            (final(self)@, client::effects_view(effects@)) == old(self)@.drained(now_ms),
            !final(self)@.may_send(),
    {
        let ghost was = self@;
        let mut effects: Vec<SessionEffect> = Vec::new();
        let n1: usize = self.in_flight.len();
        let n2: usize = self.outgoing_qos2.len();
        let n3: usize = self.outbound_active.len();
        let ghost mut n: nat = (n1 + n2) as nat;
        proof {
            assert(self@.in_flight.dom() =~= self.in_flight@.dom());
            assert(self@.outgoing_qos2.dom() =~= self.outgoing_qos2@.dom());
            lemma_waiting_bound(self@);
            assert(client::effects_view(effects@) =~= Seq::empty());
            let (last, more) = self@.drain(now_ms, n);
            assert(client::effects_view(effects@) + more =~= more);
        }
        loop
            invariant
                self.wf(),
                finite(self@),
                waiting(self@) <= n,
                was.drained(now_ms) == ({
                    let (last, more) = self@.drain(now_ms, n);
                    (last, client::effects_view(effects@) + more)
                }),
                was == old(self)@,
            ensures
                self.wf(),
                (self@, client::effects_view(effects@)) == old(self)@.drained(now_ms),
                !self@.may_send(),
            decreases n,
        {
            if !self.connected || self.outbound_active.len() >= self.receive_maximum as usize {
                assert(client::effects_view(effects@) + Seq::<EffectView>::empty()
                    =~= client::effects_view(effects@));
                break;
            }
            match self.next_waiting() {
                None => {
                    assert(client::effects_view(effects@) + Seq::<EffectView>::empty()
                        =~= client::effects_view(effects@));
                    break;
                },
                Some((qos, id)) => {
                    let ghost before = self@;
                    let ghost done = client::effects_view(effects@);
                    proof {
                        lemma_waiting_bound(before);
                        if n == 0 {
                            if qos == 1 {
                                assert(waiting1(before).contains(id));
                            } else {
                                assert(waiting2(before).contains(id));
                            }
                            assert(waiting1(before).len() == 0 && waiting2(before).len() == 0);
                            assert(false);
                        }
                        lemma_send_next_progress(before, now_ms);
                    }
                    let more = if qos == 1 {
                        self.send_in_flight(id, now_ms)
                    } else {
                        self.send_outgoing(id, now_ms)
                    };
                    let ghost step = client::effects_view(more@);
                    append_effects(&mut effects, more);
                    proof {
                        n = (n - 1) as nat;
                        let (last, rest) = self@.drain(now_ms, n);
                        assert(done + (step + rest) =~= client::effects_view(effects@) + rest);
                    }
                },
            }
        }
        effects
    }

    /// The client acknowledged a QoS 1 message.
    pub fn on_puback(&mut self, packet_id: u16, now_ms: u64) -> (effects: Vec<SessionEffect>)
        requires
            old(self).wf(),
        ensures
            final(self).wf(),
            (final(self)@, client::effects_view(effects@)) == old(self)@.on_puback(
                packet_id,
                now_ms,
            ),
    {
        self.release_outbound_slot(packet_id);
        let _ = self.remove_in_flight(packet_id);
        let mut effects: Vec<SessionEffect> = Vec::new();
        effects.push(SessionEffect::DeleteInFlight(packet_id));
        assert(client::effects_view(effects@) =~= seq![EffectView::DeleteInFlight(packet_id)]);
        let more = self.drain_receive_maximum(now_ms);
        append_effects(&mut effects, more);
        effects
    }

    /// The client has received a QoS 2 message, or refused it.
    pub fn on_pubrec(&mut self, packet_id: u16, reason_code: u8, now_ms: u64) -> (effects: Vec<
        SessionEffect,
    >)
        requires
            old(self).wf(),
        ensures
            final(self).wf(),
            (final(self)@, client::effects_view(effects@)) == old(self)@.on_pubrec(
                packet_id,
                reason_code,
                now_ms,
            ),
    {
        let ghost was = self@;
        let mut effects: Vec<SessionEffect> = Vec::new();
        assert(client::effects_view(effects@) =~= Seq::empty());
        match self.outgoing_qos2.remove(packet_id) {
            None => {
                assert(self@.outgoing_qos2 =~= was.outgoing_qos2);
                assert(self@ =~= was);
                effects
            },
            Some(message) => {
                if reason_code >= 0x80 {
                    assert(self@.outgoing_qos2 =~= was.outgoing_qos2.remove(packet_id));
                    self.release_outbound_slot(packet_id);
                    effects.push(SessionEffect::DeleteOutgoing(packet_id));
                    assert(client::effects_view(effects@) =~= seq![
                        EffectView::DeleteOutgoing(packet_id),
                    ]);
                    let more = self.drain_receive_maximum(now_ms);
                    append_effects(&mut effects, more);
                    effects
                } else {
                    let mut message = message;
                    message.phase = OutgoingQos2Phase::AwaitPubComp;
                    message.delivery_started = true;
                    if self.session_expiry_interval > 0 {
                        effects.push(SessionEffect::SaveOutgoing(packet_id, message.clone()));
                    }
                    self.outgoing_qos2.insert(packet_id, message);
                    effects.push(SessionEffect::Send(encode_pubrel(packet_id)));
                    proof {
                        let (want, list) = was.on_pubrec(packet_id, reason_code, now_ms);
                        assert(self@.outgoing_qos2 =~= want.outgoing_qos2);
                        assert(self@ =~= want);
                        assert(client::effects_view(effects@) =~= list);
                    }
                    effects
                }
            },
        }
    }

    /// A QoS 2 exchange is complete.
    pub fn on_pubcomp(&mut self, packet_id: u16, now_ms: u64) -> (effects: Vec<SessionEffect>)
        requires
            old(self).wf(),
        ensures
            final(self).wf(),
            (final(self)@, client::effects_view(effects@)) == old(self)@.on_pubcomp(
                packet_id,
                now_ms,
            ),
    {
        let ghost was = self@;
        self.release_outbound_slot(packet_id);
        let removed = self.outgoing_qos2.remove(packet_id);
        assert(self@.outgoing_qos2 =~= was.outgoing_qos2.remove(packet_id));
        let mut effects: Vec<SessionEffect> = Vec::new();
        assert(client::effects_view(effects@) =~= Seq::empty());
        if removed.is_some() {
            effects.push(SessionEffect::DeleteOutgoing(packet_id));
            assert(client::effects_view(effects@) =~= seq![EffectView::DeleteOutgoing(packet_id)]);
            let more = self.drain_receive_maximum(now_ms);
            append_effects(&mut effects, more);
        }
        effects
    }

    /// Resumes the exchanges of the session on a new connection: PUBREL for each QoS 2 exchange
    /// of which the end is missing, and then the messages that wait.
    pub fn resume_persistent_outgoing(&mut self, now_ms: u64) -> (effects: Vec<SessionEffect>)
        requires
            old(self).wf(),
        ensures
            final(self).wf(),
            ({
                let open = old(self)@.completing();
                let (last, more) = old(self)@.window_reset().drained(now_ms);
                exists|ids: Seq<u16>|
                    {
                        &&& ids.no_duplicates()
                        &&& ids.to_set() == open
                        &&& (final(self)@, client::effects_view(effects@)) == (
                            last,
                            pubrels(ids) + more,
                        )
                    }
            }),
    {
        let ghost was = self@;
        self.outbound_active = crate::slots::Slots::new();
        let ids = self.outgoing_qos2.ids();
        let mut effects: Vec<SessionEffect> = Vec::new();
        let ghost mut open: Seq<u16> = Seq::empty();
        let mut i: usize = 0;
        assert(client::effects_view(effects@) =~= pubrels(open));
        assert(self.outbound_active@.dom() =~= open.to_set());
        assert(self@ =~= (SessionView { outbound_active: open.to_set(), ..was }));
        while i < ids.len()
            invariant
                i <= ids@.len(),
                ids@.no_duplicates(),
                self.wf(),
                self@ == (SessionView { outbound_active: open.to_set(), ..was }),
                forall|k: int| 0 <= k < ids@.len() ==> self.outgoing_qos2@.contains_key(
                    #[trigger] ids@[k],
                ),
                open.no_duplicates(),
                forall|id: u16| #[trigger]
                    open.contains(id) <==> (was.completing().contains(id) && exists|k: int|
                        0 <= k < i && #[trigger] ids@[k] == id),
                client::effects_view(effects@) == pubrels(open),
            decreases ids@.len() - i,
        {
            let id: u16 = ids[i];
            assert(self@.outgoing_qos2.contains_key(id));
            let ended = match self.outgoing_qos2.get(id) {
                Some(message) => message.phase == OutgoingQos2Phase::AwaitPubComp,
                None => false,
            };
            assert(ended == was.completing().contains(id));
            let ghost before = open;
            if ended {
                let ghost sent = effects@;
                self.outbound_active.insert(id, ());
                effects.push(SessionEffect::Send(encode_pubrel(id)));
                proof {
                    open = before.push(id);
                    assert(!before.contains(id)) by {
                        if before.contains(id) {
                            let k = choose|k: int| 0 <= k < i && #[trigger] ids@[k] == id;
                            assert(ids@[k] == ids@[i as int]);
                        }
                    }
                    assert(open.to_set() =~= before.to_set().insert(id)) by {
                        assert forall|x: u16| open.contains(x) == (before.contains(x) || x
                            == id) by {
                            if before.contains(x) {
                                let k = choose|k: int| 0 <= k < before.len() && before[k] == x;
                                assert(open[k] == x);
                            }
                            if x == id {
                                assert(open[before.len() as int] == x);
                            }
                        }
                    }
                    assert(self.outbound_active@.dom() =~= open.to_set());
                    assert(self@ =~= (SessionView { outbound_active: open.to_set(), ..was }));
                    assert(client::effects_view(effects@) =~= client::effects_view(sent).push(
                        EffectView::Send(model::ack_packet(6, id, 0).bytes()),
                    ));
                    assert(pubrels(open) =~= pubrels(before).push(
                        EffectView::Send(model::ack_packet(6, id, 0).bytes()),
                    ));
                }
            }
            proof {
                assert forall|x: u16| #[trigger]
                    open.contains(x) <==> (was.completing().contains(x) && exists|k: int|
                        0 <= k < i + 1 && #[trigger] ids@[k] == x) by {
                    if ended {
                        assert(open.contains(x) == (before.contains(x) || x == id)) by {
                            if before.contains(x) {
                                let k = choose|k: int| 0 <= k < before.len() && before[k] == x;
                                assert(open[k] == x);
                            }
                            if x == id {
                                assert(open[before.len() as int] == x);
                            }
                            if open.contains(x) && x != id {
                                let k = choose|k: int| 0 <= k < open.len() && open[k] == x;
                                assert(before[k] == x);
                            }
                        }
                    }
                    if x == id {
                        assert(ids@[i as int] == x);
                    }
                }
            }
            i = i + 1;
        }
        proof {
            assert forall|id: u16| open.contains(id) == was.completing().contains(id) by {
                if was.completing().contains(id) {
                    assert(self@.outgoing_qos2.contains_key(id));
                    assert(ids@.contains(id));
                    let k = choose|k: int| 0 <= k < ids@.len() && ids@[k] == id;
                    assert(ids@[k] == id);
                }
            }
            assert(open.to_set() =~= was.completing());
            assert(self@ =~= was.window_reset());
        }
        let more = self.drain_receive_maximum(now_ms);
        append_effects(&mut effects, more);
        proof {
            let (last, rest) = was.window_reset().drained(now_ms);
            assert((self@, client::effects_view(effects@)) == (last, pubrels(open) + rest));
        }
        effects
    }
}

/// A PUBREL for each identifier.
pub open spec fn pubrels(ids: Seq<u16>) -> Seq<EffectView> {
    Seq::new(ids.len(), |i: int| EffectView::Send(model::ack_packet(6, ids[i], 0).bytes()))
}

/// An identifier that is allocated is not 0 and belongs to no open exchange.
pub proof fn law_allocated_id_is_free(used: Set<u16>, next: u16, tries: nat)
    ensures
        ({
            let id = model::allocate(used, next, tries).0;
            id != 0 ==> !used.contains(id)
        }),
    decreases tries,
{
    if tries > 0 {
        let id: u16 = if next == 0 {
            1
        } else {
            next
        };
        let after: u16 = if id == 65535 {
            0
        } else {
            (id + 1) as u16
        };
        law_allocated_id_is_free(used, after, (tries - 1) as nat);
    }
}

/// Where the identifier at a distance of `k` tries from `next` is free, one is allocated.
proof fn lemma_allocate_finds(used: Set<u16>, next: u16, tries: nat, free: u16)
    requires
        free != 0,
        !used.contains(free),
        next != 0 ==> (if free >= next {
            free - next
        } else {
            free - next + 65535
        }) < tries,
        next == 0 ==> free - 1 < tries,
    ensures
        model::allocate(used, next, tries).0 != 0,
    decreases tries,
{
    let id: u16 = if next == 0 {
        1
    } else {
        next
    };
    let after: u16 = if id == 65535 {
        0
    } else {
        (id + 1) as u16
    };
    if used.contains(id) {
        assert(id != free);
        lemma_allocate_finds(used, after, (tries - 1) as nat, free);
    }
}

/// Allocation fails only where every identifier belongs to an open exchange.
pub proof fn law_allocation_fails_only_when_full(used: Set<u16>, next: u16, free: u16)
    requires
        free != 0,
        !used.contains(free),
    ensures
        model::allocate(used, next, 65535).0 != 0,
{
    lemma_allocate_finds(used, next, 65535, free);
}

/// Queueing a message never lets more messages be on their way than the client's Receive Maximum
/// allows.
pub proof fn law_enqueue_respects_receive_maximum(
    s: SessionView,
    m: MessageView,
    qos: u8,
    now_ms: u64,
)
    requires
        s.outbound_active.finite(),
        s.outbound_active.len() <= s.receive_maximum,
    ensures
        s.enqueue(m, qos, now_ms).0.outbound_active.len() <= s.receive_maximum,
        s.enqueue(m, qos, now_ms).0.receive_maximum == s.receive_maximum,
{
}

/// Taking up waiting messages never lets more messages be on their way than the client's Receive
/// Maximum allows.
pub proof fn law_drain_respects_receive_maximum(s: SessionView, now_ms: u64, n: nat)
    requires
        s.outbound_active.finite(),
        s.outbound_active.len() <= s.receive_maximum,
    ensures
        s.drain(now_ms, n).0.outbound_active.finite(),
        s.drain(now_ms, n).0.outbound_active.len() <= s.receive_maximum,
        s.drain(now_ms, n).0.receive_maximum == s.receive_maximum,
    decreases n,
{
    if n > 0 && s.may_send() {
        let next = s.send_next(now_ms).0;
        law_drain_respects_receive_maximum(next, now_ms, (n - 1) as nat);
    }
}

/// A message that is queued while the client is away is kept, under an identifier of its own, and
/// nothing is sent.
pub proof fn law_offline_message_is_kept(s: SessionView, m: MessageView, qos: u8, now_ms: u64)
    requires
        !s.connected,
        qos == 1 || qos == 2,
        !m.properties.expired(now_ms),
        exists|id: u16| id != 0 && !s.used().contains(id),
    ensures
        ({
            let (t, effects) = s.enqueue(m, qos, now_ms);
            let id = model::allocate(s.used(), s.next_packet_id, 65535).0;
            &&& id != 0
            &&& qos == 1 ==> t.in_flight.contains_key(id) && t.in_flight[id].message == m
                && !t.in_flight[id].started
            &&& qos == 2 ==> t.outgoing_qos2.contains_key(id) && t.outgoing_qos2[id].message == m
                && !t.outgoing_qos2[id].started
            &&& forall|i: int| 0 <= i < effects.len() ==> !(#[trigger] effects[i] is Send)
        }),
{
    let free = choose|id: u16| id != 0 && !s.used().contains(id);
    law_allocation_fails_only_when_full(s.used(), s.next_packet_id, free);
}

} // verus!
