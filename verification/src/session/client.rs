//! A client's session.

use vstd::prelude::*;
use crate::message::{string_opt, ApplicationProperties};
use crate::session::model;
use crate::session::model::{EffectView, InboundView, MessageView, OutView, SessionView};
use crate::slots::Slots;
use crate::text::{copy_bytes, str_eq};

verus! {

/// A QoS 1 message that waits for PUBACK.
#[derive(Debug)]
pub struct InFlightMessage {
    /// The packet identifier.
    pub packet_id: u16,
    /// The topic.
    pub topic: String,
    /// The payload.
    pub payload: Vec<u8>,
    /// The quality of service.
    pub qos: u8,
    /// The retain flag.
    pub retain: bool,
    /// The identifier of the subscription that matched.
    pub subscription_identifier: Option<u32>,
    /// The properties.
    pub properties: ApplicationProperties,
    /// Its place in the order of queueing.
    pub enqueue_order: u64,
    /// Whether it has been sent.
    pub delivery_started: bool,
}

/// A QoS 2 message of a client that waits for PUBREL.
#[derive(Debug)]
pub struct IncomingQos2Message {
    /// The topic.
    pub topic: String,
    /// The payload.
    pub payload: Vec<u8>,
    /// The retain flag.
    pub retain: bool,
    /// The properties.
    pub properties: ApplicationProperties,
}

/// How far a QoS 2 exchange with a client has come.
#[derive(Debug, Clone, Copy, PartialEq, Eq, Structural)]
pub enum OutgoingQos2Phase {
    /// The client has not confirmed that it has the message.
    AwaitPubRec,
    /// The client has the message.
    AwaitPubComp,
}

impl OutgoingQos2Phase {
    /// The phase that a stored number stands for.
    pub fn from_db(value: u8) -> (r: Self)
        ensures
            r == (if value == 1 {
                OutgoingQos2Phase::AwaitPubComp
            } else {
                OutgoingQos2Phase::AwaitPubRec
            }),
    {
        if value == 1 {
            OutgoingQos2Phase::AwaitPubComp
        } else {
            OutgoingQos2Phase::AwaitPubRec
        }
    }

    /// The number under which a phase is stored.
    pub fn to_db(self) -> (r: u8)
        ensures
            r == (if self == OutgoingQos2Phase::AwaitPubComp {
                1u8
            } else {
                0
            }),
    {
        match self {
            OutgoingQos2Phase::AwaitPubRec => 0,
            OutgoingQos2Phase::AwaitPubComp => 1,
        }
    }
}

/// A QoS 2 message that waits for PUBREC or PUBCOMP.
#[derive(Debug)]
pub struct OutgoingQos2Message {
    /// The topic.
    pub topic: String,
    /// The payload.
    pub payload: Vec<u8>,
    /// The retain flag.
    pub retain: bool,
    /// The identifier of the subscription that matched.
    pub subscription_identifier: Option<u32>,
    /// The properties.
    pub properties: ApplicationProperties,
    /// Its place in the order of queueing.
    pub enqueue_order: u64,
    /// Whether it has been sent.
    pub delivery_started: bool,
    /// How far the exchange has come.
    pub phase: OutgoingQos2Phase,
}

impl View for InFlightMessage {
    type V = OutView;

    open spec fn view(&self) -> OutView {
        OutView {
            message: MessageView {
                topic: self.topic@,
                payload: self.payload@,
                retain: self.retain,
                subscription_identifier: self.subscription_identifier,
                properties: self.properties@,
            },
            qos: self.qos,
            order: self.enqueue_order,
            started: self.delivery_started,
            completing: false,
        }
    }
}

impl View for OutgoingQos2Message {
    type V = OutView;

    open spec fn view(&self) -> OutView {
        OutView {
            message: MessageView {
                topic: self.topic@,
                payload: self.payload@,
                retain: self.retain,
                subscription_identifier: self.subscription_identifier,
                properties: self.properties@,
            },
            qos: 2,
            order: self.enqueue_order,
            started: self.delivery_started,
            completing: self.phase == OutgoingQos2Phase::AwaitPubComp,
        }
    }
}

impl View for IncomingQos2Message {
    type V = InboundView;

    open spec fn view(&self) -> InboundView {
        InboundView {
            topic: self.topic@,
            payload: self.payload@,
            retain: self.retain,
            properties: self.properties@,
        }
    }
}

impl Clone for InFlightMessage {
    fn clone(&self) -> (r: Self)
        ensures
            r@ == self@,
            r.packet_id == self.packet_id,
    {
        InFlightMessage {
            packet_id: self.packet_id,
            topic: self.topic.clone(),
            payload: copy_bytes(self.payload.as_slice()),
            qos: self.qos,
            retain: self.retain,
            subscription_identifier: self.subscription_identifier,
            properties: self.properties.clone(),
            enqueue_order: self.enqueue_order,
            delivery_started: self.delivery_started,
        }
    }
}

impl Clone for OutgoingQos2Message {
    fn clone(&self) -> (r: Self)
        ensures
            r@ == self@,
    {
        OutgoingQos2Message {
            topic: self.topic.clone(),
            payload: copy_bytes(self.payload.as_slice()),
            retain: self.retain,
            subscription_identifier: self.subscription_identifier,
            properties: self.properties.clone(),
            enqueue_order: self.enqueue_order,
            delivery_started: self.delivery_started,
            phase: self.phase,
        }
    }
}

impl Clone for IncomingQos2Message {
    fn clone(&self) -> (r: Self)
        ensures
            r@ == self@,
    {
        IncomingQos2Message {
            topic: self.topic.clone(),
            payload: copy_bytes(self.payload.as_slice()),
            retain: self.retain,
            properties: self.properties.clone(),
        }
    }
}

/// What a session asks its surroundings to do.
#[derive(Debug)]
pub enum SessionEffect {
    /// Send a packet.
    Send(Vec<u8>),
    /// Send a packet, and free a place of the server's Receive Maximum once it is written.
    SendAndRelease(Vec<u8>, u16),
    /// Store a QoS 1 message.
    SaveInFlight(InFlightMessage),
    /// Forget a QoS 1 message.
    DeleteInFlight(u16),
    /// Store a QoS 2 message.
    SaveOutgoing(u16, OutgoingQos2Message),
    /// Forget a QoS 2 message.
    DeleteOutgoing(u16),
    /// Store a QoS 2 message of the client.
    SaveIncoming(u16, IncomingQos2Message),
    /// Forget a QoS 2 message of the client.
    DeleteIncoming(u16),
}

impl View for SessionEffect {
    type V = EffectView;

    open spec fn view(&self) -> EffectView {
        match *self {
            SessionEffect::Send(bytes) => EffectView::Send(bytes@),
            SessionEffect::SendAndRelease(bytes, id) => EffectView::SendAndRelease(bytes@, id),
            SessionEffect::SaveInFlight(m) => EffectView::SaveInFlight(m.packet_id, m@),
            SessionEffect::DeleteInFlight(id) => EffectView::DeleteInFlight(id),
            SessionEffect::SaveOutgoing(id, m) => EffectView::SaveOutgoing(id, m@),
            SessionEffect::DeleteOutgoing(id) => EffectView::DeleteOutgoing(id),
            SessionEffect::SaveIncoming(id, m) => EffectView::SaveIncoming(id, m@),
            SessionEffect::DeleteIncoming(id) => EffectView::DeleteIncoming(id),
        }
    }
}

/// The content of a list of effects.
pub open spec fn effects_view(list: Seq<SessionEffect>) -> Seq<EffectView> {
    Seq::new(list.len(), |i: int| list[i]@)
}

/// The content of a list of texts, as a set.
pub open spec fn text_set(list: Seq<String>) -> Set<Seq<char>> {
    Set::new(|t: Seq<char>| exists|i: int| 0 <= i < list.len() && (#[trigger] list[i])@ == t)
}

/// A client's session, connected or not.
#[derive(Debug)]
pub struct ClientSession {
    /// The client identifier.
    pub client_id: String,
    /// The user's name.
    pub username: Option<String>,
    /// Whether an earlier session was discarded.
    pub clean_start: bool,
    /// Whether every topic may be read.
    pub allow_all_read: bool,
    /// Whether every topic may be written.
    pub allow_all_write: bool,
    /// The longest silence of the client, in seconds.
    pub keep_alive: u16,
    /// How many unacknowledged messages the client accepts at a time.
    pub receive_maximum: u16,
    /// The largest packet the client accepts.
    pub maximum_packet_size: u32,
    /// The largest topic alias the client may use.
    pub topic_alias_maximum: u16,
    /// How long the session outlives its connection, in seconds.
    pub session_expiry_interval: u32,
    /// Whether the client is connected.
    pub connected: bool,
    /// The topic of each alias that the client established.
    pub topic_aliases: Slots<String>,
    /// The topic filters the client has subscribed to, each once.
    pub subscriptions: Vec<String>,
    /// How many messages the client has published.
    pub published_messages: u64,
    /// The packet identifier that is tried next.
    pub next_packet_id: u16,
    /// The place that the next queued message gets.
    pub next_outbound_order: u64,
    /// QoS 1 messages that wait for PUBACK.
    pub in_flight: Slots<InFlightMessage>,
    /// QoS 2 messages of the client that wait for PUBREL.
    pub incoming_qos2: Slots<IncomingQos2Message>,
    /// QoS 2 messages that wait for PUBREC or PUBCOMP.
    pub outgoing_qos2: Slots<OutgoingQos2Message>,
    /// Packet identifiers of the client that count against the server's Receive Maximum.
    pub inbound_receive_pending: Slots<()>,
    /// Packet identifiers that count against the client's Receive Maximum.
    pub outbound_active: Slots<()>,
    /// Whether the connection is to be closed.
    pub disconnect_requested: bool,
}

impl View for ClientSession {
    type V = SessionView;

    open spec fn view(&self) -> SessionView {
        SessionView {
            client: self.client_id@,
            username: string_opt(self.username),
            clean_start: self.clean_start,
            allow_all_read: self.allow_all_read,
            allow_all_write: self.allow_all_write,
            keep_alive: self.keep_alive,
            receive_maximum: self.receive_maximum,
            maximum_packet_size: self.maximum_packet_size,
            topic_alias_maximum: self.topic_alias_maximum,
            expiry: self.session_expiry_interval,
            connected: self.connected,
            aliases: Map::new(
                |id: u16| self.topic_aliases@.contains_key(id),
                |id: u16| self.topic_aliases@[id]@,
            ),
            subscriptions: text_set(self.subscriptions@),
            published: self.published_messages,
            next_packet_id: self.next_packet_id,
            next_order: self.next_outbound_order,
            in_flight: Map::new(
                |id: u16| self.in_flight@.contains_key(id),
                |id: u16| self.in_flight@[id]@,
            ),
            outgoing_qos2: Map::new(
                |id: u16| self.outgoing_qos2@.contains_key(id),
                |id: u16| self.outgoing_qos2@[id]@,
            ),
            incoming_qos2: Map::new(
                |id: u16| self.incoming_qos2@.contains_key(id),
                |id: u16| self.incoming_qos2@[id]@,
            ),
            inbound_pending: self.inbound_receive_pending@.dom(),
            outbound_active: self.outbound_active@.dom(),
            disconnect_requested: self.disconnect_requested,
        }
    }
}

impl ClientSession {
    /// The filters are listed once each, and a QoS 1 message is kept under its own identifier.
    pub open spec fn wf(&self) -> bool {
        &&& forall|i: int, j: int|
            0 <= i < j < self.subscriptions@.len() ==> (#[trigger] self.subscriptions@[i])@ != (
            #[trigger] self.subscriptions@[j])@
        &&& forall|id: u16| #[trigger]
            self.in_flight@.contains_key(id) ==> self.in_flight@[id].packet_id == id
    }

    /// A connected session without subscriptions or messages.
    pub fn new(
        client_id: String,
        username: Option<String>,
        clean_start: bool,
        allow_all_read: bool,
        allow_all_write: bool,
        keep_alive: u16,
        receive_maximum: u16,
        maximum_packet_size: u32,
        session_expiry_interval: u32,
    ) -> (r: Self)
        ensures
            r.wf(),
            r@ == (SessionView {
                client: client_id@,
                username: string_opt(username),
                clean_start,
                allow_all_read,
                allow_all_write,
                keep_alive,
                receive_maximum,
                maximum_packet_size,
                topic_alias_maximum: 0,
                expiry: session_expiry_interval,
                connected: true,
                aliases: Map::empty(),
                subscriptions: Set::empty(),
                published: 0,
                next_packet_id: 1,
                next_order: 1,
                in_flight: Map::empty(),
                outgoing_qos2: Map::empty(),
                incoming_qos2: Map::empty(),
                inbound_pending: Set::empty(),
                outbound_active: Set::empty(),
                disconnect_requested: false,
            }),
    {
        let r = ClientSession {
            client_id,
            username,
            clean_start,
            allow_all_read,
            allow_all_write,
            keep_alive,
            receive_maximum,
            maximum_packet_size,
            topic_alias_maximum: 0,
            session_expiry_interval,
            connected: true,
            topic_aliases: Slots::new(),
            subscriptions: Vec::new(),
            published_messages: 0,
            next_packet_id: 1,
            next_outbound_order: 1,
            in_flight: Slots::new(),
            incoming_qos2: Slots::new(),
            outgoing_qos2: Slots::new(),
            inbound_receive_pending: Slots::new(),
            outbound_active: Slots::new(),
            disconnect_requested: false,
        };
        proof {
            assert(r@.aliases =~= Map::empty());
            assert(r@.subscriptions =~= Set::empty());
            assert(r@.in_flight =~= Map::empty());
            assert(r@.outgoing_qos2 =~= Map::empty());
            assert(r@.incoming_qos2 =~= Map::empty());
            assert(r@.inbound_pending =~= Set::empty());
            assert(r@.outbound_active =~= Set::empty());
        }
        r
    }

    /// A packet identifier that no exchange uses, 0 where there is none.
    pub fn get_next_packet_id(&mut self) -> (id: u16)
        requires
            old(self).wf(),
        ensures
            final(self).wf(),
            ({
                let (want, next) = model::allocate(
                    old(self)@.used(),
                    old(self)@.next_packet_id,
                    65535,
                );
                id == want && final(self)@ == (SessionView { next_packet_id: next, ..old(self)@ })
            }),
    {
        let ghost used = self@.used();
        let ghost want = model::allocate(used, self.next_packet_id, 65535);
        let ghost was = self@;
        let mut tries: u16 = 65535;
        while tries > 0
            invariant
                self.wf(),
                used == was.used(),
                model::allocate(used, self.next_packet_id, tries as nat) == want,
                self@ == (SessionView { next_packet_id: self.next_packet_id, ..was }),
                was == old(self)@,
                want == model::allocate(old(self)@.used(), old(self)@.next_packet_id, 65535),
            decreases tries,
        {
            let id: u16 = if self.next_packet_id == 0 {
                1
            } else {
                self.next_packet_id
            };
            let ghost before = *self;
            self.next_packet_id = if id == 65535 {
                0
            } else {
                id + 1
            };
            proof {
                assert(self@.in_flight == before@.in_flight);
                assert(self@.in_flight.dom().contains(id) == self.in_flight@.contains_key(id));
                assert(self@.outgoing_qos2.dom().contains(id) == self.outgoing_qos2@.contains_key(
                    id,
                ));
                assert(used.contains(id) == (self.in_flight@.contains_key(id)
                    || self.outgoing_qos2@.contains_key(id)));
            }
            if !self.in_flight.contains_key(id) && !self.outgoing_qos2.contains_key(id) {
                return id;
            }
            tries = tries - 1;
        }
        0
    }

    /// Frees a place of the client's Receive Maximum.
    pub fn release_outbound_slot(&mut self, packet_id: u16)
        requires
            old(self).wf(),
        ensures
            final(self).wf(),
            final(self)@ == (SessionView {
                outbound_active: old(self)@.outbound_active.remove(packet_id),
                ..old(self)@
            }),
    {
        let _ = self.outbound_active.remove(packet_id);
        assert(self@.outbound_active =~= old(self)@.outbound_active.remove(packet_id));
    }

    /// Counts a packet identifier of the client against the server's Receive Maximum: `Ok(true)`
    /// where it is new, `Ok(false)` where it counts already, an error where the maximum would be
    /// exceeded.
    pub fn reserve_inbound_receive(&mut self, packet_id: u16, maximum: u16) -> (r: Result<bool, ()>)
        requires
            old(self).wf(),
        ensures
            final(self).wf(),
            ({
                let pending = old(self)@.inbound_pending;
                if pending.contains(packet_id) {
                    r == Ok::<bool, ()>(false) && final(self)@ == old(self)@
                } else if pending.len() >= maximum {
                    r == Err::<bool, ()>(()) && final(self)@ == old(self)@
                } else {
                    r == Ok::<bool, ()>(true) && final(self)@ == (SessionView {
                        inbound_pending: pending.insert(packet_id),
                        ..old(self)@
                    })
                }
            }),
            old(self)@.inbound_pending.finite(),
    {
        let count: usize = self.inbound_receive_pending.len();
        if self.inbound_receive_pending.contains_key(packet_id) {
            return Ok(false);
        }
        if count >= maximum as usize {
            return Err(());
        }
        self.inbound_receive_pending.insert(packet_id, ());
        assert(self@.inbound_pending =~= old(self)@.inbound_pending.insert(packet_id));
        Ok(true)
    }

    /// Frees a place of the server's Receive Maximum.
    pub fn release_inbound_receive(&mut self, packet_id: u16)
        requires
            old(self).wf(),
        ensures
            final(self).wf(),
            final(self)@ == (SessionView {
                inbound_pending: old(self)@.inbound_pending.remove(packet_id),
                ..old(self)@
            }),
    {
        let _ = self.inbound_receive_pending.remove(packet_id);
        assert(self@.inbound_pending =~= old(self)@.inbound_pending.remove(packet_id));
    }

    /// Makes messages that are queued from now on come after the given place.
    pub fn observe_outbound_order(&mut self, order: u64)
        requires
            old(self).wf(),
        ensures
            final(self).wf(),
            final(self)@ == (SessionView {
                next_order: if order.saturating_add(1) > old(self)@.next_order {
                    order.saturating_add(1)
                } else {
                    old(self)@.next_order
                },
                ..old(self)@
            }),
    {
        let next: u64 = order.saturating_add(1);
        if next > self.next_outbound_order {
            self.next_outbound_order = next;
        }
    }

    /// Keeps a QoS 1 message until it is acknowledged.
    pub fn add_in_flight(
        &mut self,
        packet_id: u16,
        topic: &str,
        payload: &[u8],
        qos: u8,
        retain: bool,
        subscription_identifier: Option<u32>,
        properties: ApplicationProperties,
        enqueue_order: u64,
        delivery_started: bool,
    )
        requires
            old(self).wf(),
        ensures
            final(self).wf(),
            final(self)@ == (SessionView {
                in_flight: old(self)@.in_flight.insert(
                    packet_id,
                    (OutView {
                        message: MessageView {
                            topic: topic@,
                            payload: payload@,
                            retain,
                            subscription_identifier,
                            properties: properties@,
                        },
                        qos,
                        order: enqueue_order,
                        started: delivery_started,
                        completing: false,
                    }),
                ),
                ..old(self)@
            }),
    {
        let message = InFlightMessage {
            packet_id,
            topic: topic.to_owned(),
            payload: copy_bytes(payload),
            qos,
            retain,
            subscription_identifier,
            properties,
            enqueue_order,
            delivery_started,
        };
        let ghost view = message@;
        self.in_flight.insert(packet_id, message);
        assert(self@.in_flight =~= old(self)@.in_flight.insert(packet_id, view));
    }

    /// Takes a QoS 1 message out.
    pub fn remove_in_flight(&mut self, packet_id: u16) -> (r: Option<InFlightMessage>)
        requires
            old(self).wf(),
        ensures
            final(self).wf(),
            final(self)@ == (SessionView {
                in_flight: old(self)@.in_flight.remove(packet_id),
                ..old(self)@
            }),
            match r {
                Some(m) => old(self)@.in_flight.contains_key(packet_id) && m@
                    == old(self)@.in_flight[packet_id],
                None => !old(self)@.in_flight.contains_key(packet_id),
            },
    {
        let r = self.in_flight.remove(packet_id);
        assert(self@.in_flight =~= old(self)@.in_flight.remove(packet_id));
        r
    }

    /// Asks for the connection to be closed; true only the first time.
    pub fn request_disconnect(&mut self) -> (first: bool)
        requires
            old(self).wf(),
        ensures
            final(self).wf(),
            first == !old(self)@.disconnect_requested,
            final(self)@ == (SessionView { disconnect_requested: true, ..old(self)@ }),
    {
        let first = !self.disconnect_requested;
        self.disconnect_requested = true;
        first
    }

    /// Whether the connection is to be closed.
    pub fn disconnect_requested(&self) -> (r: bool)
        ensures
            r == self@.disconnect_requested,
    {
        self.disconnect_requested
    }

    /// How many topic filters the client has subscribed to.
    pub fn subscription_count(&self) -> (n: usize)
        requires
            self.wf(),
        ensures
            n == self@.subscriptions.len(),
            self@.subscriptions.finite(),
    {
        proof {
            lemma_text_set(self.subscriptions@);
        }
        self.subscriptions.len()
    }

    /// Whether the client has subscribed to a topic filter.
    pub fn has_subscription(&self, topic_filter: &str) -> (r: bool)
        ensures
            r == self@.subscriptions.contains(topic_filter@),
    {
        let mut i: usize = 0;
        while i < self.subscriptions.len()
            invariant
                i <= self.subscriptions@.len(),
                forall|k: int| 0 <= k < i ==> (#[trigger] self.subscriptions@[k])@ != topic_filter@,
            decreases self.subscriptions@.len() - i,
        {
            if str_eq(self.subscriptions[i].as_str(), topic_filter) {
                assert(self.subscriptions@[i as int]@ == topic_filter@);
                return true;
            }
            i = i + 1;
        }
        false
    }

    /// Notes a topic filter.
    pub fn add_subscription(&mut self, topic_filter: &str)
        requires
            old(self).wf(),
        ensures
            final(self).wf(),
            final(self)@ == (SessionView {
                subscriptions: old(self)@.subscriptions.insert(topic_filter@),
                ..old(self)@
            }),
    {
        if self.has_subscription(topic_filter) {
            assert(self@.subscriptions =~= old(self)@.subscriptions.insert(topic_filter@));
            return;
        }
        let ghost before = self.subscriptions@;
        self.subscriptions.push(topic_filter.to_owned());
        proof {
            let after = self.subscriptions@;
            assert forall|i: int, j: int| 0 <= i < j < after.len() implies (#[trigger] after[i])@
                != (#[trigger] after[j])@ by {
                assert(after[i] == before[i]);
                if j < before.len() {
                    assert(after[j] == before[j]);
                } else {
                    assert(text_set(before).contains(before[i]@));
                }
            }
            assert forall|t: Seq<char>|
                text_set(after).contains(t) == (text_set(before).contains(t) || t
                    == topic_filter@) by {
                if text_set(before).contains(t) {
                    let i = choose|i: int| 0 <= i < before.len() && (#[trigger] before[i])@ == t;
                    assert(after[i]@ == t);
                }
                if t == topic_filter@ {
                    assert(after[before.len() as int]@ == t);
                }
                if text_set(after).contains(t) && t != topic_filter@ {
                    let i = choose|i: int| 0 <= i < after.len() && (#[trigger] after[i])@ == t;
                    assert(before[i]@ == t);
                }
            }
            assert(self@.subscriptions =~= old(self)@.subscriptions.insert(topic_filter@));
        }
    }

    /// Forgets a topic filter.
    pub fn drop_subscription(&mut self, topic_filter: &str)
        requires
            old(self).wf(),
        ensures
            final(self).wf(),
            final(self)@ == (SessionView {
                subscriptions: old(self)@.subscriptions.remove(topic_filter@),
                ..old(self)@
            }),
    {
        let ghost before = self.subscriptions@;
        let mut i: usize = 0;
        while i < self.subscriptions.len()
            invariant
                i <= self.subscriptions@.len(),
                self.subscriptions@ == before,
                *self == *old(self),
                old(self).wf(),
                before == old(self).subscriptions@,
                forall|k: int| 0 <= k < i ==> (#[trigger] before[k])@ != topic_filter@,
            decreases self.subscriptions@.len() - i,
        {
            if str_eq(self.subscriptions[i].as_str(), topic_filter) {
                self.subscriptions.remove(i);
                proof {
                    let after = self.subscriptions@;
                    assert forall|a: int, b: int| 0 <= a < b < after.len() implies (
                    #[trigger] after[a])@ != (#[trigger] after[b])@ by {
                        let x = if a < i {
                            a
                        } else {
                            a + 1
                        };
                        let y = if b < i {
                            b
                        } else {
                            b + 1
                        };
                        assert(after[a] == before[x] && after[b] == before[y]);
                    }
                    assert forall|t: Seq<char>|
                        text_set(after).contains(t) == (text_set(before).contains(t) && t
                            != topic_filter@) by {
                        if text_set(after).contains(t) {
                            let a = choose|a: int|
                                0 <= a < after.len() && (#[trigger] after[a])@ == t;
                            let x = if a < i {
                                a
                            } else {
                                a + 1
                            };
                            assert(before[x] == after[a]);
                            assert(before[i as int]@ == topic_filter@);
                        }
                        if text_set(before).contains(t) && t != topic_filter@ {
                            let a = choose|a: int|
                                0 <= a < before.len() && (#[trigger] before[a])@ == t;
                            let x = if a < i {
                                a
                            } else {
                                a - 1
                            };
                            assert(after[x] == before[a]);
                        }
                    }
                    assert(self@.subscriptions =~= old(self)@.subscriptions.remove(topic_filter@));
                }
                return;
            }
            i = i + 1;
        }
        assert(self@.subscriptions =~= old(self)@.subscriptions.remove(topic_filter@)) by {
            assert(!text_set(before).contains(topic_filter@));
        }
    }

    /// How long the session outlives its connection, in seconds.
    pub fn session_expiry(&self) -> (r: u32)
        ensures
            r == self@.expiry,
    {
        self.session_expiry_interval
    }

    /// Sets how long the session outlives its connection.
    pub fn set_session_expiry(&mut self, value: u32)
        requires
            old(self).wf(),
        ensures
            final(self).wf(),
            final(self)@ == (SessionView { expiry: value, ..old(self)@ }),
    {
        self.session_expiry_interval = value;
    }

    /// Lets an alias of the client stand for a topic.
    pub fn set_inbound_topic_alias(&mut self, alias: u16, topic: &str)
        requires
            old(self).wf(),
        ensures
            final(self).wf(),
            final(self)@ == (SessionView {
                aliases: old(self)@.aliases.insert(alias, topic@),
                ..old(self)@
            }),
    {
        self.topic_aliases.insert(alias, topic.to_owned());
        assert(self@.aliases =~= old(self)@.aliases.insert(alias, topic@));
    }

    /// Sets the largest topic alias the client may use.
    pub fn set_topic_alias_maximum(&mut self, maximum: u16)
        requires
            old(self).wf(),
        ensures
            final(self).wf(),
            final(self)@ == (SessionView { topic_alias_maximum: maximum, ..old(self)@ }),
    {
        self.topic_alias_maximum = maximum;
    }

    /// Takes over what a session keeps beyond a connection: its subscriptions and the messages of
    /// open exchanges. The client's open QoS 2 messages count against the server's Receive
    /// Maximum.
    pub fn inherit(&mut self, source: &ClientSession)
        requires
            old(self).wf(),
            source.wf(),
        ensures
            final(self).wf(),
            final(self)@ == (SessionView {
                subscriptions: source@.subscriptions,
                in_flight: source@.in_flight,
                incoming_qos2: source@.incoming_qos2,
                outgoing_qos2: source@.outgoing_qos2,
                inbound_pending: old(self)@.inbound_pending.union(source@.incoming_qos2.dom()),
                ..old(self)@
            }),
    {
        self.subscriptions = clone_texts(&source.subscriptions);
        self.in_flight = clone_in_flight(&source.in_flight);
        self.outgoing_qos2 = clone_outgoing(&source.outgoing_qos2);
        self.incoming_qos2 = clone_incoming(&source.incoming_qos2);
        let ids = source.incoming_qos2.ids();
        let ghost before = self.inbound_receive_pending@.dom();
        let mut i: usize = 0;
        while i < ids.len()
            invariant
                i <= ids@.len(),
                self.inbound_receive_pending@.dom() == before.union(
                    Set::new(
                        |id: u16| exists|k: int| 0 <= k < i && #[trigger] ids@[k] == id,
                    ),
                ),
                self.client_id == old(self).client_id,
                self.username == old(self).username,
                self.clean_start == old(self).clean_start,
                self.allow_all_read == old(self).allow_all_read,
                self.allow_all_write == old(self).allow_all_write,
                self.keep_alive == old(self).keep_alive,
                self.receive_maximum == old(self).receive_maximum,
                self.maximum_packet_size == old(self).maximum_packet_size,
                self.topic_alias_maximum == old(self).topic_alias_maximum,
                self.session_expiry_interval == old(self).session_expiry_interval,
                self.connected == old(self).connected,
                self.topic_aliases == old(self).topic_aliases,
                self.published_messages == old(self).published_messages,
                self.next_packet_id == old(self).next_packet_id,
                self.next_outbound_order == old(self).next_outbound_order,
                self.outbound_active == old(self).outbound_active,
                self.disconnect_requested == old(self).disconnect_requested,
                self.wf(),
                self@.subscriptions == source@.subscriptions,
                self@.in_flight == source@.in_flight,
                self@.outgoing_qos2 == source@.outgoing_qos2,
                self@.incoming_qos2 == source@.incoming_qos2,
            decreases ids@.len() - i,
        {
            let ghost now = self.inbound_receive_pending@.dom();
            let ghost whole = *self;
            self.inbound_receive_pending.insert(ids[i], ());
            proof {
                let after = self.inbound_receive_pending@.dom();
                assert(after =~= now.insert(ids@[i as int]));
                let want = before.union(
                    Set::new(|id: u16| exists|k: int| 0 <= k < i + 1 && #[trigger] ids@[k] == id),
                );
                assert forall|id: u16| after.contains(id) == want.contains(id) by {
                    if id == ids@[i as int] {
                        assert(want.contains(id));
                    }
                }
                assert(after =~= want);
                assert(self@.subscriptions == whole@.subscriptions);
                assert(self@.in_flight =~= whole@.in_flight);
                assert(self@.outgoing_qos2 =~= whole@.outgoing_qos2);
                assert(self@.incoming_qos2 =~= whole@.incoming_qos2);
            }
            i = i + 1;
        }
        proof {
            let union = before.union(source@.incoming_qos2.dom());
            assert forall|id: u16|
                self.inbound_receive_pending@.dom().contains(id) == union.contains(id) by {
                assert(ids@.contains(id) == source.incoming_qos2@.contains_key(id));
                if ids@.contains(id) {
                    let k = choose|k: int| 0 <= k < ids@.len() && ids@[k] == id;
                    assert(ids@[k] == id);
                }
            }
            assert(self.inbound_receive_pending@.dom() =~= union);
        }
    }
}

/// A list without repetition has as many entries as it has texts.
proof fn lemma_text_set(list: Seq<String>)
    requires
        forall|i: int, j: int|
            0 <= i < j < list.len() ==> (#[trigger] list[i])@ != (#[trigger] list[j])@,
    ensures
        text_set(list).finite(),
        text_set(list).len() == list.len(),
    decreases list.len(),
{
    if list.len() == 0 {
        assert(text_set(list) =~= Set::empty());
    } else {
        let front = list.drop_last();
        lemma_text_set(front);
        assert forall|t: Seq<char>|
            text_set(list).contains(t) == (text_set(front).contains(t) || t == list.last()@) by {
            if text_set(front).contains(t) {
                let i = choose|i: int| 0 <= i < front.len() && (#[trigger] front[i])@ == t;
                assert(list[i]@ == t);
            }
            if t == list.last()@ {
                assert(list[list.len() - 1]@ == t);
            }
            if text_set(list).contains(t) && t != list.last()@ {
                let i = choose|i: int| 0 <= i < list.len() && (#[trigger] list[i])@ == t;
                assert(front[i]@ == t);
            }
        }
        assert(text_set(list) =~= text_set(front).insert(list.last()@));
        assert(!text_set(front).contains(list.last()@)) by {
            if text_set(front).contains(list.last()@) {
                let i = choose|i: int|
                    0 <= i < front.len() && (#[trigger] front[i])@ == list.last()@;
                assert(list[i]@ != list[list.len() - 1]@);
            }
        }
    }
}

/// Copies a list of texts.
fn clone_texts(list: &Vec<String>) -> (r: Vec<String>)
    ensures
        r@ == list@,
{
    let mut r: Vec<String> = Vec::new();
    let mut i: usize = 0;
    while i < list.len()
        invariant
            i <= list@.len(),
            r@ == list@.take(i as int),
        decreases list@.len() - i,
    {
        r.push(list[i].clone());
        assert(list@.take(i + 1) =~= list@.take(i as int).push(list@[i as int]));
        i = i + 1;
    }
    assert(list@.take(list@.len() as int) =~= list@);
    r
}

/// Copies QoS 1 messages.
fn clone_in_flight(table: &Slots<InFlightMessage>) -> (r: Slots<InFlightMessage>)
    ensures
        r@.dom() == table@.dom(),
        forall|id: u16| #[trigger]
            r@.contains_key(id) ==> r@[id]@ == table@[id]@ && r@[id].packet_id
                == table@[id].packet_id,
{
    let mut r: Slots<InFlightMessage> = Slots::new();
    let ids = table.ids();
    let mut i: usize = 0;
    while i < ids.len()
        invariant
            i <= ids@.len(),
            forall|k: int| 0 <= k < ids@.len() ==> table@.contains_key(#[trigger] ids@[k]),
            forall|id: u16| #[trigger]
                r@.contains_key(id) <==> exists|k: int| 0 <= k < i && #[trigger] ids@[k] == id,
            forall|id: u16| #[trigger]
                r@.contains_key(id) ==> r@[id]@ == table@[id]@ && r@[id].packet_id
                    == table@[id].packet_id,
        decreases ids@.len() - i,
    {
        if let Some(message) = table.get(ids[i]) {
            r.insert(ids[i], message.clone());
        }
        i = i + 1;
    }
    assert(r@.dom() =~= table@.dom()) by {
        assert forall|id: u16| r@.dom().contains(id) == table@.dom().contains(id) by {
            assert(ids@.contains(id) == table@.contains_key(id));
        }
    }
    r
}

/// Copies QoS 2 messages.
fn clone_outgoing(table: &Slots<OutgoingQos2Message>) -> (r: Slots<OutgoingQos2Message>)
    ensures
        r@.dom() == table@.dom(),
        forall|id: u16| #[trigger] r@.contains_key(id) ==> r@[id]@ == table@[id]@,
{
    let mut r: Slots<OutgoingQos2Message> = Slots::new();
    let ids = table.ids();
    let mut i: usize = 0;
    while i < ids.len()
        invariant
            i <= ids@.len(),
            forall|k: int| 0 <= k < ids@.len() ==> table@.contains_key(#[trigger] ids@[k]),
            forall|id: u16| #[trigger]
                r@.contains_key(id) <==> exists|k: int| 0 <= k < i && #[trigger] ids@[k] == id,
            forall|id: u16| #[trigger] r@.contains_key(id) ==> r@[id]@ == table@[id]@,
        decreases ids@.len() - i,
    {
        if let Some(message) = table.get(ids[i]) {
            r.insert(ids[i], message.clone());
        }
        i = i + 1;
    }
    assert(r@.dom() =~= table@.dom()) by {
        assert forall|id: u16| r@.dom().contains(id) == table@.dom().contains(id) by {
            assert(ids@.contains(id) == table@.contains_key(id));
        }
    }
    r
}

/// Copies QoS 2 messages of the client.
fn clone_incoming(table: &Slots<IncomingQos2Message>) -> (r: Slots<IncomingQos2Message>)
    ensures
        r@.dom() == table@.dom(),
        forall|id: u16| #[trigger] r@.contains_key(id) ==> r@[id]@ == table@[id]@,
{
    let mut r: Slots<IncomingQos2Message> = Slots::new();
    let ids = table.ids();
    let mut i: usize = 0;
    while i < ids.len()
        invariant
            i <= ids@.len(),
            forall|k: int| 0 <= k < ids@.len() ==> table@.contains_key(#[trigger] ids@[k]),
            forall|id: u16| #[trigger]
                r@.contains_key(id) <==> exists|k: int| 0 <= k < i && #[trigger] ids@[k] == id,
            forall|id: u16| #[trigger] r@.contains_key(id) ==> r@[id]@ == table@[id]@,
        decreases ids@.len() - i,
    {
        if let Some(message) = table.get(ids[i]) {
            r.insert(ids[i], message.clone());
        }
        i = i + 1;
    }
    assert(r@.dom() =~= table@.dom()) by {
        assert forall|id: u16| r@.dom().contains(id) == table@.dom().contains(id) by {
            assert(ids@.contains(id) == table@.contains_key(id));
        }
    }
    r
}

} // verus!
