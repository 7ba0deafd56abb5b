//! The mathematical model of a session.

use vstd::prelude::*;
use crate::codec::packet::PacketView;
use crate::codec::property;
use crate::message::ApplicationView;

verus! {

/// A message on its way to a client.
#[verifier::ext_equal]
pub struct MessageView {
    /// The topic.
    pub topic: Seq<char>,
    /// The payload.
    pub payload: Seq<u8>,
    /// The retain flag.
    pub retain: bool,
    /// The identifier of the subscription that matched.
    pub subscription_identifier: Option<u32>,
    /// The properties.
    pub properties: ApplicationView,
}

/// A message that waits for its acknowledgement.
#[verifier::ext_equal]
pub struct OutView {
    /// The message.
    pub message: MessageView,
    /// The quality of service.
    pub qos: u8,
    /// Its place in the order of queueing.
    pub order: u64,
    /// Whether it has been sent.
    pub started: bool,
    /// Whether the receiver has it and only the end of the exchange is missing (QoS 2).
    pub completing: bool,
}

/// A QoS 2 message from a client that is not released yet.
#[verifier::ext_equal]
pub struct InboundView {
    /// The topic.
    pub topic: Seq<char>,
    /// The payload.
    pub payload: Seq<u8>,
    /// The retain flag.
    pub retain: bool,
    /// The properties.
    pub properties: ApplicationView,
}

/// The state of a session.
#[verifier::ext_equal]
pub struct SessionView {
    /// The client identifier.
    pub client: Seq<char>,
    /// The user's name.
    pub username: Option<Seq<char>>,
    /// Whether an earlier session was discarded.
    pub clean_start: bool,
    /// Whether every topic may be read.
    pub allow_all_read: bool,
    /// Whether every topic may be written.
    pub allow_all_write: bool,
    /// The longest silence of the client, in seconds.
    pub keep_alive: u16,
    /// How many unacknowledged messages the client accepts at a time.
    pub receive_maximum: u16,
    /// The largest packet the client accepts.
    pub maximum_packet_size: u32,
    /// The largest topic alias the client may use.
    pub topic_alias_maximum: u16,
    /// How long the session outlives its connection, in seconds.
    pub expiry: u32,
    /// Whether the client is connected.
    pub connected: bool,
    /// The topic of each alias that the client established.
    pub aliases: Map<u16, Seq<char>>,
    /// The topic filters the client has subscribed to.
    pub subscriptions: Set<Seq<char>>,
    /// How many messages the client has published.
    pub published: u64,
    /// The packet identifier that is tried next.
    pub next_packet_id: u16,
    /// The place that the next queued message gets.
    pub next_order: u64,
    /// QoS 1 messages that wait for PUBACK.
    pub in_flight: Map<u16, OutView>,
    /// QoS 2 messages that wait for PUBREC or PUBCOMP.
    pub outgoing_qos2: Map<u16, OutView>,
    /// QoS 2 messages that wait for PUBREL.
    pub incoming_qos2: Map<u16, InboundView>,
    /// Packet identifiers of the client that count against the server's Receive Maximum.
    pub inbound_pending: Set<u16>,
    /// Packet identifiers that count against the client's Receive Maximum.
    pub outbound_active: Set<u16>,
    /// Whether the connection is to be closed.
    pub disconnect_requested: bool,
}

/// What a session asks its surroundings to do.
#[verifier::ext_equal]
pub enum EffectView {
    /// Send a packet.
    Send(Seq<u8>),
    /// Send a packet, and free a place of the server's Receive Maximum once it is written.
    SendAndRelease(Seq<u8>, u16),
    /// Store a QoS 1 message.
    SaveInFlight(u16, OutView),
    /// Forget a QoS 1 message.
    DeleteInFlight(u16),
    /// Store a QoS 2 message.
    SaveOutgoing(u16, OutView),
    /// Forget a QoS 2 message.
    DeleteOutgoing(u16),
    /// Store a QoS 2 message of the client.
    SaveIncoming(u16, InboundView),
    /// Forget a QoS 2 message of the client.
    DeleteIncoming(u16),
}

/// The PUBLISH that carries a message.
pub open spec fn publish_packet(
    dup: bool,
    qos: u8,
    packet_id: Option<u16>,
    m: MessageView,
    now_ms: u64,
) -> PacketView {
    PacketView::Publish {
        dup,
        qos,
        retain: m.retain,
        topic: m.topic,
        packet_id,
        properties: m.properties.publish_properties(m.subscription_identifier, now_ms),
        payload: m.payload,
    }
}

/// An acknowledgement without properties.
pub open spec fn ack_packet(packet_type: u8, packet_id: u16, reason_code: u8) -> PacketView {
    PacketView::Ack {
        packet_type,
        packet_id,
        reason_code,
        properties: property::meaning(Seq::empty()),
    }
}

/// The first packet identifier from `next` on that is not in use, where `tries` of them are
/// looked at, and the one to try next; 0, which is no identifier, where all of them are in use.
pub open spec fn allocate(used: Set<u16>, next: u16, tries: nat) -> (u16, u16)
    decreases tries,
{
    if tries == 0 {
        (0u16, next)
    } else {
        let id: u16 = if next == 0 {
            1
        } else {
            next
        };
        let after: u16 = if id == 65535 {
            0
        } else {
            (id + 1) as u16
        };
        if used.contains(id) {
            allocate(used, after, (tries - 1) as nat)
        } else {
            (id, after)
        }
    }
}

impl SessionView {
    /// The packet identifiers of exchanges that are not complete.
    pub open spec fn used(self) -> Set<u16> {
        self.in_flight.dom().union(self.outgoing_qos2.dom())
    }

    /// The outcome of queueing a message for the client: the session after it, and what is to be
    /// done.
    pub open spec fn enqueue(self, m: MessageView, qos: u8, now_ms: u64) -> (
        SessionView,
        Seq<EffectView>,
    ) {
        let preview = publish_packet(
            false,
            qos,
            if qos > 0 {
                Some(1u16)
            } else {
                None
            },
            m,
            now_ms,
        ).bytes();
        if m.properties.expired(now_ms) {
            (self, Seq::empty())
        } else if self.connected && preview.len() > self.maximum_packet_size {
            (self, Seq::empty())
        } else if qos == 0 {
            (
                self,
                if self.connected {
                    seq![EffectView::Send(preview)]
                } else {
                    Seq::empty()
                },
            )
        } else {
            self.enqueue_tracked(m, qos, now_ms)
        }
    }

    /// The outcome of queueing a message whose delivery is acknowledged. It is sent at once where
    /// the client is connected and its Receive Maximum has room, and kept otherwise.
    pub open spec fn enqueue_tracked(self, m: MessageView, qos: u8, now_ms: u64) -> (
        SessionView,
        Seq<EffectView>,
    ) {
        let (id, next) = allocate(self.used(), self.next_packet_id, 65535);
        if id == 0 {
            (SessionView { next_packet_id: next, ..self }, Seq::empty())
        } else {
            let start = self.connected && self.outbound_active.len() < self.receive_maximum;
            let out = OutView {
                message: m,
                qos: if qos == 1 {
                    1
                } else {
                    2
                },
                order: self.next_order,
                started: start,
                completing: false,
            };
            (
                SessionView {
                    next_packet_id: next,
                    next_order: self.next_order.wrapping_add(1),
                    outbound_active: if start {
                        self.outbound_active.insert(id)
                    } else {
                        self.outbound_active
                    },
                    in_flight: if qos == 1 {
                        self.in_flight.insert(id, out)
                    } else {
                        self.in_flight
                    },
                    outgoing_qos2: if qos == 1 {
                        self.outgoing_qos2
                    } else {
                        self.outgoing_qos2.insert(id, out)
                    },
                    ..self
                },
                (if self.expiry > 0 {
                    seq![
                        if qos == 1 {
                            EffectView::SaveInFlight(id, out)
                        } else {
                            EffectView::SaveOutgoing(id, out)
                        },
                    ]
                } else {
                    Seq::empty()
                }) + (if start {
                    seq![
                        EffectView::Send(publish_packet(false, qos, Some(id), m, now_ms).bytes()),
                    ]
                } else {
                    Seq::empty()
                }),
            )
        }
    }

    /// Whether a QoS 1 message waits to be sent on this connection.
    pub open spec fn waits1(self, id: u16) -> bool {
        self.in_flight.contains_key(id) && !self.outbound_active.contains(id)
    }

    /// Whether a QoS 2 message waits to be sent on this connection.
    pub open spec fn waits2(self, id: u16) -> bool {
        self.outgoing_qos2.contains_key(id) && !self.outgoing_qos2[id].completing
            && !self.outbound_active.contains(id)
    }

    /// The QoS 1 message that waits first: the least in the order of queueing.
    pub open spec fn first1(self, id: u16) -> bool {
        self.waits1(id) && forall|k: u16| #[trigger]
            self.waits1(k) ==> comes_first(self.in_flight[id].order, id, self.in_flight[k].order, k)
    }

    /// The QoS 2 message that waits first.
    pub open spec fn first2(self, id: u16) -> bool {
        self.waits2(id) && forall|k: u16| #[trigger]
            self.waits2(k) ==> comes_first(
                self.outgoing_qos2[id].order,
                id,
                self.outgoing_qos2[k].order,
                k,
            )
    }

    /// The next message to send: its quality of service and its packet identifier.
    pub open spec fn next_waiting(self) -> Option<(u8, u16)> {
        let one = exists|id: u16| self.waits1(id);
        let two = exists|id: u16| self.waits2(id);
        let id1 = choose|id: u16| self.first1(id);
        let id2 = choose|id: u16| self.first2(id);
        if one && two {
            if self.in_flight[id1].order <= self.outgoing_qos2[id2].order {
                Some((1u8, id1))
            } else {
                Some((2u8, id2))
            }
        } else if one {
            Some((1u8, id1))
        } else if two {
            Some((2u8, id2))
        } else {
            None
        }
    }

    /// Whether another message may be sent: the client is connected, its Receive Maximum has
    /// room, and a message waits.
    pub open spec fn may_send(self) -> bool {
        self.connected && self.outbound_active.len() < self.receive_maximum && self.next_waiting()
            is Some
    }

    /// The session after the next message is taken up, and what is to be done: a message that
    /// expired before it was ever sent, or that is too large for the client, is dropped; any
    /// other is sent and occupies a place of the Receive Maximum.
    pub open spec fn send_next(self, now_ms: u64) -> (SessionView, Seq<EffectView>) {
        let (qos, id) = self.next_waiting()->0;
        let out = if qos == 1 {
            self.in_flight[id]
        } else {
            self.outgoing_qos2[id]
        };
        let bytes = publish_packet(out.started, qos, Some(id), out.message, now_ms).bytes();
        if (out.message.properties.expired(now_ms) && !out.started) || bytes.len()
            > self.maximum_packet_size {
            if qos == 1 {
                (
                    SessionView { in_flight: self.in_flight.remove(id), ..self },
                    seq![EffectView::DeleteInFlight(id)],
                )
            } else {
                (
                    SessionView { outgoing_qos2: self.outgoing_qos2.remove(id), ..self },
                    seq![EffectView::DeleteOutgoing(id)],
                )
            }
        } else {
            let sent = OutView { started: true, ..out };
            let save = !out.started && self.expiry > 0;
            if qos == 1 {
                (
                    SessionView {
                        in_flight: self.in_flight.insert(id, sent),
                        outbound_active: self.outbound_active.insert(id),
                        ..self
                    },
                    (if save {
                        seq![EffectView::SaveInFlight(id, sent)]
                    } else {
                        Seq::empty()
                    }).push(EffectView::Send(bytes)),
                )
            } else {
                (
                    SessionView {
                        outgoing_qos2: self.outgoing_qos2.insert(id, sent),
                        outbound_active: self.outbound_active.insert(id),
                        ..self
                    },
                    (if save {
                        seq![EffectView::SaveOutgoing(id, sent)]
                    } else {
                        Seq::empty()
                    }).push(EffectView::Send(bytes)),
                )
            }
        }
    }

    /// The session after at most `n` waiting messages are taken up, one after the other.
    pub open spec fn drain(self, now_ms: u64, n: nat) -> (SessionView, Seq<EffectView>)
        decreases n,
    {
        if n == 0 || !self.may_send() {
            (self, Seq::empty())
        } else {
            let (next, effects) = self.send_next(now_ms);
            let (last, more) = next.drain(now_ms, (n - 1) as nat);
            (last, effects + more)
        }
    }

    /// The session after all waiting messages are taken up for which there is room.
    pub open spec fn drained(self, now_ms: u64) -> (SessionView, Seq<EffectView>) {
        self.drain(now_ms, self.in_flight.dom().len() + self.outgoing_qos2.dom().len())
    }

    /// The session after the client acknowledged a QoS 1 message.
    pub open spec fn on_puback(self, id: u16, now_ms: u64) -> (SessionView, Seq<EffectView>) {
        let freed = SessionView {
            in_flight: self.in_flight.remove(id),
            outbound_active: self.outbound_active.remove(id),
            ..self
        };
        let (last, more) = freed.drained(now_ms);
        (last, seq![EffectView::DeleteInFlight(id)] + more)
    }

    /// The session after the client has received a QoS 2 message, or refused it.
    pub open spec fn on_pubrec(self, id: u16, reason_code: u8, now_ms: u64) -> (
        SessionView,
        Seq<EffectView>,
    ) {
        if !self.outgoing_qos2.contains_key(id) {
            (self, Seq::empty())
        } else if reason_code >= 0x80 {
            let freed = SessionView {
                outgoing_qos2: self.outgoing_qos2.remove(id),
                outbound_active: self.outbound_active.remove(id),
                ..self
            };
            let (last, more) = freed.drained(now_ms);
            (last, seq![EffectView::DeleteOutgoing(id)] + more)
        } else {
            let out = OutView { completing: true, started: true, ..self.outgoing_qos2[id] };
            (
                SessionView { outgoing_qos2: self.outgoing_qos2.insert(id, out), ..self },
                (if self.expiry > 0 {
                    seq![EffectView::SaveOutgoing(id, out)]
                } else {
                    Seq::empty()
                }).push(EffectView::Send(ack_packet(6, id, 0).bytes())),
            )
        }
    }

    /// The session after a QoS 2 exchange is complete.
    pub open spec fn on_pubcomp(self, id: u16, now_ms: u64) -> (SessionView, Seq<EffectView>) {
        let freed = SessionView {
            outgoing_qos2: self.outgoing_qos2.remove(id),
            outbound_active: self.outbound_active.remove(id),
            ..self
        };
        if self.outgoing_qos2.contains_key(id) {
            let (last, more) = freed.drained(now_ms);
            (last, seq![EffectView::DeleteOutgoing(id)] + more)
        } else {
            (freed, Seq::empty())
        }
    }

    /// The packet identifiers of QoS 2 exchanges of which only the end is missing.
    pub open spec fn completing(self) -> Set<u16> {
        Set::new(|id: u16| self.outgoing_qos2.contains_key(id) && self.outgoing_qos2[id].completing)
    }

    /// The session at the start of a new connection: only exchanges of which the end is missing
    /// occupy the Receive Maximum.
    pub open spec fn window_reset(self) -> SessionView {
        SessionView { outbound_active: self.completing(), ..self }
    }
}

/// Whether a message with the first order and identifier is sent before one with the second.
pub open spec fn comes_first(order: u64, id: u16, other_order: u64, other: u16) -> bool {
    order < other_order || (order == other_order && id <= other)
}

} // verus!
