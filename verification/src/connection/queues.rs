//! What happens when a queue takes a packet, or is full.

use vstd::prelude::*;
use crate::broker::model::BrokerView;
use crate::broker::publish::lemma_entry_inserted;
use crate::broker::state::BrokerState;
use crate::policy::{BridgeQueuePolicy, SlowConsumerPolicy};
use crate::session::client::ClientSession;
use crate::session::model::SessionView;

verus! {

/// The counters of the queues.
#[derive(Debug, Clone, Copy, PartialEq, Eq, Structural)]
pub struct QueueTallies {
    /// How often the queue of a client was full.
    pub client_backpressure_events: u64,
    /// For how long clients were waited for, in nanoseconds.
    pub client_backpressure_wait_ns: u64,
    /// How many clients were disconnected because they did not keep up.
    pub slow_consumer_disconnects: u64,
    /// How often the queue of the bridge was full.
    pub bridge_backpressure_events: u64,
    /// For how long the bridge was waited for, in nanoseconds.
    pub bridge_backpressure_wait_ns: u64,
    /// How many messages for the bridge were dropped.
    pub bridge_dropped: u64,
}

/// What a queue says to a packet.
#[derive(Debug, Clone, Copy, PartialEq, Eq, Structural)]
pub enum Offer {
    /// It took it.
    Taken,
    /// It is full.
    Full,
    /// Nobody reads it any more.
    Closed,
}

/// How a wait for a full queue ended.
#[derive(Debug, Clone, Copy, PartialEq, Eq, Structural)]
pub enum WaitEnd {
    /// The queue took the packet.
    Taken,
    /// Nobody reads the queue any more.
    Closed,
    /// It took too long.
    TimedOut,
}

/// What is done after a packet was offered to a queue.
#[derive(Debug, Clone, Copy, PartialEq, Eq, Structural)]
pub enum SendStep {
    /// Nothing; whether the packet is on its way.
    Done(bool),
    /// The sender waits for room, for as long as it takes, or for so many milliseconds.
    Wait(Option<u64>),
}

/// Whether a client takes a packet of this length at all.
pub fn fits(length: usize, maximum_packet_size: u32) -> (r: bool)
    ensures
        r == (length <= maximum_packet_size),
{
    length <= maximum_packet_size as usize
}

impl QueueTallies {
    /// Nothing happened yet.
    pub fn new() -> (r: Self)
        ensures
            r == QueueTallies::none(),
    {
        QueueTallies {
            client_backpressure_events: 0,
            client_backpressure_wait_ns: 0,
            slow_consumer_disconnects: 0,
            bridge_backpressure_events: 0,
            bridge_backpressure_wait_ns: 0,
            bridge_dropped: 0,
        }
    }

    /// Nothing happened yet.
    pub open spec fn none() -> QueueTallies {
        QueueTallies {
            client_backpressure_events: 0,
            client_backpressure_wait_ns: 0,
            slow_consumer_disconnects: 0,
            bridge_backpressure_events: 0,
            bridge_backpressure_wait_ns: 0,
            bridge_dropped: 0,
        }
    }

    /// A packet was offered to the queue of a client: a client that does not keep up is waited
    /// for, by policy for a limited time only.
    pub fn client_offered(
        &mut self,
        offer: Offer,
        policy: SlowConsumerPolicy,
        timeout_ms: u64,
    ) -> (step: SendStep)
        ensures
            match offer {
                Offer::Taken => step == SendStep::Done(true) && *final(self) == *old(self),
                Offer::Closed => step == SendStep::Done(false) && *final(self) == *old(self),
                Offer::Full => step == SendStep::Wait(
                    match policy {
                        SlowConsumerPolicy::Backpressure => None,
                        SlowConsumerPolicy::Disconnect => Some(timeout_ms),
                    },
                ) && *final(self) == (QueueTallies {
                    client_backpressure_events: old(self).client_backpressure_events.wrapping_add(1),
                    ..*old(self)
                }),
            },
    {
        match offer {
            Offer::Taken => SendStep::Done(true),
            Offer::Closed => SendStep::Done(false),
            Offer::Full => {
                self.client_backpressure_events = self.client_backpressure_events.wrapping_add(1);
                match policy {
                    SlowConsumerPolicy::Backpressure => SendStep::Wait(None),
                    SlowConsumerPolicy::Disconnect => SendStep::Wait(Some(timeout_ms)),
                }
            },
        }
    }

    /// A wait for the queue of a client ended: a client that was waited for too long is to be
    /// disconnected. Returns whether the packet is on its way.
    pub fn client_waited(&mut self, session: &mut ClientSession, end: WaitEnd, waited_ns: u64) -> (r:
        bool)
        requires
            old(session).wf(),
        ensures
            final(session).wf(),
            r == (end is Taken),
            final(session)@ == if end is TimedOut {
                SessionView { disconnect_requested: true, ..old(session)@ }
            } else {
                old(session)@
            },
            *final(self) == (QueueTallies {
                client_backpressure_wait_ns: old(self).client_backpressure_wait_ns.wrapping_add(
                    waited_ns,
                ),
                slow_consumer_disconnects: if end is TimedOut
                    && !old(session)@.disconnect_requested {
                    old(self).slow_consumer_disconnects.wrapping_add(1)
                } else {
                    old(self).slow_consumer_disconnects
                },
                ..*old(self)
            }),
    {
        self.client_backpressure_wait_ns = self.client_backpressure_wait_ns.wrapping_add(waited_ns);
        match end {
            WaitEnd::Taken => true,
            WaitEnd::Closed => false,
            WaitEnd::TimedOut => {
                if session.request_disconnect() {
                    self.slow_consumer_disconnects = self.slow_consumer_disconnects.wrapping_add(1);
                }
                false
            },
        }
    }

    /// A message was offered to the queue of the bridge: when it is full, the message is dropped
    /// or the sender waits, by policy.
    pub fn bridge_offered(&mut self, offer: Offer, policy: BridgeQueuePolicy) -> (step: SendStep)
        ensures
            match offer {
                Offer::Taken => step == SendStep::Done(true) && *final(self) == *old(self),
                Offer::Closed => step == SendStep::Done(false) && *final(self) == *old(self),
                Offer::Full => ({
                    let counted = QueueTallies {
                        bridge_backpressure_events: old(self).bridge_backpressure_events.wrapping_add(1),
                        ..*old(self)
                    };
                    match policy {
                        BridgeQueuePolicy::Backpressure => step == SendStep::Wait(None)
                            && *final(self) == counted,
                        BridgeQueuePolicy::DropNewest => step == SendStep::Done(false)
                            && *final(self) == (QueueTallies {
                            bridge_dropped: old(self).bridge_dropped.wrapping_add(1),
                            ..counted
                        }),
                    }
                }),
            },
    {
        match offer {
            Offer::Taken => SendStep::Done(true),
            Offer::Closed => SendStep::Done(false),
            Offer::Full => {
                self.bridge_backpressure_events = self.bridge_backpressure_events.wrapping_add(1);
                match policy {
                    BridgeQueuePolicy::Backpressure => SendStep::Wait(None),
                    BridgeQueuePolicy::DropNewest => {
                        self.bridge_dropped = self.bridge_dropped.wrapping_add(1);
                        SendStep::Done(false)
                    },
                }
            },
        }
    }

    /// A wait for the queue of the bridge ended.
    pub fn bridge_waited(&mut self, waited_ns: u64)
        ensures
            *final(self) == (QueueTallies {
                bridge_backpressure_wait_ns: old(self).bridge_backpressure_wait_ns.wrapping_add(
                    waited_ns,
                ),
                ..*old(self)
            }),
    {
        self.bridge_backpressure_wait_ns = self.bridge_backpressure_wait_ns.wrapping_add(waited_ns);
    }
}

impl BrokerView {
    /// Whether a client has this connection now.
    pub open spec fn has_connection(self, client: Seq<char>, connection: u64) -> bool {
        self.sessions.contains_key(client) && self.sessions[client].connection == connection
    }

    /// Whether a wait for a connection that took too long counts: for the current connection of a
    /// client until it is to be disconnected, and for one that was taken over until it is closed.
    pub open spec fn late_wait_counts(self, client: Seq<char>, connection: u64) -> bool {
        if self.has_connection(client, connection) {
            !self.sessions[client].session.disconnect_requested
        } else {
            self.displaced.contains(connection)
        }
    }

    /// The state once such a wait has counted.
    pub open spec fn late_wait_counted(self, client: Seq<char>, connection: u64) -> BrokerView {
        if self.has_connection(client, connection) {
            self.with_session(
                client,
                SessionView { disconnect_requested: true, ..self.sessions[client].session },
            )
        } else {
            BrokerView { displaced: self.displaced.remove(connection), ..self }
        }
    }
}

/// Of the waits for a connection that took too long, no more than one counts.
pub proof fn law_late_wait_counts_once(broker: BrokerView, client: Seq<char>, connection: u64)
    requires
        broker.late_wait_counts(client, connection),
    ensures
        !broker.late_wait_counted(client, connection).late_wait_counts(client, connection),
{
}

/// The list without a number.
proof fn lemma_without(list: Seq<u64>, i: int, n: u64)
    requires
        0 <= i < list.len(),
        list[i] == n,
    ensures
        forall|x: u64| #[trigger]
            list.contains(x) <==> list.remove(i).contains(x) || x == n,
{
    let rest = list.remove(i);
    assert forall|x: u64| #[trigger] list.contains(x) <==> rest.contains(x) || x == n by {
        if list.contains(x) && x != n {
            let k = choose|k: int| 0 <= k < list.len() && list[k] == x;
            if k < i {
                assert(rest[k] == x);
            } else {
                assert(rest[k - 1] == x);
            }
        }
        if rest.contains(x) {
            let k = choose|k: int| 0 <= k < rest.len() && rest[k] == x;
            if k < i {
                assert(list[k] == x);
            } else {
                assert(list[k + 1] == x);
            }
        }
        if x == n {
            assert(list[i] == x);
        }
    }
}

impl BrokerState {
    /// Forgets a connection that was taken over: whether it was remembered.
    fn forget_displaced(&mut self, connection: u64) -> (found: bool)
        requires
            old(self).wf(),
        ensures
            final(self).wf(),
            found == old(self)@.displaced.contains(connection),
            final(self)@ == (BrokerView {
                displaced: old(self)@.displaced.remove(connection),
                ..old(self)@
            }),
    {
        let ghost was = self.displaced@;
        let mut found = false;
        let mut i: usize = 0;
        while i < self.displaced.len()
            invariant
                i <= self.displaced@.len(),
                *self == (BrokerState { displaced: self.displaced, ..*old(self) }),
                was == old(self).displaced@,
                forall|x: u64| x != connection ==> (#[trigger] was.contains(x)
                    <==> self.displaced@.contains(x)),
                forall|k: int| 0 <= k < i ==> #[trigger] self.displaced@[k] != connection,
                was.contains(connection) <==> found || self.displaced@.contains(connection),
            decreases self.displaced@.len() - i,
        {
            if self.displaced[i] == connection {
                let ghost before = self.displaced@;
                self.displaced.remove(i);
                found = true;
                proof {
                    lemma_without(before, i as int, connection);
                    assert(was.contains(connection)) by {
                        assert(before.contains(connection));
                    }
                    assert forall|x: u64| x != connection implies (#[trigger] was.contains(x)
                        <==> self.displaced@.contains(x)) by {
                        assert(was.contains(x) <==> before.contains(x));
                    }
                }
            } else {
                i = i + 1;
            }
        }
        proof {
            assert(!self.displaced@.contains(connection));
            assert(self@.displaced =~= old(self)@.displaced.remove(connection)) by {
                assert forall|x: u64| self.displaced@.to_set().contains(x)
                    == was.to_set().remove(connection).contains(x) by {
                    assert(was.contains(x) == was.to_set().contains(x));
                    assert(self.displaced@.contains(x) == self.displaced@.to_set().contains(x));
                }
            }
        }
        found
    }

    /// A connection that was taken over is closed.
    pub fn displaced_closed(&mut self, connection: u64)
        requires
            old(self).wf(),
        ensures
            final(self).wf(),
            final(self)@ == (BrokerView {
                displaced: old(self)@.displaced.remove(connection),
                ..old(self)@
            }),
    {
        let _ = self.forget_displaced(connection);
    }

    /// A wait for the queue of a connection ended: whether the packet is on its way. A wait that
    /// took too long counts once for a connection: for the current one of a client, which is then
    /// to be disconnected, and for one that was taken over and is not closed yet.
    pub fn wait_ended(
        &mut self,
        client_id: &str,
        connection: u64,
        tallies: &mut QueueTallies,
        end: WaitEnd,
        waited_ns: u64,
    ) -> (r: bool)
        requires
            old(self).wf(),
        ensures
            final(self).wf(),
            r == (end is Taken),
            ({
                let b = old(self)@;
                let counts = end is TimedOut && b.late_wait_counts(client_id@, connection);
                final(self)@ == (if counts {
                    b.late_wait_counted(client_id@, connection)
                } else {
                    b
                }) && *final(tallies) == (QueueTallies {
                    client_backpressure_wait_ns: old(tallies).client_backpressure_wait_ns
                        .wrapping_add(waited_ns),
                    slow_consumer_disconnects: if counts {
                        old(tallies).slow_consumer_disconnects.wrapping_add(1)
                    } else {
                        old(tallies).slow_consumer_disconnects
                    },
                    ..*old(tallies)
                })
            }),
    {
        let current = match self.connection_of(client_id) {
            Some(n) => n == connection,
            None => false,
        };
        let ghost start = self@;
        if !current {
            tallies.client_backpressure_wait_ns = tallies.client_backpressure_wait_ns.wrapping_add(
                waited_ns,
            );
            return match end {
                WaitEnd::Taken => true,
                WaitEnd::Closed => false,
                WaitEnd::TimedOut => {
                    if self.forget_displaced(connection) {
                        tallies.slow_consumer_disconnects =
                        tallies.slow_consumer_disconnects.wrapping_add(1);
                    } else {
                        assert(self@.displaced =~= start.displaced);
                    }
                    false
                },
            };
        }
        let ghost was = self.sessions@;
        match self.sessions.remove(client_id) {
            Some(entry) => {
                let mut entry = entry;
                let r = tallies.client_waited(&mut entry.session, end, waited_ns);
                proof {
                    lemma_entry_inserted(was, client_id@, entry);
                }
                self.sessions.insert(client_id.to_owned(), entry);
                assert(self@.sessions =~= start.with_session(
                    client_id@,
                    entry.session@,
                ).sessions);
                assert(start.with_session(
                    client_id@,
                    start.sessions[client_id@].session,
                ).sessions =~= start.sessions);
                r
            },
            None => false,
        }
    }
}

} // verus!
