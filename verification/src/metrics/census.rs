//! What the sessions come to.

use vstd::prelude::*;
use crate::broker::model::EntryView;
use crate::broker::state::BrokerState;
use crate::registry;
use crate::session::client::ClientSession;
use crate::session::model::SessionView;

verus! {

/// What is counted of a session.
pub enum Trait {
    /// Whether it is connected.
    Connected,
    /// Its subscriptions.
    Subscriptions,
    /// The messages it has published.
    Published,
    /// The QoS 2 messages that wait for PUBREL.
    Incoming,
    /// The QoS 2 messages that wait for PUBREC or PUBCOMP.
    Outgoing,
    /// Whether it outlives its connection.
    Persistent,
    /// Whether it outlived its connection.
    Offline,
}

/// One if something holds.
pub open spec fn one_if(b: bool) -> nat {
    if b {
        1
    } else {
        0
    }
}

/// What a session counts for.
pub open spec fn weight(s: SessionView, what: Trait) -> nat {
    match what {
        Trait::Connected => one_if(s.connected),
        Trait::Subscriptions => s.subscriptions.len(),
        Trait::Published => s.published as nat,
        Trait::Incoming => s.incoming_qos2.dom().len(),
        Trait::Outgoing => s.outgoing_qos2.dom().len(),
        Trait::Persistent => one_if(s.expiry > 0),
        Trait::Offline => one_if(s.expiry > 0 && !s.connected),
    }
}

/// What the sessions of some clients count for together.
pub open spec fn total(
    sessions: Map<Seq<char>, EntryView>,
    clients: Set<Seq<char>>,
    what: Trait,
) -> nat
    decreases clients.len(),
    when clients.finite()
{
    if clients.len() == 0 {
        0
    } else {
        let c = clients.choose();
        weight(sessions[c].session, what) + total(sessions, clients.remove(c), what)
    }
}

/// A client may be counted first.
pub proof fn lemma_total_remove(
    sessions: Map<Seq<char>, EntryView>,
    clients: Set<Seq<char>>,
    what: Trait,
    c: Seq<char>,
)
    requires
        clients.finite(),
        clients.contains(c),
    ensures
        total(sessions, clients, what) == weight(sessions[c].session, what) + total(
            sessions,
            clients.remove(c),
            what,
        ),
    decreases clients.len(),
{
    let first = clients.choose();
    if first != c {
        lemma_total_remove(sessions, clients.remove(first), what, c);
        lemma_total_remove(sessions, clients.remove(c), what, first);
        assert(clients.remove(first).remove(c) =~= clients.remove(c).remove(first));
    }
}

/// A number, or the largest there is where it is larger.
pub open spec fn capped(n: nat) -> u64 {
    if n <= u64::MAX {
        n as u64
    } else {
        u64::MAX
    }
}

/// What the sessions come to.
#[derive(Debug, Clone, Copy, PartialEq, Eq, Structural)]
pub struct Census {
    /// How many clients are connected.
    pub active_connections: u64,
    /// How many subscriptions there are.
    pub current_subscriptions: u64,
    /// How many messages were published.
    pub published: u64,
    /// How many QoS 2 messages wait for PUBREL.
    pub qos2_incoming: u64,
    /// How many QoS 2 messages wait for PUBREC or PUBCOMP.
    pub qos2_outgoing: u64,
    /// How many sessions outlive their connection.
    pub persistent: u64,
    /// How many sessions outlived their connection.
    pub offline: u64,
}

/// The census of some clients.
pub open spec fn census_of(
    sessions: Map<Seq<char>, EntryView>,
    clients: Set<Seq<char>>,
) -> Census {
    Census {
        active_connections: capped(total(sessions, clients, Trait::Connected)),
        current_subscriptions: capped(total(sessions, clients, Trait::Subscriptions)),
        published: capped(total(sessions, clients, Trait::Published)),
        qos2_incoming: capped(total(sessions, clients, Trait::Incoming)),
        qos2_outgoing: capped(total(sessions, clients, Trait::Outgoing)),
        persistent: capped(total(sessions, clients, Trait::Persistent)),
        offline: capped(total(sessions, clients, Trait::Offline)),
    }
}

/// The sum of two numbers, or the largest there is.
fn plus(a: u64, b: u64) -> (r: u64)
    ensures
        r == capped((a + b) as nat),
{
    if a <= u64::MAX - b {
        a + b
    } else {
        u64::MAX
    }
}

/// One if something holds.
fn flag(b: bool) -> (r: u64)
    ensures
        r == one_if(b),
{
    if b {
        1
    } else {
        0
    }
}

impl Census {
    /// Adds a session.
    fn add_session(&mut self, s: &ClientSession)
        requires
            s.wf(),
        ensures
            final(self).active_connections == capped(
                old(self).active_connections as nat + weight(s@, Trait::Connected),
            ),
            final(self).current_subscriptions == capped(
                old(self).current_subscriptions as nat + weight(s@, Trait::Subscriptions),
            ),
            final(self).published == capped(
                old(self).published as nat + weight(s@, Trait::Published),
            ),
            final(self).qos2_incoming == capped(
                old(self).qos2_incoming as nat + weight(s@, Trait::Incoming),
            ),
            final(self).qos2_outgoing == capped(
                old(self).qos2_outgoing as nat + weight(s@, Trait::Outgoing),
            ),
            final(self).persistent == capped(
                old(self).persistent as nat + weight(s@, Trait::Persistent),
            ),
            final(self).offline == capped(old(self).offline as nat + weight(s@, Trait::Offline)),
    {
        self.active_connections = plus(self.active_connections, flag(s.connected));
        self.current_subscriptions = plus(
            self.current_subscriptions,
            s.subscription_count() as u64,
        );
        self.published = plus(self.published, s.published_messages);
        assert(s@.incoming_qos2.dom() =~= s.incoming_qos2@.dom());
        assert(s@.outgoing_qos2.dom() =~= s.outgoing_qos2@.dom());
        self.qos2_incoming = plus(self.qos2_incoming, s.incoming_qos2.len() as u64);
        self.qos2_outgoing = plus(self.qos2_outgoing, s.outgoing_qos2.len() as u64);
        self.persistent = plus(self.persistent, flag(s.session_expiry() > 0));
        self.offline = plus(self.offline, flag(s.session_expiry() > 0 && !s.connected));
    }
}

/// The sum of two sums, each as large as it may be.
proof fn lemma_capped(a: nat, b: nat)
    ensures
        capped(capped(a) as nat + b) == capped(a + b),
{
}

impl BrokerState {
    /// What the sessions come to.
    pub fn census(&self) -> (r: Census)
        requires
            self.wf(),
        ensures
            r == census_of(self@.sessions, self@.sessions.dom()),
    {
        let names = self.sessions.keys();
        let mut r = Census {
            active_connections: 0,
            current_subscriptions: 0,
            published: 0,
            qos2_incoming: 0,
            qos2_outgoing: 0,
            persistent: 0,
            offline: 0,
        };
        let ghost order = registry::names_view(names@);
        let ghost entries = self@.sessions;
        let mut i: usize = 0;
        assert(order.take(0).to_set() =~= Set::empty());
        while i < names.len()
            invariant
                i <= names@.len(),
                self.wf(),
                entries == self@.sessions,
                order == registry::names_view(names@),
                order.no_duplicates(),
                order.to_set() == self.sessions@.dom(),
                order.take(i as int).to_set().finite(),
                r == census_of(entries, order.take(i as int).to_set()),
            decreases names@.len() - i,
        {
            let ghost done = order.take(i as int).to_set();
            let ghost next = order.take(i + 1).to_set();
            let ghost c = order[i as int];
            proof {
                assert(order.contains(c));
                assert(self.sessions@.dom().contains(c));
                assert(order.take(i + 1) =~= order.take(i as int).push(c));
                let front = order.take(i as int);
                let more = order.take(i + 1);
                assert forall|x: Seq<char>| next.contains(x) <==> done.insert(c).contains(x) by {
                    if done.contains(x) {
                        let k = choose|k: int| 0 <= k < front.len() && front[k] == x;
                        assert(more[k] == x);
                    }
                    if next.contains(x) {
                        let k = choose|k: int| 0 <= k < more.len() && more[k] == x;
                        if k < i {
                            assert(front[k] == x);
                        }
                    }
                    assert(more[i as int] == c);
                }
                assert(next =~= done.insert(c));
                assert(!done.contains(c)) by {
                    if done.contains(c) {
                        let k = choose|k: int| 0 <= k < front.len() && front[k] == c;
                        assert(order[k] == c);
                    }
                }
                assert(next.remove(c) =~= done);
                lemma_total_remove(entries, next, Trait::Connected, c);
                lemma_total_remove(entries, next, Trait::Subscriptions, c);
                lemma_total_remove(entries, next, Trait::Published, c);
                lemma_total_remove(entries, next, Trait::Incoming, c);
                lemma_total_remove(entries, next, Trait::Outgoing, c);
                lemma_total_remove(entries, next, Trait::Persistent, c);
                lemma_total_remove(entries, next, Trait::Offline, c);
            }
            if let Some(entry) = self.sessions.get(names[i].as_str()) {
                let ghost was = r;
                r.add_session(&entry.session);
                proof {
                    assert(entries[c].session == entry.session@);
                    let s = entry.session@;
                    lemma_capped(
                        total(entries, done, Trait::Connected),
                        weight(s, Trait::Connected),
                    );
                    lemma_capped(
                        total(entries, done, Trait::Subscriptions),
                        weight(s, Trait::Subscriptions),
                    );
                    lemma_capped(
                        total(entries, done, Trait::Published),
                        weight(s, Trait::Published),
                    );
                    lemma_capped(total(entries, done, Trait::Incoming), weight(s, Trait::Incoming));
                    lemma_capped(total(entries, done, Trait::Outgoing), weight(s, Trait::Outgoing));
                    lemma_capped(
                        total(entries, done, Trait::Persistent),
                        weight(s, Trait::Persistent),
                    );
                    lemma_capped(total(entries, done, Trait::Offline), weight(s, Trait::Offline));
                }
            }
            i = i + 1;
        }
        assert(order.take(i as int) =~= order);
        assert(entries.dom() =~= self.sessions@.dom());
        r
    }

    /// How many messages were published since the broker began.
    pub fn messages_published(&self) -> (r: u64)
        requires
            self.wf(),
        ensures
            r == capped(
                self@.tallies.messages_published_retired as nat + census_of(
                    self@.sessions,
                    self@.sessions.dom(),
                ).published as nat,
            ),
    {
        plus(self.tallies.messages_published_retired, self.census().published)
    }
}

/// What a session counts for: one as a connected session where it is connected, its subscriptions,
/// the messages it published, the QoS 2 messages that wait each way, one as a persistent session
/// where it outlives its connection, and one as an offline one where it does and is not connected.
pub proof fn law_what_a_session_counts_for(s: SessionView)
    ensures
        weight(s, Trait::Connected) == if s.connected {
            1nat
        } else {
            0
        },
        weight(s, Trait::Subscriptions) == s.subscriptions.len(),
        weight(s, Trait::Published) == s.published,
        weight(s, Trait::Incoming) == s.incoming_qos2.dom().len(),
        weight(s, Trait::Outgoing) == s.outgoing_qos2.dom().len(),
        weight(s, Trait::Persistent) == if s.expiry > 0 {
            1nat
        } else {
            0
        },
        weight(s, Trait::Offline) == if s.expiry > 0 && !s.connected {
            1nat
        } else {
            0
        },
{
}

/// The census of no clients counts nothing, and one more client adds what its session counts for to
/// each of the numbers, which do not go beyond 2^64 - 1.
pub proof fn law_census_adds_up(
    sessions: Map<Seq<char>, EntryView>,
    clients: Set<Seq<char>>,
    c: Seq<char>,
    what: Trait,
)
    requires
        clients.finite(),
        !clients.contains(c),
    ensures
        total(sessions, Set::empty(), what) == 0,
        total(sessions, clients.insert(c), what) == total(sessions, clients, what) + weight(
            sessions[c].session,
            what,
        ),
        census_of(sessions, clients).active_connections == capped(
            total(sessions, clients, Trait::Connected),
        ),
        census_of(sessions, clients).current_subscriptions == capped(
            total(sessions, clients, Trait::Subscriptions),
        ),
        census_of(sessions, clients).published == capped(
            total(sessions, clients, Trait::Published),
        ),
        census_of(sessions, clients).qos2_incoming == capped(
            total(sessions, clients, Trait::Incoming),
        ),
        census_of(sessions, clients).qos2_outgoing == capped(
            total(sessions, clients, Trait::Outgoing),
        ),
        census_of(sessions, clients).persistent == capped(
            total(sessions, clients, Trait::Persistent),
        ),
        census_of(sessions, clients).offline == capped(total(sessions, clients, Trait::Offline)),
{
    lemma_total_remove(sessions, clients.insert(c), what, c);
    assert(clients.insert(c).remove(c) =~= clients);
}

} // verus!
