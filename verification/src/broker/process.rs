//! Processing the packets of a client.

use vstd::prelude::*;
use vstd::utf8;
use crate::broker::model;
use crate::broker::model::{ActionView, BrokerView, PublishedView};
use crate::broker::packets;
use crate::broker::packets::{ReplayView, SubscribingView, UnsubscribingView};
use crate::broker::publish::lemma_entry_inserted;
use crate::broker::state;
use crate::broker::state::{append_actions, tag_effects, BrokerAction, BrokerState, Registered};
use crate::codec::packet;
use crate::codec::packet::{Packet, Publish, SubAck, Subscribe, UnsubAck, Unsubscribe};
use crate::codec::properties::SubAckProperties;
use crate::message::ApplicationProperties;
use crate::session::client::SessionEffect;
use crate::session::inbound;
use crate::session::inbound::{
    encode_disconnect, encode_puback, encode_pubcomp, encode_pubrec, encoded, PacketFault,
};
use crate::topic;
use crate::topic::{starts_with_share, topic_filter_valid};

verus! {

/// One action for a session.
fn one_action(client_id: &str, connection: u64, effect: SessionEffect) -> (r: Vec<BrokerAction>)
    ensures
        state::actions_view(r@) == packets::tagged_one(client_id@, connection, effect@),
{
    let mut r: Vec<BrokerAction> = Vec::new();
    let ghost view = effect@;
    r.push(BrokerAction::Session(client_id.to_owned(), connection, effect));
    assert(state::actions_view(r@) =~= packets::tagged_one(client_id@, connection, view));
    r
}

/// Nothing to be done.
fn no_actions() -> (r: Vec<BrokerAction>)
    ensures
        state::actions_view(r@) == Seq::<ActionView>::empty(),
{
    let r: Vec<BrokerAction> = Vec::new();
    assert(state::actions_view(r@) =~= Seq::<ActionView>::empty());
    r
}

/// A subscription that gets retained messages.
struct Replay {
    filter: String,
    qos: u8,
}

/// The content of subscriptions that get retained messages.
spec fn replays_view(list: Seq<Replay>) -> Seq<ReplayView> {
    Seq::new(list.len(), |i: int| ReplayView { filter: list[i].filter@, qos: list[i].qos })
}

impl BrokerState {
    /// Puts the changed session of a client back.
    fn put_back(&mut self, client_id: &str, entry: Registered, Ghost(before): Ghost<BrokerState>)
        requires
            before.wf(),
            before.sessions@.contains_key(client_id@),
            old(self).sessions@ == before.sessions@.remove(client_id@),
            old(self)@ == (BrokerView { sessions: old(self)@.sessions, ..before@ }),
            old(self).router == before.router,
            entry.session.wf(),
        ensures
            final(self).wf(),
            final(self)@ == (BrokerView {
                sessions: before@.sessions.insert(client_id@, entry@),
                ..before@
            }),
    {
        proof {
            lemma_entry_inserted(before.sessions@, client_id@, entry);
        }
        self.sessions.insert(client_id.to_owned(), entry);
    }

    /// The number of the connection of a client.
    pub fn connection_of(&self, client_id: &str) -> (r: Option<u64>)
        ensures
            match r {
                Some(n) => self@.sessions.contains_key(client_id@) && n
                    == self@.sessions[client_id@].connection,
                None => !self@.sessions.contains_key(client_id@),
            },
    {
        match self.sessions.get(client_id) {
            Some(entry) => Some(entry.connection),
            None => None,
        }
    }

    /// Whether a client may take an action on a topic.
    fn may(&self, client_id: &str, topic: &str, write: bool) -> (r: bool)
        requires
            self@.sessions.contains_key(client_id@),
        ensures
            write ==> r == self@.may_write(client_id@, topic@),
            !write ==> r == self@.may_read(client_id@, topic@),
    {
        match self.sessions.get(client_id) {
            Some(entry) => {
                let name = match &entry.session.username {
                    Some(name) => name.as_str(),
                    None => "",
                };
                proof {
                    reveal_strlit("");
                    assert(""@ =~= Seq::<char>::empty());
                }
                if write {
                    entry.session.allow_all_write || self.auth.authorize(name, topic, "write")
                } else {
                    entry.session.allow_all_read || self.auth.authorize(name, topic, "read")
                }
            },
            None => false,
        }
    }

    /// A client's message enters the broker: it is retained where it asks for that, counted and
    /// routed.
    fn enter(
        &mut self,
        client_id: &str,
        topic: &str,
        payload: &[u8],
        qos: u8,
        retain: bool,
        properties: &ApplicationProperties,
        now_ms: u64,
    ) -> (actions: Vec<BrokerAction>)
        requires
            old(self).wf(),
            old(self)@.sessions.contains_key(client_id@),
        ensures
            final(self).wf(),
            exists|groups: Seq<Seq<u8>>| #[trigger]
                model::reached_groups(old(self)@.routes, topic@, groups) && (
                    final(self)@,
                    state::actions_view(actions@),
                ) == old(self)@.enter(
                    client_id@,
                    (PublishedView {
                        topic: topic@,
                        payload: payload@,
                        qos,
                        retain,
                        properties: properties@,
                    }),
                    now_ms,
                    groups,
                ),
    {
        let ghost start = self@;
        let mut actions = if retain {
            self.update_retained(topic, payload, qos, properties, now_ms)
        } else {
            no_actions()
        };
        let ghost before = *self;
        if let Some(entry) = self.sessions.remove(client_id) {
            let mut entry = entry;
            entry.session.count_published();
            self.put_back(client_id, entry, Ghost(before));
        }
        let more = self.route_publish(client_id, topic, payload, qos, retain, properties, now_ms);
        append_actions(&mut actions, more);
        actions
    }

    /// Processes a PUBLISH.
    fn process_publish(&mut self, client_id: &str, p: &Publish<'_>, now_ms: u64) -> (r: (
        Vec<BrokerAction>,
        Option<PacketFault>,
    ))
        requires
            old(self).wf(),
            old(self)@.sessions.contains_key(client_id@),
        ensures
            final(self).wf(),
            exists|groups: Seq<Seq<u8>>| #[trigger]
                old(self)@.serves(
                    old(self)@.published_topic(client_id@, inbound::publish_in(*p, now_ms)),
                    groups,
                ) && (
                    final(self)@,
                    state::actions_view(r.0@),
                    r.1,
                ) == old(self)@.on_publish(
                    client_id@,
                    inbound::publish_in(*p, now_ms),
                    now_ms,
                    groups,
                ),
    {
        let ghost c = client_id@;
        let ghost start = self@;
        let ghost view = inbound::publish_in(*p, now_ms);
        let ghost before = *self;
        let maximum: u16 = self.limits.receive_maximum;
        let ghost (s, want) = start.sessions[c].session.accept_publish(view, maximum);
        let entry = match self.sessions.remove(client_id) {
            Some(entry) => entry,
            None => {
                return (no_actions(), None);
            },
        };
        let mut entry = entry;
        let connection: u64 = entry.connection;
        let accepted = entry.session.accept_publish(p, maximum);
        self.put_back(client_id, entry, Ghost(before));
        let ghost broker = start.with_session(c, s);
        assert(self@ == broker);
        let ghost nobody: Seq<Seq<u8>> = Seq::empty();
        let ghost entering = start.published_topic(c, view);
        let t = match accepted {
            Ok(t) => t,
            Err((reason, fault)) => {
                let actions = one_action(
                    client_id,
                    connection,
                    SessionEffect::Send(encode_disconnect(reason)),
                );
                assert(start.serves(entering, nobody));
                return (actions, Some(fault));
            },
        };
        let properties = ApplicationProperties::from_publish_at(&p.properties, now_ms);
        if !self.may(client_id, t.as_str(), true) {
            let actions = match p.packet_id {
                Some(id) => if p.qos > 0 {
                    let bytes = if p.qos == 2 {
                        encode_pubrec(id, 0x87)
                    } else {
                        encode_puback(id, 0x87)
                    };
                    one_action(client_id, connection, SessionEffect::SendAndRelease(bytes, id))
                } else {
                    no_actions()
                },
                None => no_actions(),
            };
            assert(start.serves(entering, nobody));
            return (actions, None);
        }
        if p.qos == 2 {
            let ghost middle = *self;
            assert(start.serves(entering, nobody));
            return match p.packet_id {
                Some(id) => match self.sessions.remove(client_id) {
                    Some(entry) => {
                        let mut entry = entry;
                        let effects = entry.session.keep_incoming(
                            id,
                            t.as_str(),
                            p.payload,
                            p.retain,
                            &properties,
                        );
                        self.put_back(client_id, entry, Ghost(middle));
                        (tag_effects(client_id, connection, effects), None)
                    },
                    None => {
                        assert(middle@.sessions.contains_key(c));
                        (no_actions(), None)
                    },
                },
                None => (no_actions(), None),
            };
        }
        let mut actions = self.enter(
            client_id,
            t.as_str(),
            p.payload,
            p.qos,
            p.retain,
            &properties,
            now_ms,
        );
        let ghost entered = state::actions_view(actions@);
        let ghost published = PublishedView {
            topic: t@,
            payload: p.payload@,
            qos: p.qos,
            retain: p.retain,
            properties: properties@,
        };
        if p.qos == 1 {
            if let Some(id) = p.packet_id {
                let ack = one_action(
                    client_id,
                    connection,
                    SessionEffect::SendAndRelease(encode_puback(id, 0), id),
                );
                append_actions(&mut actions, ack);
            }
        }
        proof {
            let groups = choose|groups: Seq<Seq<u8>>| #[trigger]
                model::reached_groups(broker.routes, t@, groups) && (self@, entered)
                    == broker.enter(c, published, now_ms, groups);
            assert(start.serves(entering, groups));
            assert(entered + Seq::<ActionView>::empty() =~= entered);
            assert((self@, state::actions_view(actions@), None::<PacketFault>)
                == start.on_publish(c, view, now_ms, groups));
        }
        (actions, None)
    }

    /// Processes a PUBREL.
    fn process_pubrel(&mut self, client_id: &str, packet_id: u16, now_ms: u64) -> (actions: Vec<
        BrokerAction,
    >)
        requires
            old(self).wf(),
            old(self)@.sessions.contains_key(client_id@),
        ensures
            final(self).wf(),
            exists|groups: Seq<Seq<u8>>| #[trigger]
                old(self)@.serves(old(self)@.released_topic(client_id@, packet_id), groups) && (
                    final(self)@,
                    state::actions_view(actions@),
                ) == old(self)@.on_pubrel(client_id@, packet_id, now_ms, groups),
    {
        let ghost c = client_id@;
        let ghost start = self@;
        let ghost before = *self;
        let ghost entering = start.released_topic(c, packet_id);
        let ghost nobody: Seq<Seq<u8>> = Seq::empty();
        let ghost s = start.sessions[c].session;
        let entry = match self.sessions.remove(client_id) {
            Some(entry) => entry,
            None => {
                return no_actions();
            },
        };
        let mut entry = entry;
        let connection: u64 = entry.connection;
        let released = entry.session.release_incoming(packet_id);
        self.put_back(client_id, entry, Ghost(before));
        match released {
            Some(message) => {
                let ghost broker = self@;
                let mut actions = self.enter(
                    client_id,
                    message.topic.as_str(),
                    message.payload.as_slice(),
                    2,
                    message.retain,
                    &message.properties,
                    now_ms,
                );
                let ghost entered = state::actions_view(actions@);
                let ghost published = PublishedView {
                    topic: message.topic@,
                    payload: message.payload@,
                    qos: 2,
                    retain: message.retain,
                    properties: message.properties@,
                };
                let forget = one_action(
                    client_id,
                    connection,
                    SessionEffect::DeleteIncoming(packet_id),
                );
                append_actions(&mut actions, forget);
                let complete = one_action(
                    client_id,
                    connection,
                    SessionEffect::Send(encode_pubcomp(packet_id, 0)),
                );
                append_actions(&mut actions, complete);
                proof {
                    let groups = choose|groups: Seq<Seq<u8>>| #[trigger]
                        model::reached_groups(broker.routes, message.topic@, groups) && (
                            self@,
                            entered,
                        ) == broker.enter(c, published, now_ms, groups);
                    assert(start.serves(entering, groups));
                    assert((self@, state::actions_view(actions@)) == start.on_pubrel(
                        c,
                        packet_id,
                        now_ms,
                        groups,
                    ));
                }
                actions
            },
            None => {
                proof {
                    assert(s.incoming_qos2.remove(packet_id) =~= s.incoming_qos2);
                    assert(start.sessions.insert(c, start.sessions[c]) =~= start.sessions);
                    assert(start.serves(entering, nobody));
                }
                one_action(
                    client_id,
                    connection,
                    SessionEffect::Send(encode_pubcomp(packet_id, 0x92)),
                )
            },
        }
    }

    /// Processes a SUBSCRIBE.
    fn process_subscribe(&mut self, client_id: &str, p: &Subscribe<'_>, now_ms: u64) -> (r: (
        Vec<BrokerAction>,
        Option<PacketFault>,
    ))
        requires
            old(self).wf(),
            old(self)@.sessions.contains_key(client_id@),
            old(self)@.routes.len() + p.subscriptions@.len() <= usize::MAX,
        ensures
            final(self).wf(),
            (final(self)@, state::actions_view(r.0@), r.1) == old(self)@.on_subscribe(
                client_id@,
                p.packet_id,
                packet::subscriptions_view(p.subscriptions@),
                p.properties.subscription_identifier,
                now_ms,
            ),
    {
        let ghost c = client_id@;
        let ghost start = self@;
        let ghost list = packet::subscriptions_view(p.subscriptions@);
        let sid: Option<u32> = p.properties.subscription_identifier;
        let mut actions = no_actions();
        let connection: u64 = match self.connection_of(client_id) {
            Some(n) => n,
            None => 0,
        };
        let mut codes: Vec<u8> = Vec::new();
        let mut replays: Vec<Replay> = Vec::new();
        assert(replays_view(replays@) =~= Seq::empty());
        let mut i: usize = 0;
        while i < p.subscriptions.len()
            invariant
                i <= p.subscriptions@.len(),
                self.wf(),
                self@.sessions.contains_key(c),
                c == client_id@,
                list == packet::subscriptions_view(p.subscriptions@),
                sid == p.properties.subscription_identifier,
                start.routes.len() + p.subscriptions@.len() <= usize::MAX,
                self@.routes.len() <= start.routes.len() + i,
                connection == start.sessions[c].connection,
                start == old(self)@,
                start.subscribing(c, list, i as nat, sid) == (SubscribingView {
                    broker: self@,
                    actions: state::actions_view(actions@),
                    codes: codes@,
                    replays: replays_view(replays@),
                    fault: None,
                }),
            decreases p.subscriptions@.len() - i,
        {
            let ghost so_far = start.subscribing(c, list, i as nat, sid);
            let ghost next = start.subscribing(c, list, (i + 1) as nat, sid);
            let filter = p.subscriptions[i].topic_filter;
            let options: u8 = p.subscriptions[i].options;
            assert(list[i as int] == (filter@, options));
            assert(next == so_far.one_more(c, filter@, options, sid));
            let fault = subscription_fault(filter, options);
            if let Some((reason, what)) = fault {
                let closing = one_action(
                    client_id,
                    connection,
                    SessionEffect::Send(encode_disconnect(reason)),
                );
                append_actions(&mut actions, closing);
                proof {
                    lemma_fault_stays(start, c, list, (i + 1) as nat, list.len(), sid);
                }
                return (actions, Some(what));
            }
            let qos: u8 = options & 0x03;
            let handling: u8 = (options >> 4) & 0x03;
            let ghost routes_before = self@.routes;
            let ghost replays_before = replays@;
            if self.may(client_id, filter, false) {
                let (outcome, more) = self.subscribe(client_id, filter, qos, sid, options);
                append_actions(&mut actions, more);
                proof {
                    lemma_subscribed_len(routes_before, so_far.broker, c, filter@, qos, sid, options);
                }
                if outcome.accepted {
                    codes.push(qos);
                    if !starts_with_share(filter.as_bytes()) && (handling == 0 || (handling == 1
                        && outcome.is_new)) {
                        replays.push(Replay { filter: filter.to_owned(), qos });
                        assert(replays_view(replays@) =~= replays_view(replays_before).push(
                            ReplayView { filter: filter@, qos },
                        ));
                    }
                } else {
                    codes.push(0x97);
                }
            } else {
                codes.push(0x87);
            }
            i = i + 1;
        }
        let ghost made = start.subscribing(c, list, list.len(), sid);
        let packet = Packet::SubAck(
            SubAck {
                packet_id: p.packet_id,
                properties: SubAckProperties::default(),
                reason_codes: codes,
            },
        );
        let answer = one_action(client_id, connection, SessionEffect::Send(encoded(&packet)));
        append_actions(&mut actions, answer);
        let ghost front = state::actions_view(actions@);
        let ghost views = replays_view(replays@);
        let ghost subscribed = self@;
        assert(front == made.actions + start.send(
            c,
            packets::codes_packet(9, p.packet_id, made.codes),
        ));
        let mut k: usize = 0;
        assert(front + Seq::<ActionView>::empty() =~= front);
        while k < replays.len()
            invariant
                k <= replays@.len(),
                self.wf(),
                c == client_id@,
                views == replays_view(replays@),
                (self@, state::actions_view(actions@)) == model::after(
                    front,
                    subscribed.replay_all(c, views, k as nat, sid, now_ms),
                ),
            decreases replays@.len() - k,
        {
            let replay = &replays[k];
            assert(views[k as int] == (ReplayView { filter: replay.filter@, qos: replay.qos }));
            let ghost before = subscribed.replay_all(c, views, k as nat, sid, now_ms);
            let more = self.send_retained_for_subscription(
                client_id,
                replay.filter.as_str(),
                replay.qos,
                sid,
                now_ms,
            );
            let ghost added = state::actions_view(more@);
            append_actions(&mut actions, more);
            assert((front + before.1) + added =~= front + (before.1 + added));
            k = k + 1;
        }
        (actions, None)
    }

    /// Processes an UNSUBSCRIBE.
    fn process_unsubscribe(&mut self, client_id: &str, p: &Unsubscribe<'_>) -> (r: (
        Vec<BrokerAction>,
        Option<PacketFault>,
    ))
        requires
            old(self).wf(),
            old(self)@.sessions.contains_key(client_id@),
        ensures
            final(self).wf(),
            (final(self)@, state::actions_view(r.0@), r.1) == old(self)@.on_unsubscribe(
                client_id@,
                p.packet_id,
                packet::texts_view(p.topic_filters@),
            ),
    {
        let ghost c = client_id@;
        let ghost start = self@;
        let ghost list = packet::texts_view(p.topic_filters@);
        let mut actions = no_actions();
        let connection: u64 = match self.connection_of(client_id) {
            Some(n) => n,
            None => 0,
        };
        let mut codes: Vec<u8> = Vec::new();
        let mut i: usize = 0;
        while i < p.topic_filters.len()
            invariant
                i <= p.topic_filters@.len(),
                self.wf(),
                c == client_id@,
                list == packet::texts_view(p.topic_filters@),
                connection == start.sessions[c].connection,
                start == old(self)@,
                start.unsubscribing(c, list, i as nat) == (UnsubscribingView {
                    broker: self@,
                    actions: state::actions_view(actions@),
                    codes: codes@,
                    malformed: false,
                }),
            decreases p.topic_filters@.len() - i,
        {
            let filter = p.topic_filters[i];
            assert(list[i as int] == filter@);
            let ghost next = start.unsubscribing(c, list, (i + 1) as nat);
            if !topic_filter_valid(filter) {
                let closing = one_action(
                    client_id,
                    connection,
                    SessionEffect::Send(encode_disconnect(0x82)),
                );
                append_actions(&mut actions, closing);
                proof {
                    lemma_malformed_stays(start, c, list, (i + 1) as nat, list.len());
                }
                return (actions, Some(PacketFault::UnsubscribeFilter));
            }
            let (removed, more) = self.unsubscribe(client_id, filter);
            append_actions(&mut actions, more);
            codes.push(
                if removed {
                    0x00
                } else {
                    0x11
                },
            );
            i = i + 1;
        }
        let packet = Packet::UnsubAck(
            UnsubAck {
                packet_id: p.packet_id,
                properties: SubAckProperties::default(),
                reason_codes: codes,
            },
        );
        let answer = one_action(client_id, connection, SessionEffect::Send(encoded(&packet)));
        append_actions(&mut actions, answer);
        (actions, None)
    }

    /// Processes an acknowledgement of a client: PUBACK (type 4), PUBREC (5) or PUBCOMP.
    fn process_ack(
        &mut self,
        client_id: &str,
        packet_type: u8,
        packet_id: u16,
        reason_code: u8,
        now_ms: u64,
    ) -> (actions: Vec<BrokerAction>)
        requires
            old(self).wf(),
            old(self)@.sessions.contains_key(client_id@),
        ensures
            final(self).wf(),
            (final(self)@, state::actions_view(actions@)) == ({
                let s = old(self)@.sessions[client_id@].session;
                old(self)@.session_step(
                    client_id@,
                    if packet_type == 4 {
                        s.on_puback(packet_id, now_ms)
                    } else if packet_type == 5 {
                        s.on_pubrec(packet_id, reason_code, now_ms)
                    } else {
                        s.on_pubcomp(packet_id, now_ms)
                    },
                )
            }),
    {
        let ghost before = *self;
        match self.sessions.remove(client_id) {
            Some(entry) => {
                let mut entry = entry;
                let connection: u64 = entry.connection;
                let effects = if packet_type == 4 {
                    entry.session.on_puback(packet_id, now_ms)
                } else if packet_type == 5 {
                    entry.session.on_pubrec(packet_id, reason_code, now_ms)
                } else {
                    entry.session.on_pubcomp(packet_id, now_ms)
                };
                self.put_back(client_id, entry, Ghost(before));
                tag_effects(client_id, connection, effects)
            },
            None => no_actions(),
        }
    }

    /// Processes a packet of a client: changes the state, and says what is to be done and whether
    /// the connection is closed for a fault. The groups of shared subscriptions that a published
    /// message reaches are served in any order.
    pub fn process_client_packet(&mut self, client_id: &str, packet: &Packet<'_>, now_ms: u64) -> (r:
        (Vec<BrokerAction>, Option<PacketFault>))
        requires
            old(self).wf(),
            old(self)@.sessions.contains_key(client_id@),
            packet matches Packet::Subscribe(p) ==> old(self)@.routes.len()
                + p.subscriptions@.len() <= usize::MAX,
        ensures
            final(self).wf(),
            exists|groups: Seq<Seq<u8>>| #[trigger]
                old(self)@.groups_of_packet(client_id@, *packet, now_ms, groups) && (
                    final(self)@,
                    state::actions_view(r.0@),
                    r.1,
                ) == old(self)@.on_packet(client_id@, *packet, now_ms, groups),
    {
        let ghost c = client_id@;
        let ghost start = self@;
        let ghost nobody: Seq<Seq<u8>> = Seq::empty();
        let connection: u64 = match self.connection_of(client_id) {
            Some(n) => n,
            None => 0,
        };
        match packet {
            Packet::Publish(p) => {
                let r = self.process_publish(client_id, p, now_ms);
                proof {
                    let view = inbound::publish_in(*p, now_ms);
                    let groups = choose|groups: Seq<Seq<u8>>| #[trigger]
                        start.serves(start.published_topic(c, view), groups) && (
                            self@,
                            state::actions_view(r.0@),
                            r.1,
                        ) == start.on_publish(c, view, now_ms, groups);
                    assert(start.groups_of_packet(c, *packet, now_ms, groups));
                }
                r
            },
            Packet::Subscribe(p) => {
                assert(start.groups_of_packet(c, *packet, now_ms, nobody));
                self.process_subscribe(client_id, p, now_ms)
            },
            Packet::Unsubscribe(p) => {
                assert(start.groups_of_packet(c, *packet, now_ms, nobody));
                self.process_unsubscribe(client_id, p)
            },
            Packet::PubAck(p) => {
                assert(start.groups_of_packet(c, *packet, now_ms, nobody));
                (self.process_ack(client_id, 4, p.packet_id, p.reason_code, now_ms), None)
            },
            Packet::PubRec(p) => {
                assert(start.groups_of_packet(c, *packet, now_ms, nobody));
                (self.process_ack(client_id, 5, p.packet_id, p.reason_code, now_ms), None)
            },
            Packet::PubRel(p) => {
                let actions = self.process_pubrel(client_id, p.packet_id, now_ms);
                proof {
                    let groups = choose|groups: Seq<Seq<u8>>| #[trigger]
                        start.serves(start.released_topic(c, p.packet_id), groups) && (
                            self@,
                            state::actions_view(actions@),
                        ) == start.on_pubrel(c, p.packet_id, now_ms, groups);
                    assert(start.groups_of_packet(c, *packet, now_ms, groups));
                }
                (actions, None)
            },
            Packet::PubComp(p) => {
                assert(start.groups_of_packet(c, *packet, now_ms, nobody));
                (self.process_ack(client_id, 7, p.packet_id, p.reason_code, now_ms), None)
            },
            Packet::PingReq => {
                assert(start.groups_of_packet(c, *packet, now_ms, nobody));
                let answer = encoded(&Packet::PingResp);
                (one_action(client_id, connection, SessionEffect::Send(answer)), None)
            },
            Packet::Connect(_) => {
                assert(start.groups_of_packet(c, *packet, now_ms, nobody));
                (no_actions(), Some(PacketFault::DuplicateConnect))
            },
            _ => {
                assert(start.groups_of_packet(c, *packet, now_ms, nobody));
                (no_actions(), None)
            },
        }
    }
}

/// The reason code and the fault for which a subscription closes the connection.
fn subscription_fault(filter: &str, options: u8) -> (r: Option<(u8, PacketFault)>)
    ensures
        r == packets::subscription_fault(filter@, options),
{
    if !topic_filter_valid(filter) {
        return Some((0x82u8, PacketFault::TopicFilter));
    }
    if options & 0x03 == 3 || (options >> 4) & 0x03 == 3 || options & 0xC0 != 0 {
        return Some((0x81u8, PacketFault::SubscriptionOptions));
    }
    if options & 0x04 != 0 && starts_with_share(filter.as_bytes()) {
        return Some((0x82u8, PacketFault::SubscriptionOptions));
    }
    None
}

/// After a subscription that closes the connection, no other is made.
proof fn lemma_fault_stays(
    b: BrokerView,
    c: Seq<char>,
    list: Seq<(Seq<char>, u8)>,
    n: nat,
    m: nat,
    sid: Option<u32>,
)
    requires
        n <= m,
        b.subscribing(c, list, n, sid).fault is Some,
    ensures
        b.subscribing(c, list, m, sid) == b.subscribing(c, list, n, sid),
    decreases m,
{
    if n < m {
        lemma_fault_stays(b, c, list, n, (m - 1) as nat, sid);
    }
}

/// After a malformed filter, no other is dealt with.
proof fn lemma_malformed_stays(b: BrokerView, c: Seq<char>, list: Seq<Seq<char>>, n: nat, m: nat)
    requires
        n <= m,
        b.unsubscribing(c, list, n).malformed,
    ensures
        b.unsubscribing(c, list, m) == b.unsubscribing(c, list, n),
    decreases m,
{
    if n < m {
        lemma_malformed_stays(b, c, list, n, (m - 1) as nat);
    }
}

/// A subscription adds at most one route.
proof fn lemma_subscribed_len(
    routes: Seq<crate::router::table::Route>,
    b: BrokerView,
    c: Seq<char>,
    filter: Seq<char>,
    qos: u8,
    sid: Option<u32>,
    options: u8,
)
    requires
        b.routes == routes,
    ensures
        b.subscribe(c, filter, qos, sid, options).0.routes.len() <= routes.len() + 1,
        b.subscribe(c, filter, qos, sid, options).0.sessions.contains_key(c)
            == b.sessions.contains_key(c),
        b.sessions.contains_key(c) ==> b.subscribe(
            c,
            filter,
            qos,
            sid,
            options,
        ).0.sessions[c].connection == b.sessions[c].connection,
{
    let f = utf8::encode_utf8(filter);
    lemma_without_len(
        routes,
        topic::share_group(f),
        crate::router::table::path_of(f),
        c,
    );
}

/// Leaving routes out makes no more of them.
pub(crate) proof fn lemma_without_len(
    routes: Seq<crate::router::table::Route>,
    group: Option<Seq<u8>>,
    path: Seq<Seq<u8>>,
    c: Seq<char>,
)
    ensures
        crate::router::table::without(routes, group, path, c).len() <= routes.len(),
    decreases routes.len(),
{
    if routes.len() > 0 {
        lemma_without_len(routes.drop_last(), group, path, c);
    }
}

} // verus!
