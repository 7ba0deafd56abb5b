//! What a client gets in return for what it sends.

use vstd::prelude::*;
use vstd::utf8;
use crate::broker::kept;
use crate::broker::kept::{none_of_topic, only_of_topic, others_kept};
use crate::broker::laws;
use crate::broker::model::{ActionView, BrokerView, EntryView, PublishedView, RetainedView};
use crate::broker::packets;
use crate::broker::packets::SubscribingView;
use crate::codec::layout;
use crate::codec::packet::{Packet, PacketView};
use crate::codec::property;
use crate::codec::property::{PropertiesView, PropertySet, ValueView};
use crate::codec::wire;
use crate::router::table;
use crate::router::table::{InfoView, Route};
use crate::session::inbound::{PacketFault, PublishIn};
use crate::session::model::{EffectView, InboundView, SessionView};
use crate::session::outbound::{law_acknowledgement_bytes, past, plain_ack};
use crate::topic;

verus! {

/// The bytes of an acknowledgement with a reason code that is not 0, and without properties.
pub open spec fn refusing_ack(first: u8, id: u16, reason_code: u8) -> Seq<u8> {
    seq![first, 4, (id / 256) as u8, (id % 256) as u8, reason_code, 0]
}

/// A client's message enters the broker: where it asks for that it becomes the retained message of
/// its topic, or removes it where it is empty; it is counted once for the client; and it is routed.
pub proof fn law_message_enters(
    b: BrokerView,
    c: Seq<char>,
    p: PublishedView,
    now_ms: u64,
    groups: Seq<Seq<u8>>,
)
    requires
        b.sessions.contains_key(c),
    ensures
        ({
            let (end, actions) = b.enter(c, p, now_ms, groups);
            let entry = b.sessions[c];
            let message = RetainedView {
                topic: p.topic,
                payload: p.payload,
                qos: p.qos,
                properties: p.properties,
            };
            let mid = BrokerView {
                retained: end.retained,
                sessions: b.sessions.insert(
                    c,
                    EntryView {
                        session: SessionView {
                            published: entry.session.published.wrapping_add(1),
                            ..entry.session
                        },
                        ..entry
                    },
                ),
                ..b
            };
            let (last, sent) = mid.route(c, p, now_ms, groups);
            &&& end == last
            &&& !p.retain ==> end.retained == b.retained && actions == sent
            &&& p.retain ==> others_kept(b.retained, end.retained, p.topic)
            &&& p.retain && p.payload.len() > 0 && !past(p.properties, now_ms) ==> only_of_topic(
                end.retained,
                message,
            ) && actions == seq![ActionView::SaveRetained(message)] + sent
            &&& p.retain && (p.payload.len() == 0 || past(p.properties, now_ms)) ==> none_of_topic(
                end.retained,
                p.topic,
            ) && actions == seq![ActionView::DeleteRetained(p.topic)] + sent
        }),
{
    kept::law_retained_message_is_the_only_one(
        b,
        p.topic,
        p.payload,
        p.qos,
        p.properties,
        now_ms,
    );
    let (kept, first) = if p.retain {
        b.retain(p.topic, p.payload, p.qos, p.properties, now_ms)
    } else {
        (b, Seq::empty())
    };
    let mid = kept.with_session(c, kept.sessions[c].session.published_one());
    laws::law_routing_only_adds_messages(mid, c, p, now_ms, groups);
    let (end, actions) = b.enter(c, p, now_ms, groups);
    let sent = mid.route(c, p, now_ms, groups).1;
    assert(end == mid.route(c, p, now_ms, groups).0);
    assert(end.retained == kept.retained);
    if !p.retain {
        assert(actions =~= sent);
    }
}

/// A PUBLISH that is acceptable is answered: with QoS 1 by a PUBACK once the message has entered
/// the broker, with QoS 2 by a PUBREC, and with QoS 0 not at all. Where the client may not write
/// the topic, the answer has the reason code 0x87 and nothing else happens. Each answer frees the
/// identifier's place of the server's Receive Maximum.
pub proof fn law_publish_is_answered(
    b: BrokerView,
    c: Seq<char>,
    p: PublishIn,
    t: Seq<char>,
    now_ms: u64,
    groups: Seq<Seq<u8>>,
    id: u16,
)
    requires
        b.sessions.contains_key(c),
        p.qos <= 2,
        p.qos > 0 ==> p.packet_id == Some(id),
    ensures
        ({
            let (end, actions) = b.on_accepted(c, p, t, now_ms, groups);
            let connection = b.sessions[c].connection;
            let s = b.sessions[c].session;
            let m = InboundView {
                topic: t,
                payload: p.payload,
                retain: p.retain,
                properties: p.properties,
            };
            let published = PublishedView {
                topic: t,
                payload: p.payload,
                qos: p.qos,
                retain: p.retain,
                properties: p.properties,
            };
            if !b.may_write(c, t) {
                &&& end == b
                &&& p.qos == 0 ==> actions.len() == 0
                &&& p.qos > 0 ==> actions == seq![
                    ActionView::Session(
                        c,
                        connection,
                        EffectView::SendAndRelease(
                            refusing_ack(
                                if p.qos == 1 {
                                    0x40
                                } else {
                                    0x50
                                },
                                id,
                                0x87,
                            ),
                            id,
                        ),
                    ),
                ]
            } else if p.qos == 2 {
                &&& actions.len() > 0 && actions.last() == ActionView::Session(
                    c,
                    connection,
                    EffectView::SendAndRelease(plain_ack(0x50, id), id),
                )
                &&& s.incoming_qos2.contains_key(id) ==> end.sessions[c].session == s
                    && actions.len() == 1
                &&& !s.incoming_qos2.contains_key(id) ==> end.sessions[c].session == (SessionView {
                    incoming_qos2: s.incoming_qos2.insert(id, m),
                    ..s
                })
                &&& !s.incoming_qos2.contains_key(id) && s.expiry > 0 ==> actions.len() == 2
                    && actions[0] == ActionView::Session(
                    c,
                    connection,
                    EffectView::SaveIncoming(id, m),
                )
                &&& end.sessions.remove(c) == b.sessions.remove(c) && end.retained == b.retained
                    && end.routes == b.routes
            } else {
                let (entered, first) = b.enter(c, published, now_ms, groups);
                &&& end == entered
                &&& p.qos == 0 ==> actions == first
                &&& p.qos == 1 ==> actions == first.push(
                    ActionView::Session(
                        c,
                        connection,
                        EffectView::SendAndRelease(plain_ack(0x40, id), id),
                    ),
                )
            }
        }),
{
    law_acknowledgement_bytes(4, id, 0x87);
    law_acknowledgement_bytes(5, id, 0x87);
    law_acknowledgement_bytes(4, id, 0);
    law_acknowledgement_bytes(5, id, 0);
    let (end, actions) = b.on_accepted(c, p, t, now_ms, groups);
    assert(p.qos == 2 ==> end.sessions.remove(c) =~= b.sessions.remove(c));
    if b.may_write(c, t) && p.qos < 2 {
        let first = b.enter(
            c,
            PublishedView {
                topic: t,
                payload: p.payload,
                qos: p.qos,
                retain: p.retain,
                properties: p.properties,
            },
            now_ms,
            groups,
        ).1;
        if p.qos == 0 {
            assert(actions =~= first);
        } else {
            assert(actions =~= first.push(
                ActionView::Session(
                    c,
                    b.sessions[c].connection,
                    EffectView::SendAndRelease(plain_ack(0x40, id), id),
                ),
            ));
        }
    }
}

/// A client that releases a QoS 2 message gets a PUBCOMP, and the message enters the broker with
/// QoS 2 and is not kept any more. Where there is no such message the PUBCOMP has the reason code
/// 0x92, and nothing else happens.
pub proof fn law_release_is_answered(
    b: BrokerView,
    c: Seq<char>,
    id: u16,
    now_ms: u64,
    groups: Seq<Seq<u8>>,
)
    requires
        b.sessions.contains_key(c),
    ensures
        ({
            let (end, actions) = b.on_pubrel(c, id, now_ms, groups);
            let entry = b.sessions[c];
            let s = entry.session;
            if s.incoming_qos2.contains_key(id) {
                let m = s.incoming_qos2[id];
                let without = BrokerView {
                    sessions: b.sessions.insert(
                        c,
                        EntryView {
                            session: SessionView {
                                incoming_qos2: s.incoming_qos2.remove(id),
                                ..s
                            },
                            ..entry
                        },
                    ),
                    ..b
                };
                let (entered, first) = without.enter(
                    c,
                    PublishedView {
                        topic: m.topic,
                        payload: m.payload,
                        qos: 2,
                        retain: m.retain,
                        properties: m.properties,
                    },
                    now_ms,
                    groups,
                );
                &&& end == entered
                &&& actions == first + seq![
                    ActionView::Session(c, entry.connection, EffectView::DeleteIncoming(id)),
                    ActionView::Session(
                        c,
                        entry.connection,
                        EffectView::Send(plain_ack(0x70, id)),
                    ),
                ]
            } else {
                &&& end == b
                &&& actions == seq![
                    ActionView::Session(
                        c,
                        entry.connection,
                        EffectView::Send(refusing_ack(0x70, id, 0x92)),
                    ),
                ]
            }
        }),
{
    law_acknowledgement_bytes(7, id, 0);
    law_acknowledgement_bytes(7, id, 0x92);
    let entry = b.sessions[c];
    let s = entry.session;
    if s.incoming_qos2.contains_key(id) {
        let m = s.incoming_qos2[id];
        let without = b.with_session(
            c,
            SessionView { incoming_qos2: s.incoming_qos2.remove(id), ..s },
        );
        let first = without.enter(
            c,
            PublishedView {
                topic: m.topic,
                payload: m.payload,
                qos: 2,
                retain: m.retain,
                properties: m.properties,
            },
            now_ms,
            groups,
        ).1;
        assert(b.on_pubrel(c, id, now_ms, groups).1 =~= first + seq![
            ActionView::Session(c, entry.connection, EffectView::DeleteIncoming(id)),
            ActionView::Session(c, entry.connection, EffectView::Send(plain_ack(0x70, id))),
        ]);
    }
}

/// A PUBLISH that is not acceptable closes the connection: the client is sent a DISCONNECT with
/// the reason code of the fault, and no message enters the broker.
pub proof fn law_faulty_publish_closes_the_connection(
    b: BrokerView,
    c: Seq<char>,
    p: PublishIn,
    now_ms: u64,
    groups: Seq<Seq<u8>>,
    reason: u8,
    fault: PacketFault,
)
    requires
        b.sessions.contains_key(c),
        b.sessions[c].session.accept_publish(p, b.limits.receive_maximum).1 == Err::<
            Seq<char>,
            (u8, PacketFault),
        >((reason, fault)),
        reason != 0,
    ensures
        ({
            let (end, actions, told) = b.on_publish(c, p, now_ms, groups);
            &&& told == Some(fault)
            &&& actions == seq![
                ActionView::Session(
                    c,
                    b.sessions[c].connection,
                    EffectView::Send(seq![0xE0u8, 2, reason, 0]),
                ),
            ]
            &&& end.retained == b.retained && end.routes == b.routes && end.sessions.remove(c)
                == b.sessions.remove(c)
        }),
{
    kept::law_disconnect_bytes(reason);
    let end = b.on_publish(c, p, now_ms, groups).0;
    assert(end.sessions.remove(c) =~= b.sessions.remove(c));
}

/// Which PUBLISH is acceptable, and for which topic: it has no subscription identifier; its topic
/// is a valid one, or its alias stands for one; its response topic is a topic and its format
/// indicator 0 or 1; and with QoS 1 or 2 it has an identifier for which the server's Receive
/// Maximum has room.
pub proof fn law_acceptable_publish(s: SessionView, p: PublishIn, receive_maximum: u16)
    ensures
        ({
            let (end, r) = s.accept_publish(p, receive_maximum);
            let aliased = p.topic.len() == 0 && p.alias is Some;
            let topic_fine = match p.alias {
                Some(alias) => 1 <= alias <= s.topic_alias_maximum && if p.topic.len() == 0 {
                    s.aliases.contains_key(alias)
                } else {
                    topic::topic_fault(p.topic) is None
                },
                None => p.topic.len() > 0 && topic::topic_fault(p.topic) is None,
            };
            let response_fine = match p.properties.response_topic {
                Some(t) => t.len() > 0 && !utf8::encode_utf8(t).contains(0x2B)
                    && !utf8::encode_utf8(t).contains(0x23),
                None => true,
            };
            let format_fine = match p.properties.payload_format_indicator {
                Some(f) => f <= 1,
                None => true,
            };
            let identifier_fine = p.qos == 0 || (p.packet_id is Some && (s.inbound_pending.contains(
                p.packet_id->0,
            ) || s.inbound_pending.len() < receive_maximum));
            &&& r is Ok <==> p.subscription_identifier is None && topic_fine && response_fine
                && format_fine && identifier_fine
            &&& r matches Ok(t) ==> t == if aliased {
                s.aliases[p.alias->0]
            } else {
                p.topic
            }
            &&& r is Ok ==> end == (SessionView {
                aliases: if p.alias is Some && p.topic.len() > 0 {
                    s.aliases.insert(p.alias->0, p.topic)
                } else {
                    s.aliases
                },
                inbound_pending: if p.qos > 0 {
                    s.inbound_pending.insert(p.packet_id->0)
                } else {
                    s.inbound_pending
                },
                ..s
            })
            &&& p.subscription_identifier is Some ==> r == Err::<Seq<char>, (u8, PacketFault)>(
                (0x82u8, PacketFault::SubscriptionIdentifier),
            )
            &&& p.subscription_identifier is None && p.alias is Some && !(1 <= p.alias->0
                <= s.topic_alias_maximum) ==> r == Err::<Seq<char>, (u8, PacketFault)>(
                (0x94u8, PacketFault::AliasOutOfRange),
            )
            &&& p.subscription_identifier is None && topic_fine && response_fine && format_fine
                && p.qos > 0 && p.packet_id is Some && !identifier_fine ==> r == Err::<
                Seq<char>,
                (u8, PacketFault),
            >((0x93u8, PacketFault::ReceiveMaximum))
        }),
{
    if p.qos > 0 && p.packet_id is Some && s.inbound_pending.contains(p.packet_id->0) {
        assert(s.inbound_pending.insert(p.packet_id->0) =~= s.inbound_pending);
    }
}

/// A SUBACK or UNSUBACK with few codes, byte for byte: its first byte, its length, the packet
/// identifier, an empty property block, and the codes.
pub proof fn law_codes_bytes(packet_type: u8, id: u16, codes: Seq<u8>)
    requires
        packet_type == 9 || packet_type == 11,
        codes.len() < 100,
    ensures
        packets::codes_packet(packet_type, id, codes).bytes() == seq![
            if packet_type == 9 {
                0x90u8
            } else {
                0xB0
            },
            (3 + codes.len()) as u8,
            (id / 256) as u8,
            (id % 256) as u8,
            0,
        ] + codes,
{
    let p = packets::codes_packet(packet_type, id, codes);
    let none = property::meaning(Seq::empty());
    let empty = PropertiesView { values: Map::empty(), user: Seq::empty() };
    assert(none.values =~= empty.values);
    assert(none.user =~= empty.user);
    assert(none =~= empty);
    layout::law_property_block(PropertySet::Ack, 0x1F, ValueView::Text(Seq::empty()));
    assert(p.body() =~= seq![(id / 256) as u8, (id % 256) as u8, 0] + codes);
    assert(wire::varint(p.body().len()) =~= seq![(3 + codes.len()) as u8]);
    assert(p.bytes() =~= seq![
        if packet_type == 9 {
            0x90u8
        } else {
            0xB0
        },
        (3 + codes.len()) as u8,
        (id / 256) as u8,
        (id % 256) as u8,
        0,
    ] + codes);
}

/// What subscription options say: the QoS in the lowest two bits, then No Local, Retain As
/// Published, and two bits for Retain Handling; the highest two are not used.
proof fn lemma_options(options: u8)
    ensures
        packets::requested_qos(options) == options % 4,
        packets::retain_handling(options) == (options / 16) % 4,
        (options & 0x04 != 0) == ((options / 4) % 2 == 1),
        (options & 0x08 != 0) == ((options / 8) % 2 == 1),
        (options & 0xC0 != 0) == (options >= 64),
{
    assert(options & 0x03 == options % 4) by (bit_vector);
    assert((options >> 4) & 0x03 == (options / 16) % 4) by (bit_vector);
    assert((options & 0x04 != 0) == ((options / 4) % 2 == 1)) by (bit_vector);
    assert((options & 0x08 != 0) == ((options / 8) % 2 == 1)) by (bit_vector);
    assert((options & 0xC0 != 0) == (options >= 64)) by (bit_vector);
}

/// Whether a client has as many subscriptions as it may, and this filter is not one of them.
pub open spec fn quota_full(b: BrokerView, c: Seq<char>, filter: Seq<char>) -> bool {
    b.sessions.contains_key(c) && !b.sessions[c].session.subscriptions.contains(filter)
        && b.sessions[c].session.subscriptions.len() >= b.limits.max_subscriptions_per_client
}

/// A subscription that is valid, that the client may read and that its quota admits, is granted
/// the QoS that it asks for: that is its reason code. It is stored, with its options; the client
/// has it from then on; and messages are routed by it, with that QoS, with the subscription
/// identifier, and with No Local and Retain As Published as the options say. Where the quota does
/// not admit it the code is 0x97, and where the client may not read it 0x87; then nobody is
/// subscribed.
pub proof fn law_subscription_is_granted(
    so_far: SubscribingView,
    c: Seq<char>,
    filter: Seq<char>,
    options: u8,
    subscription_identifier: Option<u32>,
)
    requires
        topic::filter_valid(utf8::encode_utf8(filter)),
        options < 64,
        options % 4 != 3,
        (options / 16) % 4 != 3,
        (options / 4) % 2 == 1 ==> !topic::has_share_prefix(utf8::encode_utf8(filter)),
        so_far.broker.sessions.contains_key(c),
    ensures
        ({
            let b = so_far.broker;
            let end = so_far.one_more(c, filter, options, subscription_identifier);
            let info = InfoView {
                client: c,
                qos: options % 4,
                subscription_identifier,
                no_local: (options / 4) % 2 == 1,
                retain_as_published: (options / 8) % 2 == 1,
            };
            let f = utf8::encode_utf8(filter);
            let route = Route {
                group: topic::share_group(f),
                path: table::up_to_hash(topic::levels(topic::plain_filter(f))),
                info,
            };
            &&& end.fault == so_far.fault
            &&& if !b.may_read(c, filter) {
                end.codes == so_far.codes.push(0x87) && end.broker == b && end.actions
                    == so_far.actions && end.replays == so_far.replays
            } else if quota_full(b, c, filter) {
                end.codes == so_far.codes.push(0x97) && end.broker.routes == b.routes
                    && end.broker.sessions == b.sessions && end.actions == so_far.actions
                    && end.replays == so_far.replays
            } else {
                &&& end.codes == so_far.codes.push(options % 4)
                &&& end.actions == so_far.actions.push(
                    ActionView::SaveSubscription(
                        c,
                        filter,
                        options % 4,
                        subscription_identifier,
                        options,
                    ),
                )
                &&& end.broker.routes.len() > 0 && end.broker.routes.last() == route
                &&& end.broker.sessions[c].session.subscriptions
                    == b.sessions[c].session.subscriptions.insert(filter)
                &&& end.broker.sessions.remove(c) == b.sessions.remove(c)
                &&& end.replays.len() == so_far.replays.len() + (if !topic::has_share_prefix(f) && (
                (options / 16) % 4 == 0 || ((options / 16) % 4 == 1
                    && !b.sessions[c].session.subscriptions.contains(filter))) {
                    1int
                } else {
                    0
                })
                &&& end.replays.len() > so_far.replays.len() ==> end.replays.last().filter == filter
                    && end.replays.last().qos == options % 4
            }
        }),
{
    lemma_options(options);
    let b = so_far.broker;
    let end = so_far.one_more(c, filter, options, subscription_identifier);
    if b.may_read(c, filter) && !quota_full(b, c, filter) {
        assert(end.broker.sessions.remove(c) =~= b.sessions.remove(c));
        assert(end.actions =~= so_far.actions.push(
            ActionView::SaveSubscription(
                c,
                filter,
                options % 4,
                subscription_identifier,
                options,
            ),
        ));
    } else if b.may_read(c, filter) {
        assert(end.actions =~= so_far.actions);
    }
}

/// A subscription closes the connection where its filter is not valid or it is shared and refuses
/// its client's own messages, with the reason code 0x82, and where its options are not valid, with
/// 0x81. Then nobody is subscribed.
pub proof fn law_faulty_subscription_closes_the_connection(
    so_far: SubscribingView,
    c: Seq<char>,
    filter: Seq<char>,
    options: u8,
    subscription_identifier: Option<u32>,
)
    ensures
        ({
            let end = so_far.one_more(c, filter, options, subscription_identifier);
            let f = utf8::encode_utf8(filter);
            let bad_options = options >= 64 || options % 4 == 3 || (options / 16) % 4 == 3;
            &&& !topic::filter_valid(f) ==> end == (SubscribingView {
                fault: Some((0x82u8, PacketFault::TopicFilter)),
                ..so_far
            })
            &&& topic::filter_valid(f) && bad_options ==> end == (SubscribingView {
                fault: Some((0x81u8, PacketFault::SubscriptionOptions)),
                ..so_far
            })
            &&& topic::filter_valid(f) && !bad_options && (options / 4) % 2 == 1
                && topic::has_share_prefix(f) ==> end == (SubscribingView {
                fault: Some((0x82u8, PacketFault::SubscriptionOptions)),
                ..so_far
            })
        }),
{
    lemma_options(options);
}

/// A SUBSCRIBE is answered with a SUBACK that has a code for each subscription, in their order,
/// and the retained messages follow; or with a DISCONNECT where one of them closes the connection.
pub proof fn law_subscribe_is_answered(
    b: BrokerView,
    c: Seq<char>,
    packet_id: u16,
    list: Seq<(Seq<char>, u8)>,
    subscription_identifier: Option<u32>,
    now_ms: u64,
)
    requires
        b.sessions.contains_key(c),
    ensures
        ({
            let made = b.subscribing(c, list, list.len(), subscription_identifier);
            let (end, actions, told) = b.on_subscribe(
                c,
                packet_id,
                list,
                subscription_identifier,
                now_ms,
            );
            let n = made.actions.len() as int;
            &&& actions.len() > n && actions.take(n) == made.actions
            &&& made.fault is None ==> told is None && made.codes.len() == list.len() && actions[n]
                == ActionView::Session(
                c,
                b.sessions[c].connection,
                EffectView::Send(packets::codes_packet(9, packet_id, made.codes).bytes()),
            ) && actions.skip(n + 1) == made.broker.replay_all(
                c,
                made.replays,
                made.replays.len(),
                subscription_identifier,
                now_ms,
            ).1
            &&& made.fault matches Some((reason, fault)) ==> told == Some(fault) && end
                == made.broker && actions.len() == n + 1 && actions[n] == ActionView::Session(
                c,
                b.sessions[c].connection,
                EffectView::Send(
                    if reason == 0 {
                        seq![0xE0u8, 0]
                    } else {
                        seq![0xE0u8, 2, reason, 0]
                    },
                ),
            )
        }),
{
    let made = b.subscribing(c, list, list.len(), subscription_identifier);
    let actions = b.on_subscribe(c, packet_id, list, subscription_identifier, now_ms).1;
    let n = made.actions.len() as int;
    lemma_code_for_each(b, c, list, list.len(), subscription_identifier);
    assert(actions.take(n) =~= made.actions);
    if made.fault is None {
        assert(actions.skip(n + 1) =~= made.broker.replay_all(
            c,
            made.replays,
            made.replays.len(),
            subscription_identifier,
            now_ms,
        ).1);
    } else {
        let (reason, _) = made.fault->0;
        kept::law_disconnect_bytes(reason);
    }
}

/// There is a code for each subscription that was made.
proof fn lemma_code_for_each(
    b: BrokerView,
    c: Seq<char>,
    list: Seq<(Seq<char>, u8)>,
    n: nat,
    subscription_identifier: Option<u32>,
)
    ensures
        b.subscribing(c, list, n, subscription_identifier).fault is None ==> b.subscribing(
            c,
            list,
            n,
            subscription_identifier,
        ).codes.len() == n,
    decreases n,
{
    if n > 0 {
        lemma_code_for_each(b, c, list, (n - 1) as nat, subscription_identifier);
    }
}

/// A client ends a subscription that it has: it is routed nothing by it any more, and it is
/// forgotten where it is stored. One that it does not have changes nothing.
pub proof fn law_subscription_is_ended(b: BrokerView, c: Seq<char>, filter: Seq<char>)
    requires
        b.sessions.contains_key(c),
    ensures
        ({
            let (end, actions) = b.unsubscribe(c, filter);
            let f = utf8::encode_utf8(filter);
            let group = topic::share_group(f);
            let path = topic::levels(topic::plain_filter(f));
            let has = exists|i: int|
                0 <= i < b.routes.len() && (#[trigger] b.routes[i]).group == group
                    && b.routes[i].path == path && b.routes[i].info.client == c;
            if has {
                &&& actions == seq![ActionView::DeleteSubscription(c, filter)]
                &&& end.routes == table::without(b.routes, group, path, c)
                &&& forall|i: int|
                    0 <= i < end.routes.len() ==> !((#[trigger] end.routes[i]).group == group
                        && end.routes[i].path == path && end.routes[i].info.client == c)
                &&& end.sessions[c].session.subscriptions
                    == b.sessions[c].session.subscriptions.remove(filter)
                &&& end.sessions.remove(c) == b.sessions.remove(c)
            } else {
                end == b && actions.len() == 0
            }
        }),
{
    let (end, actions) = b.unsubscribe(c, filter);
    let f = utf8::encode_utf8(filter);
    let group = topic::share_group(f);
    let path = topic::levels(topic::plain_filter(f));
    lemma_of_client(b.routes, group, path, c);
    lemma_without_has_none(b.routes, group, path, c);
    if b.subscribed_to(c, filter) {
        assert(end.sessions.remove(c) =~= b.sessions.remove(c));
    }
}

/// A client is among those of a key exactly where it has a route with that key.
proof fn lemma_of_client(
    routes: Seq<Route>,
    group: Option<Seq<u8>>,
    path: Seq<Seq<u8>>,
    c: Seq<char>,
)
    ensures
        table::of_client(table::select(routes, group, path), c) > 0 <==> exists|i: int|
            0 <= i < routes.len() && (#[trigger] routes[i]).group == group && routes[i].path == path
                && routes[i].info.client == c,
    decreases routes.len(),
{
    if routes.len() > 0 {
        let front = routes.drop_last();
        lemma_of_client(front, group, path, c);
        let fewer = table::select(front, group, path);
        assert(fewer.push(routes.last().info).drop_last() =~= fewer);
        if exists|i: int|
            0 <= i < routes.len() && (#[trigger] routes[i]).group == group && routes[i].path == path
                && routes[i].info.client == c {
            let i = choose|i: int|
                0 <= i < routes.len() && (#[trigger] routes[i]).group == group && routes[i].path
                    == path && routes[i].info.client == c;
            if i < front.len() {
                assert(front[i].group == group);
            }
        }
        if exists|i: int|
            0 <= i < front.len() && (#[trigger] front[i]).group == group && front[i].path == path
                && front[i].info.client == c {
            let i = choose|i: int|
                0 <= i < front.len() && (#[trigger] front[i]).group == group && front[i].path
                    == path && front[i].info.client == c;
            assert(routes[i].group == group);
        }
        assert(routes[routes.len() - 1] == routes.last());
    }
}

/// The routes without one have none with its key and client.
proof fn lemma_without_has_none(
    routes: Seq<Route>,
    group: Option<Seq<u8>>,
    path: Seq<Seq<u8>>,
    c: Seq<char>,
)
    ensures
        forall|i: int|
            0 <= i < table::without(routes, group, path, c).len() ==> !((#[trigger] table::without(
                routes,
                group,
                path,
                c,
            )[i]).group == group && table::without(routes, group, path, c)[i].path == path
                && table::without(routes, group, path, c)[i].info.client == c),
    decreases routes.len(),
{
    if routes.len() > 0 {
        lemma_without_has_none(routes.drop_last(), group, path, c);
    }
}

/// An UNSUBSCRIBE is answered with an UNSUBACK that has a code for each filter, in their order: 0
/// where the client had the subscription, and 0x11 where it did not; or with a DISCONNECT of
/// reason code 0x82 where a filter is not valid.
pub proof fn law_unsubscribe_is_answered(
    b: BrokerView,
    c: Seq<char>,
    packet_id: u16,
    filters: Seq<Seq<char>>,
    n: nat,
)
    requires
        b.sessions.contains_key(c),
        0 < n <= filters.len(),
    ensures
        ({
            let before = b.unsubscribing(c, filters, (n - 1) as nat);
            let now = b.unsubscribing(c, filters, n);
            let filter = filters[n - 1];
            &&& before.malformed ==> now == before
            &&& !before.malformed && !topic::filter_valid(utf8::encode_utf8(filter))
                ==> now.malformed && now.broker == before.broker && now.actions == before.actions
            &&& !before.malformed && topic::filter_valid(utf8::encode_utf8(filter)) ==> {
                &&& !now.malformed
                &&& now.broker == before.broker.unsubscribe(c, filter).0
                &&& now.actions == before.actions + before.broker.unsubscribe(c, filter).1
                &&& now.codes == before.codes.push(
                    if before.broker.unsubscribe(c, filter).1.len() > 0 {
                        0x00u8
                    } else {
                        0x11
                    },
                )
            }
        }),
        ({
            let done = b.unsubscribing(c, filters, filters.len());
            let (end, actions, told) = b.on_unsubscribe(c, packet_id, filters);
            &&& end == done.broker
            &&& !done.malformed ==> told is None && actions == done.actions.push(
                ActionView::Session(
                    c,
                    b.sessions[c].connection,
                    EffectView::Send(packets::codes_packet(11, packet_id, done.codes).bytes()),
                ),
            )
            &&& done.malformed ==> told == Some(PacketFault::UnsubscribeFilter) && actions
                == done.actions.push(
                ActionView::Session(
                    c,
                    b.sessions[c].connection,
                    EffectView::Send(seq![0xE0u8, 2, 0x82, 0]),
                ),
            )
        }),
{
    kept::law_disconnect_bytes(0x82);
    let done = b.unsubscribing(c, filters, filters.len());
    let actions = b.on_unsubscribe(c, packet_id, filters).1;
    if done.malformed {
        assert(actions =~= done.actions.push(
            ActionView::Session(
                c,
                b.sessions[c].connection,
                EffectView::Send(seq![0xE0u8, 2, 0x82, 0]),
            ),
        ));
    } else {
        assert(actions =~= done.actions.push(
            ActionView::Session(
                c,
                b.sessions[c].connection,
                EffectView::Send(packets::codes_packet(11, packet_id, done.codes).bytes()),
            ),
        ));
    }
}

/// What a client's other packets do: an acknowledgement goes to the client's session, a PINGREQ is
/// answered with a PINGRESP, a second CONNECT closes the connection, and packets that only a
/// server sends do nothing.
pub proof fn law_other_packets_are_answered(
    b: BrokerView,
    c: Seq<char>,
    packet: Packet<'_>,
    now_ms: u64,
    groups: Seq<Seq<u8>>,
)
    requires
        b.sessions.contains_key(c),
    ensures
        ({
            let (end, actions, fault) = b.on_packet(c, packet, now_ms, groups);
            let entry = b.sessions[c];
            let s = entry.session;
            match packet {
                Packet::PingReq => end == b && fault is None && actions == seq![
                    ActionView::Session(
                        c,
                        entry.connection,
                        EffectView::Send(seq![0xD0u8, 0]),
                    ),
                ],
                Packet::Connect(_) => end == b && actions.len() == 0 && fault == Some(
                    PacketFault::DuplicateConnect,
                ),
                Packet::PubAck(a) => {
                    let (t, effects) = s.on_puback(a.packet_id, now_ms);
                    fault is None && end.sessions[c] == (EntryView { session: t, ..entry })
                        && sends(actions, c, entry.connection, effects)
                },
                Packet::PubRec(a) => {
                    let (t, effects) = s.on_pubrec(a.packet_id, a.reason_code, now_ms);
                    fault is None && end.sessions[c] == (EntryView { session: t, ..entry })
                        && sends(actions, c, entry.connection, effects)
                },
                Packet::PubComp(a) => {
                    let (t, effects) = s.on_pubcomp(a.packet_id, now_ms);
                    fault is None && end.sessions[c] == (EntryView { session: t, ..entry })
                        && sends(actions, c, entry.connection, effects)
                },
                Packet::PubRel(a) => (end, actions) == b.on_pubrel(
                    c,
                    a.packet_id,
                    now_ms,
                    groups,
                ) && fault is None,
                Packet::ConnAck(_) | Packet::SubAck(_) | Packet::UnsubAck(_) | Packet::PingResp => end
                    == b && actions.len() == 0 && fault is None,
                _ => true,
            }
        }),
{
    let pong = PacketView::Ping { packet_type: 13 };
    assert(pong.bytes() =~= seq![0xD0u8, 0]);
}

/// Whether actions are the effects of a session, for a connection of its client.
pub open spec fn sends(
    actions: Seq<ActionView>,
    c: Seq<char>,
    connection: u64,
    effects: Seq<EffectView>,
) -> bool {
    actions.len() == effects.len() && forall|i: int|
        0 <= i < actions.len() ==> #[trigger] actions[i] == ActionView::Session(
            c,
            connection,
            effects[i],
        )
}

} // verus!
