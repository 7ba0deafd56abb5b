//! What a client that connects can rely on.

use vstd::prelude::*;
use vstd::utf8;
use crate::broker::connect;
use crate::broker::connect::{ConnectOrder, ConnectView};
use crate::broker::handshake;
use crate::broker::handshake::{
    connack_accepting, connack_properties, connack_refusing, Handshake, RequestView,
};
use crate::broker::kept;
use crate::broker::model::{ActionView, BrokerView, EntryView, WillMessageView};
use crate::codec::layout;
use crate::codec::packet;
use crate::codec::packet::{PacketView, WillView};
use crate::codec::properties;
use crate::codec::property;
use crate::codec::property::{PropertiesView, PropertySet, ValueView};
use crate::codec::roundtrip;
use crate::codec::wire;
use crate::codec::wire::CodecError;
use crate::config;
use crate::router::table;
use crate::session::model::{EffectView, InboundView, OutView, SessionView};
use crate::text;

verus! {

/// A connection is refused with a CONNACK of five bytes: no session is present, the reason code,
/// and no property.
pub proof fn law_refusal_bytes(reason_code: u8)
    ensures
        connack_refusing(reason_code).bytes() == seq![0x20u8, 3, 0, reason_code, 0],
{
    let p = connack_refusing(reason_code);
    let none = property::meaning(Seq::empty());
    let empty = PropertiesView { values: Map::empty(), user: Seq::empty() };
    assert(none.values =~= empty.values);
    assert(none.user =~= empty.user);
    assert(none =~= empty);
    layout::law_property_block(PropertySet::ConnAck, 0x1F, ValueView::Text(Seq::empty()));
    assert(p.body() =~= seq![0u8, reason_code, 0]);
    assert(p.bytes() =~= seq![0x20u8, 3, 0, reason_code, 0]);
}

/// So many times sixteen.
spec fn sixteen(k: nat) -> nat
    decreases k,
{
    if k == 0 {
        1
    } else {
        16 * sixteen((k - 1) as nat)
    }
}

/// How many hexadecimal digits a number has.
proof fn lemma_hex_len(v: nat, k: nat)
    requires
        k >= 1,
        v < sixteen(k),
    ensures
        1 <= text::hex(v).len() <= k,
        text::all_ascii(text::hex(v)),
    decreases v,
{
    if v >= 16 {
        assert(k > 1) by {
            reveal_with_fuel(sixteen, 2);
        }
        assert(v / 16 < sixteen((k - 1) as nat));
        lemma_hex_len(v / 16, (k - 1) as nat);
    }
}

/// An identifier that is assigned is ASCII, and short.
pub(crate) proof fn lemma_candidate_len(now_ms: u64, n: u64)
    ensures
        utf8::encode_utf8(connect::candidate(now_ms, n)).len() <= 37,
{
    assert(sixteen(16) == 0x1_0000_0000_0000_0000) by {
        reveal_with_fuel(sixteen, 17);
    }
    lemma_hex_len(now_ms as nat, 16);
    lemma_hex_len(n as nat, 16);
    let codes = seq![112u8, 105, 112, 45] + text::hex(now_ms as nat) + seq![45u8] + text::hex(
        n as nat,
    );
    let time = text::hex(now_ms as nat);
    assert forall|i: int| 0 <= i < codes.len() implies #[trigger] codes[i] < 128 by {
        if i < 4 {
        } else if i < 4 + time.len() {
            assert(codes[i] == time[i - 4]);
        } else if i > 4 + time.len() {
            assert(codes[i] == text::hex(n as nat)[i - 5 - time.len()]);
        }
    }
    text::lemma_ascii_decodes(codes);
}

/// How long a list of short properties is on the wire.
proof fn lemma_listed_len(p: PropertiesView, order: Seq<u8>, k: nat)
    requires
        p.user.len() == 0,
        forall|id: u8| #[trigger] p.values.contains_key(id) ==> p.values[id].bytes().len() <= k,
    ensures
        property::list_bytes(properties::listed(p, order)).len() <= order.len() * (k + 1),
    decreases order.len(),
{
    if order.len() > 0 {
        let front = properties::listed(p, order.drop_last());
        lemma_listed_len(p, order.drop_last(), k);
        assert(properties::user_items(p.user) =~= Seq::empty());
        let last = properties::items(p, order.last());
        let all = properties::listed(p, order);
        assert((order.len() - 1) * (k + 1) + (k + 1) == order.len() * (k + 1)) by (nonlinear_arith);
        if last.len() == 0 {
            assert(all =~= front);
        } else {
            assert(all.drop_last() =~= front);
        }
    } else {
        assert(0 * (k + 1) == 0) by (nonlinear_arith);
    }
}

/// Whether properties are those of a CONNACK that accepts a client: what the server accepts, in
/// full or not at all, and the client identifier where it was assigned.
pub open spec fn tells_limits(
    b: BrokerView,
    said: PropertiesView,
    assigned: Option<Seq<char>>,
    full: bool,
) -> bool {
    &&& said.user.len() == 0
    &&& full ==> {
        &&& said.values.contains_key(0x21) && said.values[0x21] == ValueView::Two(
            b.limits.receive_maximum,
        )
        &&& said.values.contains_key(0x27) && said.values[0x27] == ValueView::Four(
            b.limits.maximum_packet_size,
        )
        &&& said.values.contains_key(0x22) && said.values[0x22] == ValueView::Two(
            b.topic_alias_maximum,
        )
    }
    &&& !full ==> !said.values.contains_key(0x21) && !said.values.contains_key(0x27)
        && !said.values.contains_key(0x22)
    &&& match assigned {
        Some(c) => said.values.contains_key(0x12) && said.values[0x12] == ValueView::Text(c),
        None => !said.values.contains_key(0x12),
    }
    &&& forall|id: u8| #[trigger]
        said.values.contains_key(id) ==> id == 0x21 || id == 0x27 || id == 0x12 || id == 0x22
}

/// What an answer to a CONNECT decodes to.
pub(crate) proof fn lemma_answer_decodes(
    present: bool,
    receive_maximum: Option<u16>,
    maximum_packet_size: Option<u32>,
    assigned: Option<Seq<char>>,
    aliases: Option<u16>,
)
    requires
        assigned matches Some(c) ==> utf8::encode_utf8(c).len() <= 37,
    ensures
        ({
            let said = connack_properties(
                receive_maximum,
                maximum_packet_size,
                assigned,
                aliases,
            );
            let bytes = connack_accepting(present, said).bytes();
            packet::parse_packet(bytes) == Ok::<(PacketView, nat), CodecError>(
                (
                    PacketView::ConnAck {
                        session_present: present,
                        reason_code: 0,
                        properties: said,
                    },
                    bytes.len(),
                ),
            )
        }),
{
    let said = connack_properties(receive_maximum, maximum_packet_size, assigned, aliases);
    let v = PacketView::ConnAck { session_present: present, reason_code: 0, properties: said };
    assert forall|id: u8| #[trigger] said.values.contains_key(id) implies id != 0x26
        && property::kind_of(PropertySet::ConnAck, id) == Some(said.values[id].kind())
        && said.values[id].fits() && said.values[id].bytes().len() <= 39 by {
        if id == 0x12 {
            assert(said.values[id] == ValueView::Text(assigned->0));
        }
    }
    let order = properties::order(PropertySet::ConnAck);
    lemma_listed_len(said, order, 39);
    assert(order.len() == 17);
    let n = property::list_bytes(properties::listed(said, order)).len();
    assert(n <= 17 * 40);
    wire::lemma_varint_len(n);
    assert(v.body().len() <= 1000) by {
        reveal(properties::properties_bytes);
    }
    roundtrip::law_content_is_read_back(v, Seq::empty());
    assert(v.bytes() + Seq::<u8>::empty() =~= v.bytes());
}

/// The client identifier that was assigned, where the client came without one.
pub open spec fn assigned_to(r: RequestView, c: Seq<char>) -> Option<Seq<char>> {
    if r.client_id.len() == 0 {
        Some(c)
    } else {
        None
    }
}

/// Whether bytes are an answer that accepts a client: they decode to a CONNACK with the reason code
/// 0 and this flag, tell what they are to tell, and are not larger than the client accepts.
pub open spec fn answers(
    b: BrokerView,
    r: RequestView,
    c: Seq<char>,
    present: bool,
    answer: Seq<u8>,
) -> bool {
    &&& answer.len() <= r.maximum_packet_size
    &&& exists|said: PropertiesView, full: bool| #[trigger]
        tells_limits(b, said, assigned_to(r, c), full) && packet::parse_packet(answer) == Ok::<
            (PacketView, nat),
            CodecError,
        >(
            (
                PacketView::ConnAck {
                    session_present: present,
                    reason_code: 0,
                    properties: said,
                },
                answer.len(),
            ),
        )
}

/// A client that is accepted is sent an answer that decodes to a CONNACK with the reason code 0,
/// on its new connection. Session Present is set exactly where the client did not ask for a clean
/// start and the broker held a session of it that outlives its connection. The answer tells what
/// the server accepts, unless that would make it larger than the client accepts, and the client
/// identifier where it was assigned.
pub proof fn law_answer_tells_whether_the_session_goes_on(
    b: BrokerView,
    r: RequestView,
    now_ms: u64,
    order: ConnectOrder,
    c: Seq<char>,
    connection: u64,
    present: bool,
    actions: Seq<ActionView>,
)
    requires
        b.connect(r, true, now_ms, order).1 == ConnectView::Accepted(
            c,
            connection,
            present,
            actions,
        ),
    ensures
        r.client_id.len() > 0 ==> c == r.client_id,
        present <==> !r.clean_start && b.sessions.contains_key(c) && b.sessions[c].session.expiry
            > 0,
        exists|answer: Seq<u8>| #[trigger]
            actions.contains(ActionView::Session(c, connection, EffectView::Send(answer)))
                && answers(b, r, c, present, answer),
{
    let broker = b.identify(r, now_ms).0;
    let assigned = assigned_to(r, c);
    if r.client_id.len() == 0 {
        let n = b.free_number(now_ms, b.next_client, u64::MAX as nat);
        lemma_candidate_len(now_ms, n);
    }
    let (answer, aliases) = broker.answer(present, assigned, r.maximum_packet_size)->0;
    let installed = broker.install(c, r, aliases, now_ms, order).1;
    assert(actions == broker.accept(c, r, answer, aliases, now_ms, order).1);
    let want = ActionView::Session(c, connection, EffectView::Send(answer));
    assert(actions[installed.len() as int] == want);
    assert(actions.contains(want));
    let full = broker.full_answer(present, assigned).len() <= r.maximum_packet_size;
    let said = if full {
        connack_properties(
            Some(b.limits.receive_maximum),
            Some(b.limits.maximum_packet_size),
            assigned,
            Some(b.topic_alias_maximum),
        )
    } else {
        connack_properties(None, None, assigned, None)
    };
    if full {
        lemma_answer_decodes(
            present,
            Some(b.limits.receive_maximum),
            Some(b.limits.maximum_packet_size),
            assigned,
            Some(b.topic_alias_maximum),
        );
    } else {
        lemma_answer_decodes(present, None, None, assigned, None);
    }
    assert(tells_limits(b, said, assigned_to(r, c), full));
    assert(answer == connack_accepting(present, said).bytes());
    assert(answer.len() <= r.maximum_packet_size);
    assert(packet::parse_packet(answer) == Ok::<(PacketView, nat), CodecError>(
        (
            PacketView::ConnAck { session_present: present, reason_code: 0, properties: said },
            answer.len(),
        ),
    ));
    assert(answers(b, r, c, present, answer));
}

/// Who is not authenticated is refused with the reason code 0x86, and who comes with the client
/// identifier of somebody else with 0x87; neither changes anything of what the broker keeps.
pub proof fn law_refused_client_changes_nothing(
    b: BrokerView,
    r: RequestView,
    now_ms: u64,
    order: ConnectOrder,
)
    ensures
        b.connect(r, false, now_ms, order) == (
            b,
            ConnectView::Refused(seq![0x20u8, 3, 0, 0x86, 0]),
        ),
        r.client_id.len() > 0 && ((b.sessions.contains_key(r.client_id)
            && b.sessions[r.client_id].session.username != r.username) || (b.wills.contains_key(
            r.client_id,
        ) && b.wills[r.client_id].username != r.username)) ==> b.connect(r, true, now_ms, order)
            == (b, ConnectView::Refused(seq![0x20u8, 3, 0, 0x87, 0])),
        r.client_id.len() > 0 && b.connect(r, true, now_ms, order).1 is Refused ==> (
        b.sessions.contains_key(r.client_id) && b.sessions[r.client_id].session.username
            != r.username) || (b.wills.contains_key(r.client_id) && b.wills[r.client_id].username
            != r.username),
        b.connect(r, true, now_ms, order).1 is TooSmall ==> b.connect(r, true, now_ms, order).0
            == (BrokerView { next_client: b.connect(r, true, now_ms, order).0.next_client, ..b }),
{
    law_refusal_bytes(0x86);
    law_refusal_bytes(0x87);
}

/// The session of a client that is accepted is connected, and is as the client asked: its user,
/// its limits, its keep alive and its expiry. It goes on with what it had where it goes on, and
/// begins with nothing otherwise: no subscription, no message in either direction.
pub proof fn law_session_of_an_accepted_client(
    b: BrokerView,
    c: Seq<char>,
    r: RequestView,
    aliases: u16,
)
    ensures
        ({
            let s = b.new_session(c, r, aliases);
            let goes_on = !r.clean_start && b.sessions.contains_key(c)
                && b.sessions[c].session.expiry > 0;
            let was = b.sessions[c].session;
            &&& s.client == c && s.username == r.username && s.connected && s.keep_alive
                == r.keep_alive && s.receive_maximum == r.receive_maximum && s.maximum_packet_size
                == r.maximum_packet_size && s.expiry == r.expiry && s.clean_start == r.clean_start
                && s.topic_alias_maximum == aliases && !s.disconnect_requested
            &&& s.aliases == Map::<u16, Seq<char>>::empty()
            &&& s.outbound_active == Set::<u16>::empty()
            &&& s.published == 0
            &&& goes_on ==> s.subscriptions == was.subscriptions && s.in_flight == was.in_flight
                && s.outgoing_qos2 == was.outgoing_qos2 && s.incoming_qos2 == was.incoming_qos2
                && s.inbound_pending == was.incoming_qos2.dom()
            &&& !goes_on ==> s.subscriptions == Set::<Seq<char>>::empty() && s.in_flight == Map::<
                u16,
                OutView,
            >::empty() && s.outgoing_qos2 == Map::<u16, OutView>::empty()
                && s.incoming_qos2 == Map::<u16, InboundView>::empty()
                && s.inbound_pending == Set::<u16>::empty()
            &&& s.allow_all_write == config::authorized_for_all(
                b.auth,
                match r.username {
                    Some(name) => name,
                    None => Seq::empty(),
                },
                "write"@,
            )
            &&& s.allow_all_read == config::authorized_for_all(
                b.auth,
                match r.username {
                    Some(name) => name,
                    None => Seq::empty(),
                },
                "read"@,
            )
        }),
{
    let s = b.new_session(c, r, aliases);
    assert(b.goes_on(c, r.clean_start) ==> s.inbound_pending
        =~= b.sessions[c].session.incoming_qos2.dom());
}

/// With a clean start the earlier session of a client is forgotten, with its routes, and the Will
/// that waits is published; otherwise that Will is cancelled, and everything else stays.
pub proof fn law_earlier_session_makes_room(
    b: BrokerView,
    c: Seq<char>,
    clean_start: bool,
    now_ms: u64,
    groups: Seq<Seq<u8>>,
)
    ensures
        ({
            let (end, actions) = b.make_room(c, clean_start, now_ms, groups);
            let alone = BrokerView { wills: b.wills.remove(c), ..b };
            &&& !clean_start ==> end == (if b.wills.contains_key(c) {
                alone
            } else {
                b
            }) && actions == (if b.wills.contains_key(c) {
                seq![ActionView::DeleteWill(c)]
            } else {
                Seq::empty()
            })
            &&& clean_start && b.sessions.contains_key(c) ==> {
                &&& !end.sessions.contains_key(c)
                &&& !end.wills.contains_key(c)
                &&& end.routes == table::without_client(b.routes, c)
                &&& actions.len() > 0 && actions.last() == ActionView::DeleteSession(c)
            }
            &&& clean_start && b.wills.contains_key(c) ==> ({
                let (last, sent) = alone.publish_will(b.wills[c].message, now_ms, groups);
                end.retained == last.retained && actions.len() > sent.len() && actions.take(
                    sent.len() as int,
                ) == sent && actions[sent.len() as int] == ActionView::DeleteWill(c)
            })
        }),
{
    let alone = BrokerView { wills: b.wills.remove(c), ..b };
    if b.wills.contains_key(c) {
        let w = b.wills[c].message;
        kept::lemma_will_keeps_routes(alone, w, now_ms, groups);
        let sent = alone.publish_will(w, now_ms, groups).1;
        let actions = b.make_room(c, clean_start, now_ms, groups).1;
        if clean_start {
            assert(actions.take(sent.len() as int) =~= sent);
        }
    }
}

/// A connection that is taken over is told so with a DISCONNECT of reason code 0x8E, and closed at
/// the end. Its Will is published, unless the session goes on before the Will's delay is over:
/// then it is forgotten.
pub proof fn law_taken_over_connection_ends(
    b: BrokerView,
    c: Seq<char>,
    entry: EntryView,
    clean_start: bool,
    now_ms: u64,
    groups: Seq<Seq<u8>>,
)
    ensures
        ({
            let (end, actions) = b.take_over(c, entry, clean_start, now_ms, groups);
            let counted = b.displacing(entry);
            &&& actions.len() >= 3
            &&& actions[0] == ActionView::Session(
                c,
                entry.connection,
                EffectView::Send(seq![0xE0u8, 2, 0x8E, 0]),
            )
            &&& actions.last() == ActionView::Close(c, entry.connection)
            &&& actions[actions.len() - 2] == ActionView::DeleteWill(c)
            &&& entry.will is Some && (clean_start || entry.will->0.delay_interval == 0
                || entry.session.expiry == 0) ==> ({
                let (last, sent) = counted.publish_will(entry.will->0, now_ms, groups);
                end == last && actions.subrange(1, actions.len() - 2) == sent
            })
            &&& entry.will is None || !(clean_start || entry.will->0.delay_interval == 0
                || entry.session.expiry == 0) ==> end == (BrokerView {
                wills: b.wills.remove(c),
                ..counted
            }) && actions.len() == 3
            &&& counted.tallies.session_takeovers == b.tallies.session_takeovers.wrapping_add(1)
            &&& counted.sessions == b.sessions && counted.routes == b.routes && counted.retained
                == b.retained && counted.wills == b.wills
        }),
{
    kept::law_disconnect_bytes(0x8E);
    let (end, actions) = b.take_over(c, entry, clean_start, now_ms, groups);
    let counted = b.displacing(entry);
    if entry.will is Some && (clean_start || entry.will->0.delay_interval == 0
        || entry.session.expiry == 0) {
        let sent = counted.publish_will(entry.will->0, now_ms, groups).1;
        assert(actions.subrange(1, actions.len() - 2) =~= sent);
    }
}

/// A client that is accepted has its session under its identifier, under the number of its new
/// connection, with the Will it announced; the session is stored where it outlives its
/// connection. The Will is stored too, and where there is none an earlier one is forgotten.
pub proof fn law_session_is_registered(
    b: BrokerView,
    s: SessionView,
    will: Option<WillMessageView>,
)
    ensures
        ({
            let (end, actions) = b.register(s, will);
            &&& end.sessions == b.sessions.insert(
                s.client,
                EntryView { session: s, connection: b.next_ticket, will },
            )
            &&& end.next_ticket == b.next_ticket.wrapping_add(1)
            &&& end.routes == b.routes && end.retained == b.retained && end.wills == b.wills
            &&& actions == (if s.expiry > 0 {
                seq![ActionView::SaveSession(s.client, s.username, s.clean_start, s.expiry)]
            } else {
                Seq::empty()
            })
            &&& b.sessions.contains_key(s.client) ==> end.tallies.messages_published_retired
                == b.tallies.messages_published_retired.wrapping_add(
                b.sessions[s.client].session.published,
            )
        }),
{
}

/// The value of a property of a CONNECT with two bytes, and what it means where it is absent.
pub open spec fn two_or(p: PropertiesView, id: u8, default: u16) -> u16 {
    if p.values.contains_key(id) {
        p.values[id]->Two_0
    } else {
        default
    }
}

/// The value of a property of a CONNECT with four bytes, and what it means where it is absent.
pub open spec fn four_or(p: PropertiesView, id: u8, default: u32) -> u32 {
    if p.values.contains_key(id) {
        p.values[id]->Four_0
    } else {
        default
    }
}

/// What a CONNECT asks for: what it does not say is no session expiry, a Receive Maximum of 65535,
/// a maximum packet size of 268435455 and no topic alias. Its Will is taken over with all its
/// properties, its expiry not yet counting.
pub proof fn law_connect_asks_for(
    client_id: Seq<char>,
    keep_alive: u16,
    clean_start: bool,
    will: Option<WillView>,
    username: Option<Seq<char>>,
    password: Option<Seq<u8>>,
    properties: PropertiesView,
)
    ensures
        ({
            let r = handshake::request_of(
                PacketView::Connect {
                    client_id,
                    keep_alive,
                    clean_start,
                    will,
                    username,
                    password,
                    properties,
                },
            );
            &&& r.client_id == client_id && r.keep_alive == keep_alive && r.clean_start
                == clean_start && r.username == username
            &&& r.expiry == four_or(properties, 0x11, 0)
            &&& r.receive_maximum == two_or(properties, 0x21, 65_535)
            &&& r.maximum_packet_size == four_or(properties, 0x27, 268_435_455)
            &&& r.topic_alias_maximum == two_or(properties, 0x22, 0)
            &&& r.password is Some <==> password is Some
            &&& match (will, r.will) {
                (Some(w), Some(m)) => {
                    let p = w.properties;
                    &&& m.topic == w.topic && m.payload == w.payload && m.qos == w.qos && m.retain
                        == w.retain && m.delay_interval == four_or(p, 0x18, 0)
                    &&& m.properties.message_expiry_interval is Some <==> p.values.contains_key(
                        0x02,
                    )
                    &&& p.values.contains_key(0x02) ==> m.properties.message_expiry_interval
                        == Some(p.values[0x02]->Four_0)
                    &&& m.properties.payload_format_indicator is Some <==> p.values.contains_key(
                        0x01,
                    )
                    &&& p.values.contains_key(0x01) ==> m.properties.payload_format_indicator
                        == Some(p.values[0x01]->Byte_0)
                    &&& m.properties.content_type is Some <==> p.values.contains_key(0x03)
                    &&& p.values.contains_key(0x03) ==> m.properties.content_type == Some(
                        p.values[0x03]->Text_0,
                    )
                    &&& m.properties.response_topic is Some <==> p.values.contains_key(0x08)
                    &&& p.values.contains_key(0x08) ==> m.properties.response_topic == Some(
                        p.values[0x08]->Text_0,
                    )
                    &&& m.properties.correlation_data is Some <==> p.values.contains_key(0x09)
                    &&& p.values.contains_key(0x09) ==> m.properties.correlation_data == Some(
                        p.values[0x09]->Binary_0,
                    )
                    &&& m.properties.user_properties == p.user
                    &&& m.properties.expiry_started_at_ms is None
                },
                (None, None) => true,
                _ => false,
            }
        }),
{
}

/// A connection begins with a CONNECT: bytes that are not whole ask for more; another protocol
/// version is refused with 0x84, a packet that is too large with 0x95, and one that breaks the
/// protocol with 0x82; anything else closes the connection.
pub proof fn law_first_packet_decides(parsed: Result<(PacketView, nat), CodecError>, h: Handshake)
    requires
        handshake::handshake_fits(parsed, h),
    ensures
        match parsed {
            Ok((PacketView::Connect { .. }, read)) => h is Request && h->Request_1 == read
                && h->Request_0@ == handshake::request_of(parsed->Ok_0.0),
            Ok(_) => h is Close,
            Err(CodecError::Incomplete) => h is NeedMore,
            Err(CodecError::UnsupportedProtocolVersion(_)) => h is Refuse && h->Refuse_0@
                == seq![0x20u8, 3, 0, 0x84, 0],
            Err(CodecError::PacketTooLarge) => h is Refuse && h->Refuse_0@ == seq![
                0x20u8,
                3,
                0,
                0x95,
                0,
            ],
            Err(CodecError::ProtocolError) => h is Refuse && h->Refuse_0@ == seq![
                0x20u8,
                3,
                0,
                0x82,
                0,
            ],
            Err(_) => h is Close,
        },
{
    law_refusal_bytes(0x84);
    law_refusal_bytes(0x95);
    law_refusal_bytes(0x82);
}

/// A client comes with a user name and a password, or with neither, which stands for two empty
/// texts. With one of them alone nobody is authenticated.
pub proof fn law_name_and_password_come_together(r: RequestView)
    ensures
        handshake::credentials_of(r) is None <==> (r.username is Some) != (r.password is Some),
        r.username is Some && r.password is Some ==> handshake::credentials_of(r) == Some(
            (r.username->0, r.password->0),
        ),
        r.username is None && r.password is None ==> handshake::credentials_of(r) == Some(
            (Seq::<char>::empty(), Seq::<char>::empty()),
        ),
{
}

/// Bytes that are no packet are answered with 0x82 where they break the protocol, with 0x95 where
/// they are too many, and with 0x81 in every other case.
pub proof fn law_bytes_that_are_no_packet(e: CodecError)
    ensures
        handshake::codec_reason(e) == 0x82 <==> e is ProtocolError,
        handshake::codec_reason(e) == 0x95 <==> e is PacketTooLarge,
        !(e is ProtocolError) && !(e is PacketTooLarge) ==> handshake::codec_reason(e) == 0x81,
{
}

} // verus!
