//! The bridge to a remote broker.

use vstd::prelude::*;
use crate::broker::model;
use crate::broker::model::{ActionView, PublishedView};
use crate::broker::state;
use crate::broker::state::{BridgeMessage, BrokerAction, BrokerState};
use crate::codec::decode::decode_packet;
use crate::codec::packet;
use crate::codec::packet::{Connect, Packet, PacketView, Publish, Subscribe, Subscription};
use crate::codec::properties::{ConnectProperties, PublishProperties, SubscribeProperties};
use crate::codec::property;
use crate::codec::wire::CodecError;
use crate::message;
use crate::message::ApplicationProperties;
use crate::policy;
use crate::session::inbound::encoded;
use crate::session::model::MessageView;
use crate::text;
use crate::text::{parse_number, starts_with};

verus! {

/// Topics with this beginning are forwarded to the remote broker.
pub open spec fn local_prefix() -> Seq<char> {
    "sensor/"@
}

/// The topics of the remote broker that come in.
pub open spec fn remote_filter() -> Seq<char> {
    "alerts/#"@
}

/// Topics with this beginning are forwarded to the remote broker.
pub fn local_pub_pattern() -> (r: &'static str)
    ensures
        r@ == local_prefix(),
{
    "sensor/"
}

/// The remote broker and how to log in there.
#[derive(Debug)]
pub struct BridgeConfig {
    /// The host.
    pub host: String,
    /// The port.
    pub port: u16,
    /// The user name; empty where there is none.
    pub user: String,
    /// The password; empty where there is none.
    pub password: String,
}

/// A port that a setting asks for, or else the usual one.
pub open spec fn port_of(value: Option<Seq<char>>, usual: u16) -> u16 {
    match value {
        None => usual,
        Some(t) => match text::number(vstd::utf8::encode_utf8(t), 65535) {
            Some(v) => v as u16,
            None => usual,
        },
    }
}

/// A port that a setting asks for, or else the usual one.
pub fn port_setting(value: Option<&str>, usual: u16) -> (r: u16)
    ensures
        r == port_of(policy::setting_opt(value), usual),
{
    match value {
        None => usual,
        Some(t) => match parse_number(t, 65535) {
            Some(v) => v as u16,
            None => usual,
        },
    }
}

/// A text, or the empty text.
fn text_or_empty(value: Option<&str>) -> (r: String)
    ensures
        r@ == match value {
            Some(t) => t@,
            None => Seq::empty(),
        },
{
    match value {
        Some(t) => t.to_owned(),
        None => {
            let r = String::new();
            assert(r@ =~= Seq::empty());
            r
        },
    }
}

impl BridgeConfig {
    /// The bridge that the settings ask for: none without a host.
    pub fn from_settings(
        host: Option<&str>,
        user: Option<&str>,
        password: Option<&str>,
        port: Option<&str>,
    ) -> (r: Option<BridgeConfig>)
        ensures
            match host {
                None => r is None,
                Some(h) => r matches Some(c) && c.host@ == h@ && c.port == port_of(
                    policy::setting_opt(port),
                    8883,
                ) && c.user@ == (match user {
                    Some(t) => t@,
                    None => Seq::empty(),
                }) && c.password@ == (match password {
                    Some(t) => t@,
                    None => Seq::empty(),
                }),
            },
    {
        match host {
            None => None,
            Some(h) => Some(
                BridgeConfig {
                    host: h.to_owned(),
                    port: port_setting(port, 8883),
                    user: text_or_empty(user),
                    password: text_or_empty(password),
                },
            ),
        }
    }

    /// The CONNECT that logs in at the remote broker.
    pub open spec fn login(&self) -> PacketView {
        PacketView::Connect {
            client_id: "pipistrelle_bridge_client"@,
            keep_alive: 60,
            clean_start: true,
            will: None,
            username: if self.user@.len() > 0 {
                Some(self.user@)
            } else {
                None
            },
            password: if self.password@.len() > 0 {
                Some(vstd::utf8::encode_utf8(self.password@))
            } else {
                None
            },
            properties: property::meaning(Seq::empty()),
        }
    }

    /// The CONNECT that logs in at the remote broker, as bytes.
    pub fn connect_bytes(&self) -> (bytes: Vec<u8>)
        ensures
            bytes@ == self.login().bytes(),
    {
        let user = self.user.as_str();
        let password = self.password.as_str();
        let p = Packet::Connect(
            Connect {
                client_id: "pipistrelle_bridge_client",
                keep_alive: 60,
                clean_start: true,
                will: None,
                username: if !crate::session::inbound::is_blank(user) {
                    Some(user)
                } else {
                    None
                },
                password: if !crate::session::inbound::is_blank(password) {
                    Some(password.as_bytes())
                } else {
                    None
                },
                properties: ConnectProperties::default(),
            },
        );
        assert(p@ == self.login());
        encoded(&p)
    }
}

/// The SUBSCRIBE for what comes in from the remote broker.
pub open spec fn subscription() -> PacketView {
    PacketView::Subscribe {
        packet_id: 1,
        properties: property::meaning(Seq::empty()),
        subscriptions: seq![(remote_filter(), 0u8)],
    }
}

/// The SUBSCRIBE for what comes in from the remote broker, as bytes.
pub fn subscribe_bytes() -> (bytes: Vec<u8>)
    ensures
        bytes@ == subscription().bytes(),
{
    let mut subscriptions: Vec<Subscription<'static>> = Vec::new();
    subscriptions.push(Subscription { topic_filter: "alerts/#", options: 0 });
    let p = Packet::Subscribe(
        Subscribe { packet_id: 1, properties: SubscribeProperties::default(), subscriptions },
    );
    assert(packet::subscriptions_view(subscriptions@) =~= seq![(remote_filter(), 0u8)]);
    assert(p@ == subscription());
    encoded(&p)
}

/// The PINGREQ that keeps the connection alive, as bytes.
pub fn ping_bytes() -> (bytes: Vec<u8>)
    ensures
        bytes@ == (PacketView::Ping { packet_type: 12 }).bytes(),
{
    encoded(&Packet::PingReq)
}

/// The PUBLISH that carries a message to the remote broker: of QoS 0, not retained, without
/// properties.
pub open spec fn forwarded(m: MessageView) -> PacketView {
    PacketView::Publish {
        dup: false,
        qos: 0,
        retain: false,
        topic: m.topic,
        packet_id: None,
        properties: property::meaning(Seq::empty()),
        payload: m.payload,
    }
}

/// The PUBLISH that carries a message to the remote broker, as bytes; nothing where its topic is
/// not to be forwarded.
pub fn forward_bytes(m: &BridgeMessage) -> (bytes: Option<Vec<u8>>)
    ensures
        match bytes {
            Some(b) => text::begins_with(m@.topic, local_prefix()) && b@ == forwarded(m@).bytes(),
            None => !text::begins_with(m@.topic, local_prefix()),
        },
{
    if !starts_with(m.topic.as_str(), local_pub_pattern()) {
        return None;
    }
    let p = Packet::Publish(
        Publish {
            dup: false,
            qos: 0,
            retain: false,
            topic: m.topic.as_str(),
            packet_id: None,
            properties: PublishProperties::default(),
            payload: m.payload.as_slice(),
        },
    );
    assert(p@ == forwarded(m@));
    Some(encoded(&p))
}

/// What the remote broker says to the login.
#[derive(Debug, Clone, Copy, PartialEq, Eq, Structural)]
pub enum LoginReply {
    /// It accepts; its answer takes so many bytes.
    Accepted(usize),
    /// It refuses, for this reason.
    Refused(u8),
    /// It says something else.
    Unexpected,
}

/// Reads what the remote broker says to the login.
pub fn login_reply(buf: &[u8]) -> (r: LoginReply)
    ensures
        r == match packet::parse_packet(buf@) {
            Ok((PacketView::ConnAck { reason_code, .. }, read)) => if reason_code == 0 {
                LoginReply::Accepted(read as usize)
            } else {
                LoginReply::Refused(reason_code)
            },
            _ => LoginReply::Unexpected,
        },
{
    match decode_packet(buf) {
        Ok((p, read)) => match p {
            Packet::ConnAck(connack) => if connack.reason_code == 0 {
                LoginReply::Accepted(read)
            } else {
                LoginReply::Refused(connack.reason_code)
            },
            _ => LoginReply::Unexpected,
        },
        Err(_) => LoginReply::Unexpected,
    }
}

/// How long the bridge waits before it tries again.
#[derive(Debug, Clone, Copy, PartialEq, Eq, Structural)]
pub struct Backoff {
    /// How long it waits after the next failure, in seconds.
    pub seconds: u64,
}

impl Backoff {
    /// From 5 to 60 seconds.
    pub open spec fn wf(self) -> bool {
        5 <= self.seconds <= 60
    }

    /// A bridge that did not fail yet.
    pub fn new() -> (r: Self)
        ensures
            r.seconds == 5,
            r.wf(),
    {
        Backoff { seconds: 5 }
    }

    /// The connection ended: how long the bridge waits. After a failure it waits longer each
    /// time, up to a minute, and in any case five seconds more.
    pub fn ended(&mut self, failed: bool) -> (wait: u64)
        requires
            old(self).wf(),
        ensures
            final(self).wf(),
            wait == if failed {
                old(self).seconds + 5
            } else {
                5
            },
            final(self).seconds == if !failed {
                5
            } else if 2 * old(self).seconds < 60 {
                2 * old(self).seconds
            } else {
                60
            },
    {
        if failed {
            let wait: u64 = self.seconds + 5;
            self.seconds = if self.seconds * 2 < 60 {
                self.seconds * 2
            } else {
                60
            };
            wait
        } else {
            self.seconds = 5;
            5
        }
    }
}

/// What becomes of the bytes at the front of what the remote broker has sent.
pub enum BridgeStep {
    /// They are not a whole packet yet.
    More,
    /// They are no packet, for this error: the connection is given up.
    Refused(CodecError),
    /// So many of them were a packet, and this is to be done.
    Packet(usize, Vec<BrokerAction>),
}

impl model::BrokerView {
    /// The remote broker sends a packet: a message is routed, and not forwarded again. The groups
    /// are those that it reaches, in the order in which they are served.
    pub open spec fn from_bridge(
        self,
        packet: Packet<'_>,
        now_ms: u64,
        groups: Seq<Seq<u8>>,
    ) -> model::Step {
        match packet {
            Packet::Publish(m) => self.route(
                model::bridge_client(),
                (PublishedView {
                    topic: m.topic@,
                    payload: m.payload@,
                    qos: m.qos,
                    retain: m.retain,
                    properties: message::received(m.properties, now_ms),
                }),
                now_ms,
                groups,
            ),
            _ => (self, Seq::empty()),
        }
    }

    /// Whether the groups are those that the message in a packet of the remote broker reaches.
    pub open spec fn groups_from_bridge(self, packet: Packet<'_>, groups: Seq<Seq<u8>>) -> bool {
        match packet {
            Packet::Publish(m) => model::reached_groups(self.routes, m.topic@, groups),
            _ => true,
        }
    }

    /// Whether a packet of the remote broker with this content can bring the broker there: some
    /// packet of that content, in some order of the groups that its message reaches.
    pub open spec fn bridges(self, content: PacketView, now_ms: u64, end: model::Step) -> bool {
        exists|packet: Packet<'static>, groups: Seq<Seq<u8>>|
            packet@ == content && #[trigger] self.groups_from_bridge(packet, groups) && end
                == self.from_bridge(packet, now_ms, groups)
    }
}

impl BrokerState {
    /// Takes a packet of the remote broker: a message is routed, and not forwarded again.
    pub fn bridge_packet(&mut self, p: &Packet<'_>, now_ms: u64) -> (actions: Vec<BrokerAction>)
        requires
            old(self).wf(),
        ensures
            final(self).wf(),
            exists|groups: Seq<Seq<u8>>| #[trigger]
                old(self)@.groups_from_bridge(*p, groups) && (
                    final(self)@,
                    state::actions_view(actions@),
                ) == old(self)@.from_bridge(*p, now_ms, groups),
    {
        let ghost start = self@;
        match p {
            Packet::Publish(m) => {
                let properties = ApplicationProperties::from_publish_at(&m.properties, now_ms);
                let actions = self.route_publish(
                    "bridge_client",
                    m.topic,
                    m.payload,
                    m.qos,
                    m.retain,
                    &properties,
                    now_ms,
                );
                proof {
                    let view = PublishedView {
                        topic: m.topic@,
                        payload: m.payload@,
                        qos: m.qos,
                        retain: m.retain,
                        properties: message::received(m.properties, now_ms),
                    };
                    let groups = choose|groups: Seq<Seq<u8>>| #[trigger]
                        model::reached_groups(start.routes, m.topic@, groups) && (
                            self@,
                            state::actions_view(actions@),
                        ) == start.route(model::bridge_client(), view, now_ms, groups);
                    assert(start.groups_from_bridge(*p, groups));
                }
                actions
            },
            _ => {
                let actions: Vec<BrokerAction> = Vec::new();
                proof {
                    assert(state::actions_view(actions@) =~= Seq::empty());
                    assert(start.groups_from_bridge(*p, Seq::empty()));
                }
                actions
            },
        }
    }

    /// Takes the packet at the front of what the remote broker has sent.
    pub fn bridge_bytes(&mut self, buf: &[u8], now_ms: u64) -> (r: BridgeStep)
        requires
            old(self).wf(),
        ensures
            final(self).wf(),
            match packet::parse_packet(buf@) {
                Err(CodecError::Incomplete) => r is More && final(self)@ == old(self)@,
                Err(e) => r == BridgeStep::Refused(e) && final(self)@ == old(self)@,
                Ok((content, size)) => {
                    &&& r matches BridgeStep::Packet(used, actions)
                    &&& used == size <= buf@.len()
                    &&& old(self)@.bridges(
                        content,
                        now_ms,
                        (final(self)@, state::actions_view(actions@)),
                    )
                },
            },
    {
        match decode_packet(buf) {
            Ok((packet, used)) => BridgeStep::Packet(used, self.bridge_packet(&packet, now_ms)),
            Err(CodecError::Incomplete) => BridgeStep::More,
            Err(e) => BridgeStep::Refused(e),
        }
    }

    /// Sets up the bridge: messages under its prefix are forwarded from now on, whether or not the
    /// remote broker can be reached.
    pub fn open_bridge(&mut self)
        requires
            old(self).wf(),
        ensures
            final(self).wf(),
            final(self)@ == (model::BrokerView {
                bridge: Some(local_prefix()),
                bridge_active: true,
                ..old(self)@
            }),
    {
        self.bridge_prefix = Some(local_pub_pattern().to_owned());
        self.bridge_active = true;
        assert(self@.bridge == Some(local_prefix()));
    }
}

/// What comes in over the bridge does not go out over it again.
pub proof fn law_bridge_does_not_loop(b: model::BrokerView, t: Seq<char>)
    ensures
        !b.forwards(model::bridge_client(), t),
{
}

/// What becomes of a packet of the remote broker depends on its content alone, and on the order in
/// which the groups that its message reaches are served.
pub proof fn law_content_of_a_bridged_packet_decides(
    b: model::BrokerView,
    p: Packet<'_>,
    q: Packet<'_>,
    now_ms: u64,
    groups: Seq<Seq<u8>>,
)
    requires
        p@ == q@,
    ensures
        b.groups_from_bridge(p, groups) == b.groups_from_bridge(q, groups),
        b.from_bridge(p, now_ms, groups) == b.from_bridge(q, now_ms, groups),
{
    match (p, q) {
        (Packet::Publish(m), Packet::Publish(n)) => {
            message::lemma_same_publish_values(m.properties, n.properties, now_ms);
        },
        _ => {},
    }
}

/// Once the bridge is set up, every message under its prefix that has not expired is forwarded,
/// whoever else receives it, be it nobody.
pub proof fn law_open_bridge_forwards(
    b: model::BrokerView,
    from: Seq<char>,
    p: PublishedView,
    now_ms: u64,
    groups: Seq<Seq<u8>>,
)
    requires
        b.bridge is Some ==> b.bridge_active,
        b.forwards(from, p.topic),
        !p.properties.expired(now_ms),
    ensures
        b.route(from, p, now_ms, groups).1.len() > 0,
        b.route(from, p, now_ms, groups).1[0] == ActionView::Forward(p.for_bridge()),
{
}

/// The bridge logs in as `pipistrelle_bridge_client` with a keep alive of 60 seconds, a clean start,
/// no Will and no properties, and with the user name and the password that are not empty.
pub proof fn law_bridge_logs_in(config: BridgeConfig)
    ensures
        config.login() is Connect,
        config.login()->Connect_client_id == "pipistrelle_bridge_client"@,
        config.login()->Connect_keep_alive == 60,
        config.login()->Connect_clean_start,
        config.login()->Connect_will is None,
        config.login()->Connect_username == if config.user@ == Seq::<char>::empty() {
            None
        } else {
            Some(config.user@)
        },
        config.login()->Connect_password == if config.password@ == Seq::<char>::empty() {
            None
        } else {
            Some(vstd::utf8::encode_utf8(config.password@))
        },
        config.login()->Connect_properties.values == Map::<u8, property::ValueView>::empty(),
        config.login()->Connect_properties.user == Seq::<(Seq<char>, Seq<char>)>::empty(),
{
    if config.user@.len() == 0 {
        assert(config.user@ =~= Seq::empty());
    }
    if config.password@.len() == 0 {
        assert(config.password@ =~= Seq::empty());
    }
    assert(property::meaning(Seq::empty()).values =~= Map::empty());
}

/// The bridge asks for `alerts/#` with the QoS 0, under the packet identifier 1.
pub proof fn law_bridge_subscribes()
    ensures
        subscription() is Subscribe,
        subscription()->Subscribe_packet_id == 1,
        subscription()->Subscribe_subscriptions == seq![
            (seq!['a', 'l', 'e', 'r', 't', 's', '/', '#'], 0u8),
        ],
        subscription()->Subscribe_properties.values == Map::<u8, property::ValueView>::empty(),
        subscription()->Subscribe_properties.user == Seq::<(Seq<char>, Seq<char>)>::empty(),
{
    reveal_strlit("alerts/#");
    assert("alerts/#"@ =~= seq!['a', 'l', 'e', 'r', 't', 's', '/', '#']);
    assert(property::meaning(Seq::empty()).values =~= Map::empty());
}

/// What goes out over the bridge is the topic and the payload of the message, with the QoS 0, not
/// retained, not a duplicate, and without properties. Only topics that begin with `sensor/` do.
pub proof fn law_forwarded_message(m: MessageView)
    ensures
        forwarded(m) is Publish,
        forwarded(m)->Publish_topic == m.topic,
        forwarded(m)->Publish_payload == m.payload,
        forwarded(m)->Publish_qos == 0,
        !forwarded(m)->Publish_dup,
        !forwarded(m)->Publish_retain,
        forwarded(m)->Publish_packet_id is None,
        forwarded(m)->Publish_properties.values == Map::<u8, property::ValueView>::empty(),
        forwarded(m)->Publish_properties.user == Seq::<(Seq<char>, Seq<char>)>::empty(),
        local_prefix() == seq!['s', 'e', 'n', 's', 'o', 'r', '/'],
{
    reveal_strlit("sensor/");
    assert("sensor/"@ =~= seq!['s', 'e', 'n', 's', 'o', 'r', '/']);
    assert(property::meaning(Seq::empty()).values =~= Map::empty());
}

/// A message that comes in over the bridge is routed with its topic, payload, QoS, retain flag and
/// properties as one of `bridge_client`, and with it all that routing does; any other packet of the
/// remote broker changes nothing.
pub proof fn law_message_from_the_remote_broker(
    b: model::BrokerView,
    packet: Packet<'_>,
    now_ms: u64,
    groups: Seq<Seq<u8>>,
    p: PublishedView,
)
    requires
        packet is Publish ==> {
            let m = packet->Publish_0;
            &&& p.topic == m.topic@
            &&& p.payload == m.payload@
            &&& p.qos == m.qos
            &&& p.retain == m.retain
            &&& p.properties == message::received(m.properties, now_ms)
        },
    ensures
        packet is Publish ==> b.from_bridge(packet, now_ms, groups) == b.route(
            "bridge_client"@,
            p,
            now_ms,
            groups,
        ),
        !(packet is Publish) ==> b.from_bridge(packet, now_ms, groups).0 == b && b.from_bridge(
            packet,
            now_ms,
            groups,
        ).1.len() == 0,
{
}

} // verus!
