//! Application messages, and how long they live.

use vstd::prelude::*;
use crate::codec::packet;
use crate::codec::properties::{PublishProperties, WillProperties};
use crate::codec::property;
use crate::codec::property::{PropertiesView, ValueView};
use crate::text::copy_bytes;

verus! {

/// The properties of a message that its receivers see, and since when its expiry counts.
#[derive(Debug, PartialEq, Eq)]
pub struct ApplicationProperties {
    /// Whether the payload is UTF-8 text.
    pub payload_format_indicator: Option<u8>,
    /// How long the message lives, in seconds.
    pub message_expiry_interval: Option<u32>,
    /// Unix milliseconds at which the expiry started counting: for a PUBLISH its reception, for a
    /// Will its publication.
    pub expiry_started_at_ms: Option<u64>,
    /// What the payload holds.
    pub content_type: Option<String>,
    /// Where a response is to be published.
    pub response_topic: Option<String>,
    /// By which data the response is matched.
    pub correlation_data: Option<Vec<u8>>,
    /// The user properties, in order.
    pub user_properties: Vec<(String, String)>,
}

/// The content of application properties.
#[verifier::ext_equal]
pub struct ApplicationView {
    /// Whether the payload is UTF-8 text.
    pub payload_format_indicator: Option<u8>,
    /// How long the message lives, in seconds.
    pub message_expiry_interval: Option<u32>,
    /// Since when its expiry counts.
    pub expiry_started_at_ms: Option<u64>,
    /// What the payload holds.
    pub content_type: Option<Seq<char>>,
    /// Where a response is to be published.
    pub response_topic: Option<Seq<char>>,
    /// By which data the response is matched.
    pub correlation_data: Option<Seq<u8>>,
    /// The user properties, in order.
    pub user_properties: Seq<(Seq<char>, Seq<char>)>,
}

/// The content of owned text that may be absent.
pub open spec fn string_opt(text: Option<String>) -> Option<Seq<char>> {
    match text {
        Some(t) => Some(t@),
        None => None,
    }
}

/// The content of owned bytes that may be absent.
pub open spec fn vec_opt(data: Option<Vec<u8>>) -> Option<Seq<u8>> {
    match data {
        Some(d) => Some(d@),
        None => None,
    }
}

/// The content of owned user properties.
pub open spec fn owned_pairs(pairs: Seq<(String, String)>) -> Seq<(Seq<char>, Seq<char>)> {
    Seq::new(pairs.len(), |i: int| (pairs[i].0@, pairs[i].1@))
}

impl View for ApplicationProperties {
    type V = ApplicationView;

    open spec fn view(&self) -> ApplicationView {
        ApplicationView {
            payload_format_indicator: self.payload_format_indicator,
            message_expiry_interval: self.message_expiry_interval,
            expiry_started_at_ms: self.expiry_started_at_ms,
            content_type: string_opt(self.content_type),
            response_topic: string_opt(self.response_topic),
            correlation_data: vec_opt(self.correlation_data),
            user_properties: owned_pairs(self.user_properties@),
        }
    }
}

/// The seconds that are left of an interval that started counting at `started`.
pub open spec fn seconds_left(interval: u32, started: Option<u64>, now_ms: u64) -> u32 {
    match started {
        None => interval,
        Some(started) => {
            let elapsed: int = if now_ms >= started {
                now_ms - started
            } else {
                0
            };
            if elapsed >= interval * 1000 {
                0
            } else {
                (interval - elapsed / 1000) as u32
            }
        },
    }
}

impl ApplicationView {
    /// No properties.
    pub open spec fn none() -> ApplicationView {
        ApplicationView {
            payload_format_indicator: None,
            message_expiry_interval: None,
            expiry_started_at_ms: None,
            content_type: None,
            response_topic: None,
            correlation_data: None,
            user_properties: Seq::empty(),
        }
    }

    /// The seconds that the message still lives, where it has a limit.
    pub open spec fn remaining(self, now_ms: u64) -> Option<u32> {
        match self.message_expiry_interval {
            None => None,
            Some(interval) => Some(seconds_left(interval, self.expiry_started_at_ms, now_ms)),
        }
    }

    /// Whether the message is past its time.
    pub open spec fn expired(self, now_ms: u64) -> bool {
        self.remaining(now_ms) == Some(0u32)
    }

    /// Whether there is no property.
    pub open spec fn empty(self) -> bool {
        self.payload_format_indicator is None && self.message_expiry_interval is None
            && self.content_type is None && self.response_topic is None
            && self.correlation_data is None && self.user_properties.len() == 0
    }

    /// Property `id` of a PUBLISH that carries the message at a time, for a subscription with an
    /// identifier.
    pub open spec fn publish_value(
        self,
        subscription_identifier: Option<u32>,
        now_ms: u64,
        id: u8,
    ) -> Option<ValueView> {
        if id == 0x01 {
            match self.payload_format_indicator {
                Some(v) => Some(ValueView::Byte(v)),
                None => None,
            }
        } else if id == 0x02 {
            match self.remaining(now_ms) {
                Some(v) => Some(ValueView::Four(v)),
                None => None,
            }
        } else if id == 0x03 {
            match self.content_type {
                Some(v) => Some(ValueView::Text(v)),
                None => None,
            }
        } else if id == 0x08 {
            match self.response_topic {
                Some(v) => Some(ValueView::Text(v)),
                None => None,
            }
        } else if id == 0x09 {
            match self.correlation_data {
                Some(v) => Some(ValueView::Binary(v)),
                None => None,
            }
        } else if id == 0x0B {
            match subscription_identifier {
                Some(v) => Some(ValueView::Varint(v)),
                None => None,
            }
        } else {
            None
        }
    }

    /// The properties of a PUBLISH that carries the message.
    pub open spec fn publish_properties(
        self,
        subscription_identifier: Option<u32>,
        now_ms: u64,
    ) -> PropertiesView {
        PropertiesView {
            values: Map::new(
                |id: u8| self.publish_value(subscription_identifier, now_ms, id) is Some,
                |id: u8| self.publish_value(subscription_identifier, now_ms, id)->0,
            ),
            user: self.user_properties,
        }
    }
}

/// Copies text that may be absent.
fn own_text(text: Option<&str>) -> (r: Option<String>)
    ensures
        string_opt(r) == packet::text_opt(text),
{
    match text {
        Some(t) => Some(t.to_owned()),
        None => None,
    }
}

/// Copies bytes that may be absent.
fn own_bytes(data: Option<&[u8]>) -> (r: Option<Vec<u8>>)
    ensures
        vec_opt(r) == packet::bytes_opt(data),
{
    match data {
        Some(d) => Some(copy_bytes(d)),
        None => None,
    }
}

/// Copies user properties.
fn own_pairs(pairs: &Vec<(&str, &str)>) -> (r: Vec<(String, String)>)
    ensures
        owned_pairs(r@) == property::pairs_view(pairs@),
{
    let mut r: Vec<(String, String)> = Vec::new();
    let mut i: usize = 0;
    while i < pairs.len()
        invariant
            i <= pairs@.len(),
            r@.len() == i,
            forall|k: int|
                0 <= k < i ==> (#[trigger] r@[k]).0@ == pairs@[k].0@ && r@[k].1@ == pairs@[k].1@,
        decreases pairs@.len() - i,
    {
        let (key, value) = pairs[i];
        r.push((key.to_owned(), value.to_owned()));
        i = i + 1;
    }
    assert(owned_pairs(r@) =~= property::pairs_view(pairs@));
    r
}

impl ApplicationProperties {
    /// Calls `std::time::SystemTime::now` and gives the time since the Unix epoch in whole
    /// milliseconds. Nothing is claimed of the time.
    #[verifier::external_body]
    pub fn now_ms() -> (now: u64) {
        let since = std::time::SystemTime::now().duration_since(std::time::UNIX_EPOCH);
        u64::try_from(since.unwrap_or_default().as_millis()).unwrap_or(u64::MAX)
    }

    /// No properties.
    pub fn none() -> (r: Self)
        ensures
            r@ == ApplicationView::none(),
    {
        let r = ApplicationProperties {
            payload_format_indicator: None,
            message_expiry_interval: None,
            expiry_started_at_ms: None,
            content_type: None,
            response_topic: None,
            correlation_data: None,
            user_properties: Vec::new(),
        };
        assert(owned_pairs(r.user_properties@) =~= Seq::empty());
        r
    }

    /// The properties of a PUBLISH that is received now.
    pub fn from_publish(properties: &PublishProperties<'_>) -> (r: Self)
        ensures
            exists|now: u64| #[trigger] received(*properties, now) == r@,
    {
        let now: u64 = Self::now_ms();
        let r = Self::from_publish_at(properties, now);
        assert(received(*properties, now) == r@);
        r
    }

    /// The properties of a PUBLISH that is received at the given time: its expiry counts from
    /// then.
    pub fn from_publish_at(properties: &PublishProperties<'_>, now_ms: u64) -> (r: Self)
        ensures
            r@ == received(*properties, now_ms),
    {
        ApplicationProperties {
            payload_format_indicator: properties.payload_format_indicator,
            message_expiry_interval: properties.message_expiry_interval,
            expiry_started_at_ms: if properties.message_expiry_interval.is_some() {
                Some(now_ms)
            } else {
                None
            },
            content_type: own_text(properties.content_type),
            response_topic: own_text(properties.response_topic),
            correlation_data: own_bytes(properties.correlation_data),
            user_properties: own_pairs(&properties.user_properties),
        }
    }

    /// The properties of a Will: its expiry does not count before it is published.
    pub fn from_will(properties: &WillProperties<'_>) -> (r: Self)
        ensures
            r@ == (ApplicationView {
                payload_format_indicator: properties.payload_format_indicator,
                message_expiry_interval: properties.message_expiry_interval,
                expiry_started_at_ms: None,
                content_type: packet::text_opt(properties.content_type),
                response_topic: packet::text_opt(properties.response_topic),
                correlation_data: packet::bytes_opt(properties.correlation_data),
                user_properties: property::pairs_view(properties.user_properties@),
            }),
    {
        ApplicationProperties {
            payload_format_indicator: properties.payload_format_indicator,
            message_expiry_interval: properties.message_expiry_interval,
            expiry_started_at_ms: None,
            content_type: own_text(properties.content_type),
            response_topic: own_text(properties.response_topic),
            correlation_data: own_bytes(properties.correlation_data),
            user_properties: own_pairs(&properties.user_properties),
        }
    }

    /// Lets the expiry count from now, where there is one and it does not count yet.
    pub fn start_expiry_now(&mut self)
        ensures
            exists|now: u64| #[trigger] started(old(self)@, now) == final(self)@,
    {
        let now: u64 = Self::now_ms();
        self.start_expiry_at(now);
        assert(started(old(self)@, now) == self@);
    }

    /// Lets the expiry count from the given time, where there is one and it does not count yet.
    pub fn start_expiry_at(&mut self, now_ms: u64)
        ensures
            final(self)@ == started(old(self)@, now_ms),
    {
        if self.message_expiry_interval.is_some() && self.expiry_started_at_ms.is_none() {
            self.expiry_started_at_ms = Some(now_ms);
        }
    }

    /// The seconds that the message still lives, where it has a limit.
    pub fn remaining_expiry(&self) -> (r: Option<u32>)
        ensures
            exists|now: u64| #[trigger] self@.remaining(now) == r,
    {
        let now: u64 = Self::now_ms();
        let r = self.remaining_expiry_at(now);
        assert(self@.remaining(now) == r);
        r
    }

    /// The seconds that the message still lives at the given time, where it has a limit.
    pub fn remaining_expiry_at(&self, now_ms: u64) -> (r: Option<u32>)
        ensures
            r == self@.remaining(now_ms),
    {
        let interval: u32 = match self.message_expiry_interval {
            Some(interval) => interval,
            None => {
                return None;
            },
        };
        let started: u64 = match self.expiry_started_at_ms {
            Some(started) => started,
            None => {
                return Some(interval);
            },
        };
        let elapsed_ms: u64 = now_ms.saturating_sub(started);
        if elapsed_ms >= interval as u64 * 1000 {
            return Some(0);
        }
        Some(interval - (elapsed_ms / 1000) as u32)
    }

    /// Whether the message is past its time now.
    pub fn is_expired(&self) -> (r: bool)
        ensures
            exists|now: u64| #[trigger] self@.expired(now) == r,
    {
        let now: u64 = Self::now_ms();
        let r = self.is_expired_at(now);
        assert(self@.expired(now) == r);
        r
    }

    /// Whether the message is past its time at the given time.
    pub fn is_expired_at(&self, now_ms: u64) -> (r: bool)
        ensures
            r == self@.expired(now_ms),
    {
        match self.remaining_expiry_at(now_ms) {
            Some(left) => left == 0,
            None => false,
        }
    }

    /// Whether there is no property.
    pub fn is_empty(&self) -> (r: bool)
        ensures
            r == self@.empty(),
    {
        self.payload_format_indicator.is_none() && self.message_expiry_interval.is_none()
            && self.content_type.is_none() && self.response_topic.is_none()
            && self.correlation_data.is_none() && self.user_properties.len() == 0
    }

    /// The properties of a PUBLISH that carries the message now.
    pub fn as_publish_properties(&self, subscription_identifier: Option<u32>) -> (r:
        PublishProperties<'_>)
        ensures
            exists|now: u64|
                #[trigger] self@.publish_properties(subscription_identifier, now) == r@,
    {
        let now: u64 = Self::now_ms();
        let r = self.as_publish_properties_at(subscription_identifier, now);
        assert(self@.publish_properties(subscription_identifier, now) == r@);
        r
    }

    /// The properties of a PUBLISH that carries the message at the given time.
    pub fn as_publish_properties_at(&self, subscription_identifier: Option<u32>, now_ms: u64) -> (r:
        PublishProperties<'_>)
        ensures
            r@ == self@.publish_properties(subscription_identifier, now_ms),
    {
        let mut user_properties: Vec<(&str, &str)> = Vec::new();
        let mut i: usize = 0;
        while i < self.user_properties.len()
            invariant
                i <= self.user_properties@.len(),
                user_properties@.len() == i,
                forall|k: int|
                    0 <= k < i ==> (#[trigger] user_properties@[k]).0@ == self.user_properties@[k].0@
                        && user_properties@[k].1@ == self.user_properties@[k].1@,
            decreases self.user_properties@.len() - i,
        {
            user_properties.push(
                (self.user_properties[i].0.as_str(), self.user_properties[i].1.as_str()),
            );
            i = i + 1;
        }
        let r = PublishProperties {
            payload_format_indicator: self.payload_format_indicator,
            message_expiry_interval: self.remaining_expiry_at(now_ms),
            content_type: match &self.content_type {
                Some(t) => Some(t.as_str()),
                None => None,
            },
            response_topic: match &self.response_topic {
                Some(t) => Some(t.as_str()),
                None => None,
            },
            correlation_data: match &self.correlation_data {
                Some(d) => Some(d.as_slice()),
                None => None,
            },
            subscription_identifier,
            topic_alias: None,
            user_properties,
        };
        proof {
            let want = self@.publish_properties(subscription_identifier, now_ms);
            assert(property::pairs_view(r.user_properties@) =~= self@.user_properties);
            assert forall|id: u8| #[trigger] r.value(id) == self@.publish_value(
                subscription_identifier,
                now_ms,
                id,
            ) by {}
            assert forall|id: u8| r@.values.contains_key(id) == want.values.contains_key(id) by {
                assert(r.value(id) == self@.publish_value(subscription_identifier, now_ms, id));
            }
            assert(r@ =~= want);
        }
        r
    }
}

impl Clone for ApplicationProperties {
    fn clone(&self) -> (r: Self)
        ensures
            r@ == self@,
    {
        let mut user_properties: Vec<(String, String)> = Vec::new();
        let mut i: usize = 0;
        while i < self.user_properties.len()
            invariant
                i <= self.user_properties@.len(),
                user_properties@.len() == i,
                forall|k: int|
                    0 <= k < i ==> #[trigger] user_properties@[k] == self.user_properties@[k],
            decreases self.user_properties@.len() - i,
        {
            user_properties.push(
                (self.user_properties[i].0.clone(), self.user_properties[i].1.clone()),
            );
            i = i + 1;
        }
        assert(user_properties@ =~= self.user_properties@);
        ApplicationProperties {
            payload_format_indicator: self.payload_format_indicator,
            message_expiry_interval: self.message_expiry_interval,
            expiry_started_at_ms: self.expiry_started_at_ms,
            content_type: clone_text(&self.content_type),
            response_topic: clone_text(&self.response_topic),
            correlation_data: match &self.correlation_data {
                Some(d) => Some(copy_bytes(d.as_slice())),
                None => None,
            },
            user_properties,
        }
    }
}

/// Copies owned text that may be absent.
pub fn clone_text(text: &Option<String>) -> (r: Option<String>)
    ensures
        string_opt(r) == string_opt(*text),
{
    match text {
        Some(t) => Some(t.clone()),
        None => None,
    }
}

/// What a PUBLISH says of its message when it is received at the given time.
pub open spec fn received(p: PublishProperties<'_>, now_ms: u64) -> ApplicationView {
    ApplicationView {
        payload_format_indicator: p.payload_format_indicator,
        message_expiry_interval: p.message_expiry_interval,
        expiry_started_at_ms: if p.message_expiry_interval is Some {
            Some(now_ms)
        } else {
            None
        },
        content_type: packet::text_opt(p.content_type),
        response_topic: packet::text_opt(p.response_topic),
        correlation_data: packet::bytes_opt(p.correlation_data),
        user_properties: property::pairs_view(p.user_properties@),
    }
}

/// PUBLISH properties of the same content have the same values.
pub proof fn lemma_same_publish_values(
    p: PublishProperties<'_>,
    q: PublishProperties<'_>,
    now_ms: u64,
)
    requires
        p@ == q@,
    ensures
        received(p, now_ms) == received(q, now_ms),
        p.topic_alias == q.topic_alias,
        p.subscription_identifier == q.subscription_identifier,
{
    assert forall|id: u8| id != 0x26 implies #[trigger] p.value(id) == q.value(id) by {
        assert(p@.values.contains_key(id) == q@.values.contains_key(id));
        assert(p@.values.contains_key(id) == (p.value(id) is Some));
        assert(q@.values.contains_key(id) == (q.value(id) is Some));
        if p.value(id) is Some {
            assert(p@.values[id] == p.value(id)->0);
            assert(q@.values[id] == q.value(id)->0);
        }
    }
    assert(p.value(0x01) == q.value(0x01));
    assert(p.value(0x02) == q.value(0x02));
    assert(p.value(0x03) == q.value(0x03));
    assert(p.value(0x08) == q.value(0x08));
    assert(p.value(0x09) == q.value(0x09));
    assert(p.value(0x0B) == q.value(0x0B));
    assert(p.value(0x23) == q.value(0x23));
    assert(p@.user == q@.user);
}

/// The properties once their expiry counts.
pub open spec fn started(p: ApplicationView, now_ms: u64) -> ApplicationView {
    if p.message_expiry_interval is Some && p.expiry_started_at_ms is None {
        ApplicationView { expiry_started_at_ms: Some(now_ms), ..p }
    } else {
        p
    }
}

/// A message never lives longer than its interval, and the time it has left never grows.
pub proof fn law_expiry_counts_down(p: ApplicationView, earlier: u64, later: u64)
    requires
        earlier <= later,
    ensures
        match (p.message_expiry_interval, p.remaining(earlier), p.remaining(later)) {
            (Some(interval), Some(before), Some(after)) => after <= before <= interval,
            (None, None, None) => true,
            _ => false,
        },
        p.expired(earlier) ==> p.expired(later),
{
}

/// A message whose expiry counts since `started` is past its time exactly when its interval has
/// gone by.
pub proof fn law_expired_after_interval(p: ApplicationView, interval: u32, started: u64, now_ms: u64)
    requires
        p.message_expiry_interval == Some(interval),
        p.expiry_started_at_ms == Some(started),
    ensures
        p.expired(now_ms) <==> interval == 0 || now_ms >= started + interval * 1000,
{
}

/// What a message says of itself reaches its receivers as it was published, whenever that is: the
/// format of its payload, its content type, its response topic, its correlation data, and its user
/// properties in their order, each as often as it occurs. Its expiry interval becomes what is left
/// of it, and its topic alias stays with the connection it came from.
pub proof fn law_properties_are_kept(
    p: PublishProperties<'_>,
    received_ms: u64,
    sent_ms: u64,
    subscription_identifier: Option<u32>,
)
    ensures
        ({
            let out = received(p, received_ms).publish_properties(subscription_identifier, sent_ms);
            &&& out.user == p@.user
            &&& forall|id: u8|
                id == 0x01 || id == 0x03 || id == 0x08 || id == 0x09 ==> (
                #[trigger] out.values.contains_key(id) == p@.values.contains_key(id) && (
                out.values.contains_key(id) ==> out.values[id] == p@.values[id]))
            &&& out.values.contains_key(0x02) == p@.values.contains_key(0x02)
            &&& out.values.contains_key(0x02) ==> out.values[0x02] == ValueView::Four(
                seconds_left(p.message_expiry_interval->0, Some(received_ms), sent_ms),
            )
            &&& !out.values.contains_key(0x23)
        }),
{
}

/// What is received of a message is what the properties of its PUBLISH say, each where it is there;
/// its expiry counts from when it is received, where there is one.
pub proof fn law_received_properties(p: PublishProperties<'_>, now_ms: u64)
    ensures
        ({
            let m = received(p, now_ms);
            let said = p@.values;
            &&& m.user_properties == p@.user
            &&& match m.payload_format_indicator {
                Some(v) => said.contains_key(0x01) && said[0x01] == ValueView::Byte(v),
                None => !said.contains_key(0x01),
            }
            &&& match m.message_expiry_interval {
                Some(v) => said.contains_key(0x02) && said[0x02] == ValueView::Four(v)
                    && m.expiry_started_at_ms == Some(now_ms),
                None => !said.contains_key(0x02) && m.expiry_started_at_ms is None,
            }
            &&& match m.content_type {
                Some(v) => said.contains_key(0x03) && said[0x03] == ValueView::Text(v),
                None => !said.contains_key(0x03),
            }
            &&& match m.response_topic {
                Some(v) => said.contains_key(0x08) && said[0x08] == ValueView::Text(v),
                None => !said.contains_key(0x08),
            }
            &&& match m.correlation_data {
                Some(v) => said.contains_key(0x09) && said[0x09] == ValueView::Binary(v),
                None => !said.contains_key(0x09),
            }
        }),
{
    assert(p.value(0x01) is Some == p@.values.contains_key(0x01));
    assert(p.value(0x02) is Some == p@.values.contains_key(0x02));
    assert(p.value(0x03) is Some == p@.values.contains_key(0x03));
    assert(p.value(0x08) is Some == p@.values.contains_key(0x08));
    assert(p.value(0x09) is Some == p@.values.contains_key(0x09));
}

/// The expiry of a message begins to count once: from a time on where it did not count, and it is
/// not begun again. Nothing else of the message changes.
pub proof fn law_expiry_begins_once(p: ApplicationView, now_ms: u64, later: u64)
    ensures
        ({
            let begun = started(p, now_ms);
            &&& begun == (ApplicationView {
                expiry_started_at_ms: begun.expiry_started_at_ms,
                ..p
            })
            &&& p.message_expiry_interval is None || p.expiry_started_at_ms is Some
                ==> begun.expiry_started_at_ms == p.expiry_started_at_ms
            &&& p.message_expiry_interval is Some && p.expiry_started_at_ms is None
                ==> begun.expiry_started_at_ms == Some(now_ms)
            &&& started(begun, later) == begun
        }),
{
}

} // verus!
