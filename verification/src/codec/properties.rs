//! The properties of each kind of packet as a struct of optional fields.

use vstd::prelude::*;
use crate::codec::property;
use crate::codec::property::{
    read_properties, write_properties, PropertiesView, Property, PropertySet, PropertyValue, ValueView,
};
use crate::codec::wire::CodecError;

verus! {

/// The entries of user properties.
pub open spec fn user_items(user: Seq<(Seq<char>, Seq<char>)>) -> Seq<(u8, ValueView)> {
    Seq::new(user.len(), |i: int| (0x26u8, ValueView::Pair(user[i].0, user[i].1)))
}

/// What the item with identifier `id` adds to a list that says what `p` says.
pub open spec fn items(p: PropertiesView, id: u8) -> Seq<(u8, ValueView)> {
    if id == 0x26 {
        user_items(p.user)
    } else if p.values.contains_key(id) {
        seq![(id, p.values[id])]
    } else {
        Seq::empty()
    }
}

/// The list that says what `p` says, in the given order of identifiers.
pub open spec fn listed(p: PropertiesView, order: Seq<u8>) -> Seq<(u8, ValueView)>
    decreases order.len(),
{
    if order.len() == 0 {
        Seq::empty()
    } else {
        listed(p, order.drop_last()) + items(p, order.last())
    }
}

/// The order in which the properties of a packet are written.
pub open spec fn order(set: PropertySet) -> Seq<u8> {
    match set {
        PropertySet::Connect => seq![0x11u8, 0x21, 0x27, 0x22, 0x19, 0x17, 0x26, 0x15, 0x16],
        PropertySet::Will => seq![0x18u8, 0x01, 0x02, 0x03, 0x08, 0x09, 0x26],
        PropertySet::ConnAck => seq![0x11u8, 0x21, 0x24, 0x25, 0x27, 0x12, 0x22, 0x1F, 0x26, 0x28, 0x29, 0x2A, 0x13, 0x1A, 0x1C, 0x15, 0x16],
        PropertySet::Publish => seq![0x01u8, 0x02, 0x03, 0x08, 0x09, 0x0B, 0x23, 0x26],
        PropertySet::Ack => seq![0x1Fu8, 0x26],
        PropertySet::Subscribe => seq![0x0Bu8, 0x26],
        PropertySet::Unsubscribe => seq![0x26u8],
        PropertySet::Disconnect => seq![0x11u8, 0x1F, 0x26, 0x1C],
    }
}

/// The property block of a packet of the given family.
#[verifier::opaque]
pub open spec fn properties_bytes(set: PropertySet, p: PropertiesView) -> Seq<u8> {
    property::block_bytes(listed(p, order(set)))
}

/// Where the property with identifier `id` is present, its value; as one entry of a list that is
/// being written.
fn put<'a>(
    list: &mut Vec<Property<'a>>,
    id: u8,
    value: Option<PropertyValue<'a>>,
    Ghost(p): Ghost<PropertiesView>,
    Ghost(ids): Ghost<Seq<u8>>,
    Ghost(done): Ghost<int>,
)
    requires
        0 <= done < ids.len(),
        ids[done] == id,
        id != 0x26,
        property::list_view(old(list)@) == listed(p, ids.take(done)),
        value is Some <==> p.values.contains_key(id),
        value matches Some(v) ==> p.values[id] == v@,
    ensures
        property::list_view(final(list)@) == listed(p, ids.take(done + 1)),
{
    assert(ids.take(done + 1).drop_last() =~= ids.take(done));
    let ghost before = property::list_view(list@);
    if let Some(value) = value {
        list.push(Property { id, value });
        assert(property::list_view(list@) =~= before + seq![(id, value@)]);
    } else {
        assert(before + Seq::<(u8, ValueView)>::empty() =~= before);
    }
}

/// Adds the user properties to a list that is being written.
fn put_user<'a>(
    list: &mut Vec<Property<'a>>,
    pairs: &Vec<(&'a str, &'a str)>,
    Ghost(p): Ghost<PropertiesView>,
    Ghost(ids): Ghost<Seq<u8>>,
    Ghost(done): Ghost<int>,
)
    requires
        0 <= done < ids.len(),
        ids[done] == 0x26,
        property::list_view(old(list)@) == listed(p, ids.take(done)),
        p.user == property::pairs_view(pairs@),
    ensures
        property::list_view(final(list)@) == listed(p, ids.take(done + 1)),
{
    let ghost before = property::list_view(list@);
    let mut i: usize = 0;
    while i < pairs.len()
        invariant
            i <= pairs@.len(),
            p.user == property::pairs_view(pairs@),
            property::list_view(list@) == before + items(p, 0x26).take(i as int),
        decreases pairs@.len() - i,
    {
        let ghost so_far = property::list_view(list@);
        let (key, value) = pairs[i];
        list.push(Property { id: 0x26, value: PropertyValue::Pair(key, value) });
        proof {
            assert(property::list_view(list@) =~= so_far.push((0x26u8, ValueView::Pair(key@, value@))));
            assert(items(p, 0x26).take(i + 1) =~= items(p, 0x26).take(i as int).push(
                (0x26u8, ValueView::Pair(key@, value@)),
            ));
        }
        i = i + 1;
    }
    assert(items(p, 0x26).take(pairs@.len() as int) =~= items(p, 0x26));
    assert(ids.take(done + 1).drop_last() =~= ids.take(done));
}

/// What `before` comes to when one more property is read: the last value counts.
proof fn lemma_read_one(list: Seq<(u8, ValueView)>, i: int)
    requires
        0 <= i < list.len(),
    ensures
        forall|id: u8|
            property::last_value(list.take(i + 1), id) == (if id == list[i].0 {
                Some(list[i].1)
            } else {
                property::last_value(list.take(i), id)
            }),
        property::user_pairs(list.take(i + 1)) == (match list[i].1 {
            ValueView::Pair(k, v) => property::user_pairs(list.take(i)).push((k, v)),
            _ => property::user_pairs(list.take(i)),
        }),
{
    assert(list.take(i + 1).drop_last() =~= list.take(i));
    assert(list.take(i + 1).last() == list[i]);
}

/// The properties of a CONNECT packet.
#[derive(Debug, PartialEq, Eq)]
pub struct ConnectProperties<'a> {
    /// How long the session outlives the connection, in seconds.
    pub session_expiry_interval: Option<u32>,
    /// How many unacknowledged messages the client accepts at a time.
    pub receive_maximum: Option<u16>,
    /// The largest packet the client accepts, in bytes.
    pub max_packet_size: Option<u32>,
    /// The largest topic alias the client accepts.
    pub topic_alias_maximum: Option<u16>,
    /// Whether the client asks for response information.
    pub request_response_info: Option<u8>,
    /// Whether the client asks for reason strings.
    pub request_problem_info: Option<u8>,
    /// The user properties, in order.
    pub user_properties: Vec<(&'a str, &'a str)>,
    /// The name of the authentication method.
    pub auth_method: Option<&'a str>,
    /// The data of the authentication method.
    pub auth_data: Option<&'a [u8]>,
}

impl<'a> ConnectProperties<'a> {
    /// The value of property `id`, where it is present; user properties aside.
    pub open spec fn value(&self, id: u8) -> Option<ValueView> {
        if id == 0x11 {
            match self.session_expiry_interval {
                Some(v) => Some(ValueView::Four(v)),
                None => None,
            }
        } else if id == 0x21 {
            match self.receive_maximum {
                Some(v) => Some(ValueView::Two(v)),
                None => None,
            }
        } else if id == 0x27 {
            match self.max_packet_size {
                Some(v) => Some(ValueView::Four(v)),
                None => None,
            }
        } else if id == 0x22 {
            match self.topic_alias_maximum {
                Some(v) => Some(ValueView::Two(v)),
                None => None,
            }
        } else if id == 0x19 {
            match self.request_response_info {
                Some(v) => Some(ValueView::Byte(v)),
                None => None,
            }
        } else if id == 0x17 {
            match self.request_problem_info {
                Some(v) => Some(ValueView::Byte(v)),
                None => None,
            }
        } else if id == 0x15 {
            match self.auth_method {
                Some(v) => Some(ValueView::Text(v@)),
                None => None,
            }
        } else if id == 0x16 {
            match self.auth_data {
                Some(v) => Some(ValueView::Binary(v@)),
                None => None,
            }
        } else {
            None
        }
    }

    /// Reads a property block; where no byte is left every field is absent. Where a property
    /// occurs more than once the last value counts.
    pub fn decode(buf: &mut &'a [u8]) -> (r: Result<Self, CodecError>)
        ensures
            match property::take_properties(PropertySet::Connect, old(buf)@) {
                Ok((list, rest)) => r is Ok && r->Ok_0@ == property::meaning(list) && final(buf)@
                    == rest,
                Err(e) => r == Err::<Self, CodecError>(e),
            },
    {
        let list = read_properties(PropertySet::Connect, buf)?;
        let ghost all = property::list_view(list@);
        let mut props = ConnectProperties::default();
        let mut i: usize = 0;
        while i < list.len()
            invariant
                i <= list@.len(),
                all == property::list_view(list@),
                property::well_typed(PropertySet::Connect, all),
                forall|id: u8|
                    id != 0x26 ==> #[trigger] props.value(id) == property::last_value(
                        all.take(i as int),
                        id,
                    ),
                property::pairs_view(props.user_properties@) == property::user_pairs(
                    all.take(i as int),
                ),
            decreases list@.len() - i,
        {
            let ghost before = props;
            let ghost p = all[i as int];
            proof {
                assert(p == list@[i as int]@);
                lemma_read_one(all, i as int);
                assert forall|id: u8| id != 0x26 implies #[trigger] before.value(id)
                    == property::last_value(all.take(i as int), id) by {}
            }
            match (list[i].id, list[i].value) {
                (0x11, PropertyValue::Four(v)) => props.session_expiry_interval = Some(v),
                (0x21, PropertyValue::Two(v)) => props.receive_maximum = Some(v),
                (0x27, PropertyValue::Four(v)) => props.max_packet_size = Some(v),
                (0x22, PropertyValue::Two(v)) => props.topic_alias_maximum = Some(v),
                (0x19, PropertyValue::Byte(v)) => props.request_response_info = Some(v),
                (0x17, PropertyValue::Byte(v)) => props.request_problem_info = Some(v),
                (0x26, PropertyValue::Pair(key, value)) => {
                    props.user_properties.push((key, value));
                    assert(property::pairs_view(props.user_properties@) =~= property::pairs_view(
                        before.user_properties@,
                    ).push((key@, value@)));
                },
                (0x15, PropertyValue::Text(v)) => props.auth_method = Some(v),
                (0x16, PropertyValue::Binary(v)) => props.auth_data = Some(v),
                _ => {},
            }
            assert forall|id: u8| id != 0x26 implies #[trigger] props.value(id)
                == property::last_value(all.take(i + 1), id) by {
                assert(before.value(id) == property::last_value(all.take(i as int), id));
            }
            i = i + 1;
        }
        proof {
            assert(all.take(list@.len() as int) =~= all);
            assert forall|id: u8|
                props@.values.contains_key(id) <==> property::meaning(all).values.contains_key(
                    id,
                ) by {
                assert(props.value(id) == props.value(id));
            }
            assert(props@ =~= property::meaning(all));
        }
        Ok(props)
    }

    /// Appends the property block that holds the fields that are present.
    pub fn encode(&self, buf: &mut Vec<u8>)
        ensures
            final(buf)@ == old(buf)@ + properties_bytes(PropertySet::Connect, self@),
    {
        let mut list: Vec<Property<'a>> = Vec::new();
        let ghost ids = order(PropertySet::Connect);
        assert(property::list_view(list@) =~= listed(self@, ids.take(0)));
        let v = match self.session_expiry_interval {
            Some(v) => Some(PropertyValue::Four(v)),
            None => None,
        };
        put(&mut list, 0x11, v, Ghost(self@), Ghost(ids), Ghost(0));
        let v = match self.receive_maximum {
            Some(v) => Some(PropertyValue::Two(v)),
            None => None,
        };
        put(&mut list, 0x21, v, Ghost(self@), Ghost(ids), Ghost(1));
        let v = match self.max_packet_size {
            Some(v) => Some(PropertyValue::Four(v)),
            None => None,
        };
        put(&mut list, 0x27, v, Ghost(self@), Ghost(ids), Ghost(2));
        let v = match self.topic_alias_maximum {
            Some(v) => Some(PropertyValue::Two(v)),
            None => None,
        };
        put(&mut list, 0x22, v, Ghost(self@), Ghost(ids), Ghost(3));
        let v = match self.request_response_info {
            Some(v) => Some(PropertyValue::Byte(v)),
            None => None,
        };
        put(&mut list, 0x19, v, Ghost(self@), Ghost(ids), Ghost(4));
        let v = match self.request_problem_info {
            Some(v) => Some(PropertyValue::Byte(v)),
            None => None,
        };
        put(&mut list, 0x17, v, Ghost(self@), Ghost(ids), Ghost(5));
        put_user(&mut list, &self.user_properties, Ghost(self@), Ghost(ids), Ghost(6));
        let v = match self.auth_method {
            Some(v) => Some(PropertyValue::Text(v)),
            None => None,
        };
        put(&mut list, 0x15, v, Ghost(self@), Ghost(ids), Ghost(7));
        let v = match self.auth_data {
            Some(v) => Some(PropertyValue::Binary(v)),
            None => None,
        };
        put(&mut list, 0x16, v, Ghost(self@), Ghost(ids), Ghost(8));
        assert(ids.take(9) =~= ids);
        write_properties(&list, buf);
        reveal(properties_bytes);
    }
}

impl<'a> View for ConnectProperties<'a> {
    type V = PropertiesView;

    open spec fn view(&self) -> PropertiesView {
        PropertiesView {
            values: Map::new(
                |id: u8| id != 0x26 && self.value(id) is Some,
                |id: u8| self.value(id)->0,
            ),
            user: property::pairs_view(self.user_properties@),
        }
    }
}

impl<'a> Default for ConnectProperties<'a> {
    /// No property at all.
    fn default() -> (r: Self)
        ensures
            r@ == property::meaning(Seq::empty()),
            forall|id: u8| #[trigger] r.value(id) is None,
            r.user_properties@.len() == 0,
    {
        let r = ConnectProperties {
            session_expiry_interval: None,
            receive_maximum: None,
            max_packet_size: None,
            topic_alias_maximum: None,
            request_response_info: None,
            request_problem_info: None,
            user_properties: Vec::new(),
            auth_method: None,
            auth_data: None,
        };
        assert(r@ =~= property::meaning(Seq::empty()));
        r
    }
}

/// The properties of a Will.
#[derive(Debug, PartialEq, Eq)]
pub struct WillProperties<'a> {
    /// How long the Will waits after the connection is gone, in seconds.
    pub will_delay_interval: Option<u32>,
    /// Whether the payload is UTF-8 text.
    pub payload_format_indicator: Option<u8>,
    /// How long the message lives, in seconds.
    pub message_expiry_interval: Option<u32>,
    /// What the payload holds.
    pub content_type: Option<&'a str>,
    /// Where a response is to be published.
    pub response_topic: Option<&'a str>,
    /// By which data the response is matched.
    pub correlation_data: Option<&'a [u8]>,
    /// The user properties, in order.
    pub user_properties: Vec<(&'a str, &'a str)>,
}

impl<'a> WillProperties<'a> {
    /// The value of property `id`, where it is present; user properties aside.
    pub open spec fn value(&self, id: u8) -> Option<ValueView> {
        if id == 0x18 {
            match self.will_delay_interval {
                Some(v) => Some(ValueView::Four(v)),
                None => None,
            }
        } else if id == 0x01 {
            match self.payload_format_indicator {
                Some(v) => Some(ValueView::Byte(v)),
                None => None,
            }
        } else if id == 0x02 {
            match self.message_expiry_interval {
                Some(v) => Some(ValueView::Four(v)),
                None => None,
            }
        } else if id == 0x03 {
            match self.content_type {
                Some(v) => Some(ValueView::Text(v@)),
                None => None,
            }
        } else if id == 0x08 {
            match self.response_topic {
                Some(v) => Some(ValueView::Text(v@)),
                None => None,
            }
        } else if id == 0x09 {
            match self.correlation_data {
                Some(v) => Some(ValueView::Binary(v@)),
                None => None,
            }
        } else {
            None
        }
    }

    /// Reads a property block; where no byte is left every field is absent. Where a property
    /// occurs more than once the last value counts.
    pub fn decode(buf: &mut &'a [u8]) -> (r: Result<Self, CodecError>)
        ensures
            match property::take_properties(PropertySet::Will, old(buf)@) {
                Ok((list, rest)) => r is Ok && r->Ok_0@ == property::meaning(list) && final(buf)@
                    == rest,
                Err(e) => r == Err::<Self, CodecError>(e),
            },
    {
        let list = read_properties(PropertySet::Will, buf)?;
        let ghost all = property::list_view(list@);
        let mut props = WillProperties::default();
        let mut i: usize = 0;
        while i < list.len()
            invariant
                i <= list@.len(),
                all == property::list_view(list@),
                property::well_typed(PropertySet::Will, all),
                forall|id: u8|
                    id != 0x26 ==> #[trigger] props.value(id) == property::last_value(
                        all.take(i as int),
                        id,
                    ),
                property::pairs_view(props.user_properties@) == property::user_pairs(
                    all.take(i as int),
                ),
            decreases list@.len() - i,
        {
            let ghost before = props;
            let ghost p = all[i as int];
            proof {
                assert(p == list@[i as int]@);
                lemma_read_one(all, i as int);
                assert forall|id: u8| id != 0x26 implies #[trigger] before.value(id)
                    == property::last_value(all.take(i as int), id) by {}
            }
            match (list[i].id, list[i].value) {
                (0x18, PropertyValue::Four(v)) => props.will_delay_interval = Some(v),
                (0x01, PropertyValue::Byte(v)) => props.payload_format_indicator = Some(v),
                (0x02, PropertyValue::Four(v)) => props.message_expiry_interval = Some(v),
                (0x03, PropertyValue::Text(v)) => props.content_type = Some(v),
                (0x08, PropertyValue::Text(v)) => props.response_topic = Some(v),
                (0x09, PropertyValue::Binary(v)) => props.correlation_data = Some(v),
                (0x26, PropertyValue::Pair(key, value)) => {
                    props.user_properties.push((key, value));
                    assert(property::pairs_view(props.user_properties@) =~= property::pairs_view(
                        before.user_properties@,
                    ).push((key@, value@)));
                },
                _ => {},
            }
            assert forall|id: u8| id != 0x26 implies #[trigger] props.value(id)
                == property::last_value(all.take(i + 1), id) by {
                assert(before.value(id) == property::last_value(all.take(i as int), id));
            }
            i = i + 1;
        }
        proof {
            assert(all.take(list@.len() as int) =~= all);
            assert forall|id: u8|
                props@.values.contains_key(id) <==> property::meaning(all).values.contains_key(
                    id,
                ) by {
                assert(props.value(id) == props.value(id));
            }
            assert(props@ =~= property::meaning(all));
        }
        Ok(props)
    }

    /// Appends the property block that holds the fields that are present.
    pub fn encode(&self, buf: &mut Vec<u8>)
        ensures
            final(buf)@ == old(buf)@ + properties_bytes(PropertySet::Will, self@),
    {
        let mut list: Vec<Property<'a>> = Vec::new();
        let ghost ids = order(PropertySet::Will);
        assert(property::list_view(list@) =~= listed(self@, ids.take(0)));
        let v = match self.will_delay_interval {
            Some(v) => Some(PropertyValue::Four(v)),
            None => None,
        };
        put(&mut list, 0x18, v, Ghost(self@), Ghost(ids), Ghost(0));
        let v = match self.payload_format_indicator {
            Some(v) => Some(PropertyValue::Byte(v)),
            None => None,
        };
        put(&mut list, 0x01, v, Ghost(self@), Ghost(ids), Ghost(1));
        let v = match self.message_expiry_interval {
            Some(v) => Some(PropertyValue::Four(v)),
            None => None,
        };
        put(&mut list, 0x02, v, Ghost(self@), Ghost(ids), Ghost(2));
        let v = match self.content_type {
            Some(v) => Some(PropertyValue::Text(v)),
            None => None,
        };
        put(&mut list, 0x03, v, Ghost(self@), Ghost(ids), Ghost(3));
        let v = match self.response_topic {
            Some(v) => Some(PropertyValue::Text(v)),
            None => None,
        };
        put(&mut list, 0x08, v, Ghost(self@), Ghost(ids), Ghost(4));
        let v = match self.correlation_data {
            Some(v) => Some(PropertyValue::Binary(v)),
            None => None,
        };
        put(&mut list, 0x09, v, Ghost(self@), Ghost(ids), Ghost(5));
        put_user(&mut list, &self.user_properties, Ghost(self@), Ghost(ids), Ghost(6));
        assert(ids.take(7) =~= ids);
        write_properties(&list, buf);
        reveal(properties_bytes);
    }
}

impl<'a> View for WillProperties<'a> {
    type V = PropertiesView;

    open spec fn view(&self) -> PropertiesView {
        PropertiesView {
            values: Map::new(
                |id: u8| id != 0x26 && self.value(id) is Some,
                |id: u8| self.value(id)->0,
            ),
            user: property::pairs_view(self.user_properties@),
        }
    }
}

impl<'a> Default for WillProperties<'a> {
    /// No property at all.
    fn default() -> (r: Self)
        ensures
            r@ == property::meaning(Seq::empty()),
            forall|id: u8| #[trigger] r.value(id) is None,
            r.user_properties@.len() == 0,
    {
        let r = WillProperties {
            will_delay_interval: None,
            payload_format_indicator: None,
            message_expiry_interval: None,
            content_type: None,
            response_topic: None,
            correlation_data: None,
            user_properties: Vec::new(),
        };
        assert(r@ =~= property::meaning(Seq::empty()));
        r
    }
}

/// The properties of a CONNACK packet.
#[derive(Debug, PartialEq, Eq)]
pub struct ConnAckProperties<'a> {
    /// The session expiry interval that the server uses.
    pub session_expiry_interval: Option<u32>,
    /// How many unacknowledged messages the server accepts at a time.
    pub receive_maximum: Option<u16>,
    /// The highest quality of service the server supports.
    pub max_qos: Option<u8>,
    /// Whether the server keeps retained messages.
    pub retain_available: Option<u8>,
    /// The largest packet the server accepts, in bytes.
    pub maximum_packet_size: Option<u32>,
    /// The client identifier that the server assigned.
    pub assigned_client_identifier: Option<&'a str>,
    /// The largest topic alias the server accepts.
    pub topic_alias_maximum: Option<u16>,
    /// The reason in words.
    pub reason_string: Option<&'a str>,
    /// The user properties, in order.
    pub user_properties: Vec<(&'a str, &'a str)>,
    /// Whether the server supports wildcard subscriptions.
    pub wildcard_subscription_available: Option<u8>,
    /// Whether the server supports subscription identifiers.
    pub subscription_identifiers_available: Option<u8>,
    /// Whether the server supports shared subscriptions.
    pub shared_subscription_available: Option<u8>,
    /// The keep-alive that the server asks for.
    pub server_keep_alive: Option<u16>,
    /// The basis of a response topic.
    pub response_information: Option<&'a str>,
    /// Another server to use.
    pub server_reference: Option<&'a str>,
    /// The name of the authentication method.
    pub authentication_method: Option<&'a str>,
    /// The data of the authentication method.
    pub authentication_data: Option<&'a [u8]>,
}

impl<'a> ConnAckProperties<'a> {
    /// The value of property `id`, where it is present; user properties aside.
    pub open spec fn value(&self, id: u8) -> Option<ValueView> {
        if id == 0x11 {
            match self.session_expiry_interval {
                Some(v) => Some(ValueView::Four(v)),
                None => None,
            }
        } else if id == 0x21 {
            match self.receive_maximum {
                Some(v) => Some(ValueView::Two(v)),
                None => None,
            }
        } else if id == 0x24 {
            match self.max_qos {
                Some(v) => Some(ValueView::Byte(v)),
                None => None,
            }
        } else if id == 0x25 {
            match self.retain_available {
                Some(v) => Some(ValueView::Byte(v)),
                None => None,
            }
        } else if id == 0x27 {
            match self.maximum_packet_size {
                Some(v) => Some(ValueView::Four(v)),
                None => None,
            }
        } else if id == 0x12 {
            match self.assigned_client_identifier {
                Some(v) => Some(ValueView::Text(v@)),
                None => None,
            }
        } else if id == 0x22 {
            match self.topic_alias_maximum {
                Some(v) => Some(ValueView::Two(v)),
                None => None,
            }
        } else if id == 0x1F {
            match self.reason_string {
                Some(v) => Some(ValueView::Text(v@)),
                None => None,
            }
        } else if id == 0x28 {
            match self.wildcard_subscription_available {
                Some(v) => Some(ValueView::Byte(v)),
                None => None,
            }
        } else if id == 0x29 {
            match self.subscription_identifiers_available {
                Some(v) => Some(ValueView::Byte(v)),
                None => None,
            }
        } else if id == 0x2A {
            match self.shared_subscription_available {
                Some(v) => Some(ValueView::Byte(v)),
                None => None,
            }
        } else if id == 0x13 {
            match self.server_keep_alive {
                Some(v) => Some(ValueView::Two(v)),
                None => None,
            }
        } else if id == 0x1A {
            match self.response_information {
                Some(v) => Some(ValueView::Text(v@)),
                None => None,
            }
        } else if id == 0x1C {
            match self.server_reference {
                Some(v) => Some(ValueView::Text(v@)),
                None => None,
            }
        } else if id == 0x15 {
            match self.authentication_method {
                Some(v) => Some(ValueView::Text(v@)),
                None => None,
            }
        } else if id == 0x16 {
            match self.authentication_data {
                Some(v) => Some(ValueView::Binary(v@)),
                None => None,
            }
        } else {
            None
        }
    }

    /// Reads a property block; where no byte is left every field is absent. Where a property
    /// occurs more than once the last value counts.
    pub fn decode(buf: &mut &'a [u8]) -> (r: Result<Self, CodecError>)
        ensures
            match property::take_properties(PropertySet::ConnAck, old(buf)@) {
                Ok((list, rest)) => r is Ok && r->Ok_0@ == property::meaning(list) && final(buf)@
                    == rest,
                Err(e) => r == Err::<Self, CodecError>(e),
            },
    {
        let list = read_properties(PropertySet::ConnAck, buf)?;
        let ghost all = property::list_view(list@);
        let mut props = ConnAckProperties::default();
        let mut i: usize = 0;
        while i < list.len()
            invariant
                i <= list@.len(),
                all == property::list_view(list@),
                property::well_typed(PropertySet::ConnAck, all),
                forall|id: u8|
                    id != 0x26 ==> #[trigger] props.value(id) == property::last_value(
                        all.take(i as int),
                        id,
                    ),
                property::pairs_view(props.user_properties@) == property::user_pairs(
                    all.take(i as int),
                ),
            decreases list@.len() - i,
        {
            let ghost before = props;
            let ghost p = all[i as int];
            proof {
                assert(p == list@[i as int]@);
                lemma_read_one(all, i as int);
                assert forall|id: u8| id != 0x26 implies #[trigger] before.value(id)
                    == property::last_value(all.take(i as int), id) by {}
            }
            match (list[i].id, list[i].value) {
                (0x11, PropertyValue::Four(v)) => props.session_expiry_interval = Some(v),
                (0x21, PropertyValue::Two(v)) => props.receive_maximum = Some(v),
                (0x24, PropertyValue::Byte(v)) => props.max_qos = Some(v),
                (0x25, PropertyValue::Byte(v)) => props.retain_available = Some(v),
                (0x27, PropertyValue::Four(v)) => props.maximum_packet_size = Some(v),
                (0x12, PropertyValue::Text(v)) => props.assigned_client_identifier = Some(v),
                (0x22, PropertyValue::Two(v)) => props.topic_alias_maximum = Some(v),
                (0x1F, PropertyValue::Text(v)) => props.reason_string = Some(v),
                (0x26, PropertyValue::Pair(key, value)) => {
                    props.user_properties.push((key, value));
                    assert(property::pairs_view(props.user_properties@) =~= property::pairs_view(
                        before.user_properties@,
                    ).push((key@, value@)));
                },
                (0x28, PropertyValue::Byte(v)) => props.wildcard_subscription_available = Some(v),
                (0x29, PropertyValue::Byte(v)) => props.subscription_identifiers_available = Some(v),
                (0x2A, PropertyValue::Byte(v)) => props.shared_subscription_available = Some(v),
                (0x13, PropertyValue::Two(v)) => props.server_keep_alive = Some(v),
                (0x1A, PropertyValue::Text(v)) => props.response_information = Some(v),
                (0x1C, PropertyValue::Text(v)) => props.server_reference = Some(v),
                (0x15, PropertyValue::Text(v)) => props.authentication_method = Some(v),
                (0x16, PropertyValue::Binary(v)) => props.authentication_data = Some(v),
                _ => {},
            }
            assert forall|id: u8| id != 0x26 implies #[trigger] props.value(id)
                == property::last_value(all.take(i + 1), id) by {
                assert(before.value(id) == property::last_value(all.take(i as int), id));
            }
            i = i + 1;
        }
        proof {
            assert(all.take(list@.len() as int) =~= all);
            assert forall|id: u8|
                props@.values.contains_key(id) <==> property::meaning(all).values.contains_key(
                    id,
                ) by {
                assert(props.value(id) == props.value(id));
            }
            assert(props@ =~= property::meaning(all));
        }
        Ok(props)
    }

    /// Appends the property block that holds the fields that are present.
    pub fn encode(&self, buf: &mut Vec<u8>)
        ensures
            final(buf)@ == old(buf)@ + properties_bytes(PropertySet::ConnAck, self@),
    {
        let mut list: Vec<Property<'a>> = Vec::new();
        let ghost ids = order(PropertySet::ConnAck);
        assert(property::list_view(list@) =~= listed(self@, ids.take(0)));
        let v = match self.session_expiry_interval {
            Some(v) => Some(PropertyValue::Four(v)),
            None => None,
        };
        put(&mut list, 0x11, v, Ghost(self@), Ghost(ids), Ghost(0));
        let v = match self.receive_maximum {
            Some(v) => Some(PropertyValue::Two(v)),
            None => None,
        };
        put(&mut list, 0x21, v, Ghost(self@), Ghost(ids), Ghost(1));
        let v = match self.max_qos {
            Some(v) => Some(PropertyValue::Byte(v)),
            None => None,
        };
        put(&mut list, 0x24, v, Ghost(self@), Ghost(ids), Ghost(2));
        let v = match self.retain_available {
            Some(v) => Some(PropertyValue::Byte(v)),
            None => None,
        };
        put(&mut list, 0x25, v, Ghost(self@), Ghost(ids), Ghost(3));
        let v = match self.maximum_packet_size {
            Some(v) => Some(PropertyValue::Four(v)),
            None => None,
        };
        put(&mut list, 0x27, v, Ghost(self@), Ghost(ids), Ghost(4));
        let v = match self.assigned_client_identifier {
            Some(v) => Some(PropertyValue::Text(v)),
            None => None,
        };
        put(&mut list, 0x12, v, Ghost(self@), Ghost(ids), Ghost(5));
        let v = match self.topic_alias_maximum {
            Some(v) => Some(PropertyValue::Two(v)),
            None => None,
        };
        put(&mut list, 0x22, v, Ghost(self@), Ghost(ids), Ghost(6));
        let v = match self.reason_string {
            Some(v) => Some(PropertyValue::Text(v)),
            None => None,
        };
        put(&mut list, 0x1F, v, Ghost(self@), Ghost(ids), Ghost(7));
        put_user(&mut list, &self.user_properties, Ghost(self@), Ghost(ids), Ghost(8));
        let v = match self.wildcard_subscription_available {
            Some(v) => Some(PropertyValue::Byte(v)),
            None => None,
        };
        put(&mut list, 0x28, v, Ghost(self@), Ghost(ids), Ghost(9));
        let v = match self.subscription_identifiers_available {
            Some(v) => Some(PropertyValue::Byte(v)),
            None => None,
        };
        put(&mut list, 0x29, v, Ghost(self@), Ghost(ids), Ghost(10));
        let v = match self.shared_subscription_available {
            Some(v) => Some(PropertyValue::Byte(v)),
            None => None,
        };
        put(&mut list, 0x2A, v, Ghost(self@), Ghost(ids), Ghost(11));
        let v = match self.server_keep_alive {
            Some(v) => Some(PropertyValue::Two(v)),
            None => None,
        };
        put(&mut list, 0x13, v, Ghost(self@), Ghost(ids), Ghost(12));
        let v = match self.response_information {
            Some(v) => Some(PropertyValue::Text(v)),
            None => None,
        };
        put(&mut list, 0x1A, v, Ghost(self@), Ghost(ids), Ghost(13));
        let v = match self.server_reference {
            Some(v) => Some(PropertyValue::Text(v)),
            None => None,
        };
        put(&mut list, 0x1C, v, Ghost(self@), Ghost(ids), Ghost(14));
        let v = match self.authentication_method {
            Some(v) => Some(PropertyValue::Text(v)),
            None => None,
        };
        put(&mut list, 0x15, v, Ghost(self@), Ghost(ids), Ghost(15));
        let v = match self.authentication_data {
            Some(v) => Some(PropertyValue::Binary(v)),
            None => None,
        };
        put(&mut list, 0x16, v, Ghost(self@), Ghost(ids), Ghost(16));
        assert(ids.take(17) =~= ids);
        write_properties(&list, buf);
        reveal(properties_bytes);
    }
}

impl<'a> View for ConnAckProperties<'a> {
    type V = PropertiesView;

    open spec fn view(&self) -> PropertiesView {
        PropertiesView {
            values: Map::new(
                |id: u8| id != 0x26 && self.value(id) is Some,
                |id: u8| self.value(id)->0,
            ),
            user: property::pairs_view(self.user_properties@),
        }
    }
}

impl<'a> Default for ConnAckProperties<'a> {
    /// No property at all.
    fn default() -> (r: Self)
        ensures
            r@ == property::meaning(Seq::empty()),
            forall|id: u8| #[trigger] r.value(id) is None,
            r.user_properties@.len() == 0,
    {
        let r = ConnAckProperties {
            session_expiry_interval: None,
            receive_maximum: None,
            max_qos: None,
            retain_available: None,
            maximum_packet_size: None,
            assigned_client_identifier: None,
            topic_alias_maximum: None,
            reason_string: None,
            user_properties: Vec::new(),
            wildcard_subscription_available: None,
            subscription_identifiers_available: None,
            shared_subscription_available: None,
            server_keep_alive: None,
            response_information: None,
            server_reference: None,
            authentication_method: None,
            authentication_data: None,
        };
        assert(r@ =~= property::meaning(Seq::empty()));
        r
    }
}

/// The properties of a PUBLISH packet.
#[derive(Debug, PartialEq, Eq)]
pub struct PublishProperties<'a> {
    /// Whether the payload is UTF-8 text.
    pub payload_format_indicator: Option<u8>,
    /// How long the message lives, in seconds.
    pub message_expiry_interval: Option<u32>,
    /// What the payload holds.
    pub content_type: Option<&'a str>,
    /// Where a response is to be published.
    pub response_topic: Option<&'a str>,
    /// By which data the response is matched.
    pub correlation_data: Option<&'a [u8]>,
    /// The identifier of the subscription that matched.
    pub subscription_identifier: Option<u32>,
    /// The number that stands for the topic on this connection.
    pub topic_alias: Option<u16>,
    /// The user properties, in order.
    pub user_properties: Vec<(&'a str, &'a str)>,
}

impl<'a> PublishProperties<'a> {
    /// The value of property `id`, where it is present; user properties aside.
    pub open spec fn value(&self, id: u8) -> Option<ValueView> {
        if id == 0x01 {
            match self.payload_format_indicator {
                Some(v) => Some(ValueView::Byte(v)),
                None => None,
            }
        } else if id == 0x02 {
            match self.message_expiry_interval {
                Some(v) => Some(ValueView::Four(v)),
                None => None,
            }
        } else if id == 0x03 {
            match self.content_type {
                Some(v) => Some(ValueView::Text(v@)),
                None => None,
            }
        } else if id == 0x08 {
            match self.response_topic {
                Some(v) => Some(ValueView::Text(v@)),
                None => None,
            }
        } else if id == 0x09 {
            match self.correlation_data {
                Some(v) => Some(ValueView::Binary(v@)),
                None => None,
            }
        } else if id == 0x0B {
            match self.subscription_identifier {
                Some(v) => Some(ValueView::Varint(v)),
                None => None,
            }
        } else if id == 0x23 {
            match self.topic_alias {
                Some(v) => Some(ValueView::Two(v)),
                None => None,
            }
        } else {
            None
        }
    }

    /// Reads a property block; where no byte is left every field is absent. Where a property
    /// occurs more than once the last value counts.
    pub fn decode(buf: &mut &'a [u8]) -> (r: Result<Self, CodecError>)
        ensures
            match property::take_properties(PropertySet::Publish, old(buf)@) {
                Ok((list, rest)) => r is Ok && r->Ok_0@ == property::meaning(list) && final(buf)@
                    == rest,
                Err(e) => r == Err::<Self, CodecError>(e),
            },
    {
        let list = read_properties(PropertySet::Publish, buf)?;
        let ghost all = property::list_view(list@);
        let mut props = PublishProperties::default();
        let mut i: usize = 0;
        while i < list.len()
            invariant
                i <= list@.len(),
                all == property::list_view(list@),
                property::well_typed(PropertySet::Publish, all),
                forall|id: u8|
                    id != 0x26 ==> #[trigger] props.value(id) == property::last_value(
                        all.take(i as int),
                        id,
                    ),
                property::pairs_view(props.user_properties@) == property::user_pairs(
                    all.take(i as int),
                ),
            decreases list@.len() - i,
        {
            let ghost before = props;
            let ghost p = all[i as int];
            proof {
                assert(p == list@[i as int]@);
                lemma_read_one(all, i as int);
                assert forall|id: u8| id != 0x26 implies #[trigger] before.value(id)
                    == property::last_value(all.take(i as int), id) by {}
            }
            match (list[i].id, list[i].value) {
                (0x01, PropertyValue::Byte(v)) => props.payload_format_indicator = Some(v),
                (0x02, PropertyValue::Four(v)) => props.message_expiry_interval = Some(v),
                (0x03, PropertyValue::Text(v)) => props.content_type = Some(v),
                (0x08, PropertyValue::Text(v)) => props.response_topic = Some(v),
                (0x09, PropertyValue::Binary(v)) => props.correlation_data = Some(v),
                (0x0B, PropertyValue::Varint(v)) => props.subscription_identifier = Some(v),
                (0x23, PropertyValue::Two(v)) => props.topic_alias = Some(v),
                (0x26, PropertyValue::Pair(key, value)) => {
                    props.user_properties.push((key, value));
                    assert(property::pairs_view(props.user_properties@) =~= property::pairs_view(
                        before.user_properties@,
                    ).push((key@, value@)));
                },
                _ => {},
            }
            assert forall|id: u8| id != 0x26 implies #[trigger] props.value(id)
                == property::last_value(all.take(i + 1), id) by {
                assert(before.value(id) == property::last_value(all.take(i as int), id));
            }
            i = i + 1;
        }
        proof {
            assert(all.take(list@.len() as int) =~= all);
            assert forall|id: u8|
                props@.values.contains_key(id) <==> property::meaning(all).values.contains_key(
                    id,
                ) by {
                assert(props.value(id) == props.value(id));
            }
            assert(props@ =~= property::meaning(all));
        }
        Ok(props)
    }

    /// Appends the property block that holds the fields that are present.
    pub fn encode(&self, buf: &mut Vec<u8>)
        ensures
            final(buf)@ == old(buf)@ + properties_bytes(PropertySet::Publish, self@),
    {
        let mut list: Vec<Property<'a>> = Vec::new();
        let ghost ids = order(PropertySet::Publish);
        assert(property::list_view(list@) =~= listed(self@, ids.take(0)));
        let v = match self.payload_format_indicator {
            Some(v) => Some(PropertyValue::Byte(v)),
            None => None,
        };
        put(&mut list, 0x01, v, Ghost(self@), Ghost(ids), Ghost(0));
        let v = match self.message_expiry_interval {
            Some(v) => Some(PropertyValue::Four(v)),
            None => None,
        };
        put(&mut list, 0x02, v, Ghost(self@), Ghost(ids), Ghost(1));
        let v = match self.content_type {
            Some(v) => Some(PropertyValue::Text(v)),
            None => None,
        };
        put(&mut list, 0x03, v, Ghost(self@), Ghost(ids), Ghost(2));
        let v = match self.response_topic {
            Some(v) => Some(PropertyValue::Text(v)),
            None => None,
        };
        put(&mut list, 0x08, v, Ghost(self@), Ghost(ids), Ghost(3));
        let v = match self.correlation_data {
            Some(v) => Some(PropertyValue::Binary(v)),
            None => None,
        };
        put(&mut list, 0x09, v, Ghost(self@), Ghost(ids), Ghost(4));
        let v = match self.subscription_identifier {
            Some(v) => Some(PropertyValue::Varint(v)),
            None => None,
        };
        put(&mut list, 0x0B, v, Ghost(self@), Ghost(ids), Ghost(5));
        let v = match self.topic_alias {
            Some(v) => Some(PropertyValue::Two(v)),
            None => None,
        };
        put(&mut list, 0x23, v, Ghost(self@), Ghost(ids), Ghost(6));
        put_user(&mut list, &self.user_properties, Ghost(self@), Ghost(ids), Ghost(7));
        assert(ids.take(8) =~= ids);
        write_properties(&list, buf);
        reveal(properties_bytes);
    }
}

impl<'a> View for PublishProperties<'a> {
    type V = PropertiesView;

    open spec fn view(&self) -> PropertiesView {
        PropertiesView {
            values: Map::new(
                |id: u8| id != 0x26 && self.value(id) is Some,
                |id: u8| self.value(id)->0,
            ),
            user: property::pairs_view(self.user_properties@),
        }
    }
}

impl<'a> Default for PublishProperties<'a> {
    /// No property at all.
    fn default() -> (r: Self)
        ensures
            r@ == property::meaning(Seq::empty()),
            forall|id: u8| #[trigger] r.value(id) is None,
            r.user_properties@.len() == 0,
    {
        let r = PublishProperties {
            payload_format_indicator: None,
            message_expiry_interval: None,
            content_type: None,
            response_topic: None,
            correlation_data: None,
            subscription_identifier: None,
            topic_alias: None,
            user_properties: Vec::new(),
        };
        assert(r@ =~= property::meaning(Seq::empty()));
        r
    }
}

/// The properties of a PUBACK, PUBREC, PUBREL or PUBCOMP packet.
#[derive(Debug, PartialEq, Eq)]
pub struct PubAckProperties<'a> {
    /// The reason in words.
    pub reason_string: Option<&'a str>,
    /// The user properties, in order.
    pub user_properties: Vec<(&'a str, &'a str)>,
}

impl<'a> PubAckProperties<'a> {
    /// The value of property `id`, where it is present; user properties aside.
    pub open spec fn value(&self, id: u8) -> Option<ValueView> {
        if id == 0x1F {
            match self.reason_string {
                Some(v) => Some(ValueView::Text(v@)),
                None => None,
            }
        } else {
            None
        }
    }

    /// Reads a property block; where no byte is left every field is absent. Where a property
    /// occurs more than once the last value counts.
    pub fn decode(buf: &mut &'a [u8]) -> (r: Result<Self, CodecError>)
        ensures
            match property::take_properties(PropertySet::Ack, old(buf)@) {
                Ok((list, rest)) => r is Ok && r->Ok_0@ == property::meaning(list) && final(buf)@
                    == rest,
                Err(e) => r == Err::<Self, CodecError>(e),
            },
    {
        let list = read_properties(PropertySet::Ack, buf)?;
        let ghost all = property::list_view(list@);
        let mut props = PubAckProperties::default();
        let mut i: usize = 0;
        while i < list.len()
            invariant
                i <= list@.len(),
                all == property::list_view(list@),
                property::well_typed(PropertySet::Ack, all),
                forall|id: u8|
                    id != 0x26 ==> #[trigger] props.value(id) == property::last_value(
                        all.take(i as int),
                        id,
                    ),
                property::pairs_view(props.user_properties@) == property::user_pairs(
                    all.take(i as int),
                ),
            decreases list@.len() - i,
        {
            let ghost before = props;
            let ghost p = all[i as int];
            proof {
                assert(p == list@[i as int]@);
                lemma_read_one(all, i as int);
                assert forall|id: u8| id != 0x26 implies #[trigger] before.value(id)
                    == property::last_value(all.take(i as int), id) by {}
            }
            match (list[i].id, list[i].value) {
                (0x1F, PropertyValue::Text(v)) => props.reason_string = Some(v),
                (0x26, PropertyValue::Pair(key, value)) => {
                    props.user_properties.push((key, value));
                    assert(property::pairs_view(props.user_properties@) =~= property::pairs_view(
                        before.user_properties@,
                    ).push((key@, value@)));
                },
                _ => {},
            }
            assert forall|id: u8| id != 0x26 implies #[trigger] props.value(id)
                == property::last_value(all.take(i + 1), id) by {
                assert(before.value(id) == property::last_value(all.take(i as int), id));
            }
            i = i + 1;
        }
        proof {
            assert(all.take(list@.len() as int) =~= all);
            assert forall|id: u8|
                props@.values.contains_key(id) <==> property::meaning(all).values.contains_key(
                    id,
                ) by {
                assert(props.value(id) == props.value(id));
            }
            assert(props@ =~= property::meaning(all));
        }
        Ok(props)
    }

    /// Appends the property block that holds the fields that are present.
    pub fn encode(&self, buf: &mut Vec<u8>)
        ensures
            final(buf)@ == old(buf)@ + properties_bytes(PropertySet::Ack, self@),
    {
        let mut list: Vec<Property<'a>> = Vec::new();
        let ghost ids = order(PropertySet::Ack);
        assert(property::list_view(list@) =~= listed(self@, ids.take(0)));
        let v = match self.reason_string {
            Some(v) => Some(PropertyValue::Text(v)),
            None => None,
        };
        put(&mut list, 0x1F, v, Ghost(self@), Ghost(ids), Ghost(0));
        put_user(&mut list, &self.user_properties, Ghost(self@), Ghost(ids), Ghost(1));
        assert(ids.take(2) =~= ids);
        write_properties(&list, buf);
        reveal(properties_bytes);
    }
}

impl<'a> View for PubAckProperties<'a> {
    type V = PropertiesView;

    open spec fn view(&self) -> PropertiesView {
        PropertiesView {
            values: Map::new(
                |id: u8| id != 0x26 && self.value(id) is Some,
                |id: u8| self.value(id)->0,
            ),
            user: property::pairs_view(self.user_properties@),
        }
    }
}

impl<'a> Default for PubAckProperties<'a> {
    /// No property at all.
    fn default() -> (r: Self)
        ensures
            r@ == property::meaning(Seq::empty()),
            forall|id: u8| #[trigger] r.value(id) is None,
            r.user_properties@.len() == 0,
    {
        let r = PubAckProperties {
            reason_string: None,
            user_properties: Vec::new(),
        };
        assert(r@ =~= property::meaning(Seq::empty()));
        r
    }
}

/// The properties of a SUBSCRIBE packet.
#[derive(Debug, PartialEq, Eq)]
pub struct SubscribeProperties<'a> {
    /// The identifier that messages for this subscription carry.
    pub subscription_identifier: Option<u32>,
    /// The user properties, in order.
    pub user_properties: Vec<(&'a str, &'a str)>,
}

impl<'a> SubscribeProperties<'a> {
    /// The value of property `id`, where it is present; user properties aside.
    pub open spec fn value(&self, id: u8) -> Option<ValueView> {
        if id == 0x0B {
            match self.subscription_identifier {
                Some(v) => Some(ValueView::Varint(v)),
                None => None,
            }
        } else {
            None
        }
    }

    /// Reads a property block; where no byte is left every field is absent. Where a property
    /// occurs more than once the last value counts.
    pub fn decode(buf: &mut &'a [u8]) -> (r: Result<Self, CodecError>)
        ensures
            match property::take_properties(PropertySet::Subscribe, old(buf)@) {
                Ok((list, rest)) => r is Ok && r->Ok_0@ == property::meaning(list) && final(buf)@
                    == rest,
                Err(e) => r == Err::<Self, CodecError>(e),
            },
    {
        let list = read_properties(PropertySet::Subscribe, buf)?;
        let ghost all = property::list_view(list@);
        let mut props = SubscribeProperties::default();
        let mut i: usize = 0;
        while i < list.len()
            invariant
                i <= list@.len(),
                all == property::list_view(list@),
                property::well_typed(PropertySet::Subscribe, all),
                forall|id: u8|
                    id != 0x26 ==> #[trigger] props.value(id) == property::last_value(
                        all.take(i as int),
                        id,
                    ),
                property::pairs_view(props.user_properties@) == property::user_pairs(
                    all.take(i as int),
                ),
            decreases list@.len() - i,
        {
            let ghost before = props;
            let ghost p = all[i as int];
            proof {
                assert(p == list@[i as int]@);
                lemma_read_one(all, i as int);
                assert forall|id: u8| id != 0x26 implies #[trigger] before.value(id)
                    == property::last_value(all.take(i as int), id) by {}
            }
            match (list[i].id, list[i].value) {
                (0x0B, PropertyValue::Varint(v)) => props.subscription_identifier = Some(v),
                (0x26, PropertyValue::Pair(key, value)) => {
                    props.user_properties.push((key, value));
                    assert(property::pairs_view(props.user_properties@) =~= property::pairs_view(
                        before.user_properties@,
                    ).push((key@, value@)));
                },
                _ => {},
            }
            assert forall|id: u8| id != 0x26 implies #[trigger] props.value(id)
                == property::last_value(all.take(i + 1), id) by {
                assert(before.value(id) == property::last_value(all.take(i as int), id));
            }
            i = i + 1;
        }
        proof {
            assert(all.take(list@.len() as int) =~= all);
            assert forall|id: u8|
                props@.values.contains_key(id) <==> property::meaning(all).values.contains_key(
                    id,
                ) by {
                assert(props.value(id) == props.value(id));
            }
            assert(props@ =~= property::meaning(all));
        }
        Ok(props)
    }

    /// Appends the property block that holds the fields that are present.
    pub fn encode(&self, buf: &mut Vec<u8>)
        ensures
            final(buf)@ == old(buf)@ + properties_bytes(PropertySet::Subscribe, self@),
    {
        let mut list: Vec<Property<'a>> = Vec::new();
        let ghost ids = order(PropertySet::Subscribe);
        assert(property::list_view(list@) =~= listed(self@, ids.take(0)));
        let v = match self.subscription_identifier {
            Some(v) => Some(PropertyValue::Varint(v)),
            None => None,
        };
        put(&mut list, 0x0B, v, Ghost(self@), Ghost(ids), Ghost(0));
        put_user(&mut list, &self.user_properties, Ghost(self@), Ghost(ids), Ghost(1));
        assert(ids.take(2) =~= ids);
        write_properties(&list, buf);
        reveal(properties_bytes);
    }
}

impl<'a> View for SubscribeProperties<'a> {
    type V = PropertiesView;

    open spec fn view(&self) -> PropertiesView {
        PropertiesView {
            values: Map::new(
                |id: u8| id != 0x26 && self.value(id) is Some,
                |id: u8| self.value(id)->0,
            ),
            user: property::pairs_view(self.user_properties@),
        }
    }
}

impl<'a> Default for SubscribeProperties<'a> {
    /// No property at all.
    fn default() -> (r: Self)
        ensures
            r@ == property::meaning(Seq::empty()),
            forall|id: u8| #[trigger] r.value(id) is None,
            r.user_properties@.len() == 0,
    {
        let r = SubscribeProperties {
            subscription_identifier: None,
            user_properties: Vec::new(),
        };
        assert(r@ =~= property::meaning(Seq::empty()));
        r
    }
}

/// The properties of a SUBACK or UNSUBACK packet.
#[derive(Debug, PartialEq, Eq)]
pub struct SubAckProperties<'a> {
    /// The reason in words.
    pub reason_string: Option<&'a str>,
    /// The user properties, in order.
    pub user_properties: Vec<(&'a str, &'a str)>,
}

impl<'a> SubAckProperties<'a> {
    /// The value of property `id`, where it is present; user properties aside.
    pub open spec fn value(&self, id: u8) -> Option<ValueView> {
        if id == 0x1F {
            match self.reason_string {
                Some(v) => Some(ValueView::Text(v@)),
                None => None,
            }
        } else {
            None
        }
    }

    /// Reads a property block; where no byte is left every field is absent. Where a property
    /// occurs more than once the last value counts.
    pub fn decode(buf: &mut &'a [u8]) -> (r: Result<Self, CodecError>)
        ensures
            match property::take_properties(PropertySet::Ack, old(buf)@) {
                Ok((list, rest)) => r is Ok && r->Ok_0@ == property::meaning(list) && final(buf)@
                    == rest,
                Err(e) => r == Err::<Self, CodecError>(e),
            },
    {
        let list = read_properties(PropertySet::Ack, buf)?;
        let ghost all = property::list_view(list@);
        let mut props = SubAckProperties::default();
        let mut i: usize = 0;
        while i < list.len()
            invariant
                i <= list@.len(),
                all == property::list_view(list@),
                property::well_typed(PropertySet::Ack, all),
                forall|id: u8|
                    id != 0x26 ==> #[trigger] props.value(id) == property::last_value(
                        all.take(i as int),
                        id,
                    ),
                property::pairs_view(props.user_properties@) == property::user_pairs(
                    all.take(i as int),
                ),
            decreases list@.len() - i,
        {
            let ghost before = props;
            let ghost p = all[i as int];
            proof {
                assert(p == list@[i as int]@);
                lemma_read_one(all, i as int);
                assert forall|id: u8| id != 0x26 implies #[trigger] before.value(id)
                    == property::last_value(all.take(i as int), id) by {}
            }
            match (list[i].id, list[i].value) {
                (0x1F, PropertyValue::Text(v)) => props.reason_string = Some(v),
                (0x26, PropertyValue::Pair(key, value)) => {
                    props.user_properties.push((key, value));
                    assert(property::pairs_view(props.user_properties@) =~= property::pairs_view(
                        before.user_properties@,
                    ).push((key@, value@)));
                },
                _ => {},
            }
            assert forall|id: u8| id != 0x26 implies #[trigger] props.value(id)
                == property::last_value(all.take(i + 1), id) by {
                assert(before.value(id) == property::last_value(all.take(i as int), id));
            }
            i = i + 1;
        }
        proof {
            assert(all.take(list@.len() as int) =~= all);
            assert forall|id: u8|
                props@.values.contains_key(id) <==> property::meaning(all).values.contains_key(
                    id,
                ) by {
                assert(props.value(id) == props.value(id));
            }
            assert(props@ =~= property::meaning(all));
        }
        Ok(props)
    }

    /// Appends the property block that holds the fields that are present.
    pub fn encode(&self, buf: &mut Vec<u8>)
        ensures
            final(buf)@ == old(buf)@ + properties_bytes(PropertySet::Ack, self@),
    {
        let mut list: Vec<Property<'a>> = Vec::new();
        let ghost ids = order(PropertySet::Ack);
        assert(property::list_view(list@) =~= listed(self@, ids.take(0)));
        let v = match self.reason_string {
            Some(v) => Some(PropertyValue::Text(v)),
            None => None,
        };
        put(&mut list, 0x1F, v, Ghost(self@), Ghost(ids), Ghost(0));
        put_user(&mut list, &self.user_properties, Ghost(self@), Ghost(ids), Ghost(1));
        assert(ids.take(2) =~= ids);
        write_properties(&list, buf);
        reveal(properties_bytes);
    }
}

impl<'a> View for SubAckProperties<'a> {
    type V = PropertiesView;

    open spec fn view(&self) -> PropertiesView {
        PropertiesView {
            values: Map::new(
                |id: u8| id != 0x26 && self.value(id) is Some,
                |id: u8| self.value(id)->0,
            ),
            user: property::pairs_view(self.user_properties@),
        }
    }
}

impl<'a> Default for SubAckProperties<'a> {
    /// No property at all.
    fn default() -> (r: Self)
        ensures
            r@ == property::meaning(Seq::empty()),
            forall|id: u8| #[trigger] r.value(id) is None,
            r.user_properties@.len() == 0,
    {
        let r = SubAckProperties {
            reason_string: None,
            user_properties: Vec::new(),
        };
        assert(r@ =~= property::meaning(Seq::empty()));
        r
    }
}

/// The properties of an UNSUBSCRIBE packet.
#[derive(Debug, PartialEq, Eq)]
pub struct UnsubscribeProperties<'a> {
    /// The user properties, in order.
    pub user_properties: Vec<(&'a str, &'a str)>,
}

impl<'a> UnsubscribeProperties<'a> {
    /// The value of property `id`, where it is present; user properties aside.
    pub open spec fn value(&self, id: u8) -> Option<ValueView> {
        None
    }

    /// Reads a property block; where no byte is left every field is absent. Where a property
    /// occurs more than once the last value counts.
    pub fn decode(buf: &mut &'a [u8]) -> (r: Result<Self, CodecError>)
        ensures
            match property::take_properties(PropertySet::Unsubscribe, old(buf)@) {
                Ok((list, rest)) => r is Ok && r->Ok_0@ == property::meaning(list) && final(buf)@
                    == rest,
                Err(e) => r == Err::<Self, CodecError>(e),
            },
    {
        let list = read_properties(PropertySet::Unsubscribe, buf)?;
        let ghost all = property::list_view(list@);
        let mut props = UnsubscribeProperties::default();
        let mut i: usize = 0;
        while i < list.len()
            invariant
                i <= list@.len(),
                all == property::list_view(list@),
                property::well_typed(PropertySet::Unsubscribe, all),
                forall|id: u8|
                    id != 0x26 ==> #[trigger] props.value(id) == property::last_value(
                        all.take(i as int),
                        id,
                    ),
                property::pairs_view(props.user_properties@) == property::user_pairs(
                    all.take(i as int),
                ),
            decreases list@.len() - i,
        {
            let ghost before = props;
            let ghost p = all[i as int];
            proof {
                assert(p == list@[i as int]@);
                lemma_read_one(all, i as int);
                assert forall|id: u8| id != 0x26 implies #[trigger] before.value(id)
                    == property::last_value(all.take(i as int), id) by {}
            }
            match (list[i].id, list[i].value) {
                (0x26, PropertyValue::Pair(key, value)) => {
                    props.user_properties.push((key, value));
                    assert(property::pairs_view(props.user_properties@) =~= property::pairs_view(
                        before.user_properties@,
                    ).push((key@, value@)));
                },
                _ => {},
            }
            assert forall|id: u8| id != 0x26 implies #[trigger] props.value(id)
                == property::last_value(all.take(i + 1), id) by {
                assert(before.value(id) == property::last_value(all.take(i as int), id));
            }
            i = i + 1;
        }
        proof {
            assert(all.take(list@.len() as int) =~= all);
            assert forall|id: u8|
                props@.values.contains_key(id) <==> property::meaning(all).values.contains_key(
                    id,
                ) by {
                assert(props.value(id) == props.value(id));
            }
            assert(props@ =~= property::meaning(all));
        }
        Ok(props)
    }

    /// Appends the property block that holds the fields that are present.
    pub fn encode(&self, buf: &mut Vec<u8>)
        ensures
            final(buf)@ == old(buf)@ + properties_bytes(PropertySet::Unsubscribe, self@),
    {
        let mut list: Vec<Property<'a>> = Vec::new();
        let ghost ids = order(PropertySet::Unsubscribe);
        assert(property::list_view(list@) =~= listed(self@, ids.take(0)));
        put_user(&mut list, &self.user_properties, Ghost(self@), Ghost(ids), Ghost(0));
        assert(ids.take(1) =~= ids);
        write_properties(&list, buf);
        reveal(properties_bytes);
    }
}

impl<'a> View for UnsubscribeProperties<'a> {
    type V = PropertiesView;

    open spec fn view(&self) -> PropertiesView {
        PropertiesView {
            values: Map::new(
                |id: u8| id != 0x26 && self.value(id) is Some,
                |id: u8| self.value(id)->0,
            ),
            user: property::pairs_view(self.user_properties@),
        }
    }
}

impl<'a> Default for UnsubscribeProperties<'a> {
    /// No property at all.
    fn default() -> (r: Self)
        ensures
            r@ == property::meaning(Seq::empty()),
            forall|id: u8| #[trigger] r.value(id) is None,
            r.user_properties@.len() == 0,
    {
        let r = UnsubscribeProperties {
            user_properties: Vec::new(),
        };
        assert(r@ =~= property::meaning(Seq::empty()));
        r
    }
}

/// The properties of a DISCONNECT packet.
#[derive(Debug, PartialEq, Eq)]
pub struct DisconnectProperties<'a> {
    /// The session expiry interval from now on.
    pub session_expiry_interval: Option<u32>,
    /// The reason in words.
    pub reason_string: Option<&'a str>,
    /// The user properties, in order.
    pub user_properties: Vec<(&'a str, &'a str)>,
    /// Another server to use.
    pub server_reference: Option<&'a str>,
}

impl<'a> DisconnectProperties<'a> {
    /// The value of property `id`, where it is present; user properties aside.
    pub open spec fn value(&self, id: u8) -> Option<ValueView> {
        if id == 0x11 {
            match self.session_expiry_interval {
                Some(v) => Some(ValueView::Four(v)),
                None => None,
            }
        } else if id == 0x1F {
            match self.reason_string {
                Some(v) => Some(ValueView::Text(v@)),
                None => None,
            }
        } else if id == 0x1C {
            match self.server_reference {
                Some(v) => Some(ValueView::Text(v@)),
                None => None,
            }
        } else {
            None
        }
    }

    /// Reads a property block; where no byte is left every field is absent. Where a property
    /// occurs more than once the last value counts.
    pub fn decode(buf: &mut &'a [u8]) -> (r: Result<Self, CodecError>)
        ensures
            match property::take_properties(PropertySet::Disconnect, old(buf)@) {
                Ok((list, rest)) => r is Ok && r->Ok_0@ == property::meaning(list) && final(buf)@
                    == rest,
                Err(e) => r == Err::<Self, CodecError>(e),
            },
    {
        let list = read_properties(PropertySet::Disconnect, buf)?;
        let ghost all = property::list_view(list@);
        let mut props = DisconnectProperties::default();
        let mut i: usize = 0;
        while i < list.len()
            invariant
                i <= list@.len(),
                all == property::list_view(list@),
                property::well_typed(PropertySet::Disconnect, all),
                forall|id: u8|
                    id != 0x26 ==> #[trigger] props.value(id) == property::last_value(
                        all.take(i as int),
                        id,
                    ),
                property::pairs_view(props.user_properties@) == property::user_pairs(
                    all.take(i as int),
                ),
            decreases list@.len() - i,
        {
            let ghost before = props;
            let ghost p = all[i as int];
            proof {
                assert(p == list@[i as int]@);
                lemma_read_one(all, i as int);
                assert forall|id: u8| id != 0x26 implies #[trigger] before.value(id)
                    == property::last_value(all.take(i as int), id) by {}
            }
            match (list[i].id, list[i].value) {
                (0x11, PropertyValue::Four(v)) => props.session_expiry_interval = Some(v),
                (0x1F, PropertyValue::Text(v)) => props.reason_string = Some(v),
                (0x26, PropertyValue::Pair(key, value)) => {
                    props.user_properties.push((key, value));
                    assert(property::pairs_view(props.user_properties@) =~= property::pairs_view(
                        before.user_properties@,
                    ).push((key@, value@)));
                },
                (0x1C, PropertyValue::Text(v)) => props.server_reference = Some(v),
                _ => {},
            }
            assert forall|id: u8| id != 0x26 implies #[trigger] props.value(id)
                == property::last_value(all.take(i + 1), id) by {
                assert(before.value(id) == property::last_value(all.take(i as int), id));
            }
            i = i + 1;
        }
        proof {
            assert(all.take(list@.len() as int) =~= all);
            assert forall|id: u8|
                props@.values.contains_key(id) <==> property::meaning(all).values.contains_key(
                    id,
                ) by {
                assert(props.value(id) == props.value(id));
            }
            assert(props@ =~= property::meaning(all));
        }
        Ok(props)
    }

    /// Appends the property block that holds the fields that are present.
    pub fn encode(&self, buf: &mut Vec<u8>)
        ensures
            final(buf)@ == old(buf)@ + properties_bytes(PropertySet::Disconnect, self@),
    {
        let mut list: Vec<Property<'a>> = Vec::new();
        let ghost ids = order(PropertySet::Disconnect);
        assert(property::list_view(list@) =~= listed(self@, ids.take(0)));
        let v = match self.session_expiry_interval {
            Some(v) => Some(PropertyValue::Four(v)),
            None => None,
        };
        put(&mut list, 0x11, v, Ghost(self@), Ghost(ids), Ghost(0));
        let v = match self.reason_string {
            Some(v) => Some(PropertyValue::Text(v)),
            None => None,
        };
        put(&mut list, 0x1F, v, Ghost(self@), Ghost(ids), Ghost(1));
        put_user(&mut list, &self.user_properties, Ghost(self@), Ghost(ids), Ghost(2));
        let v = match self.server_reference {
            Some(v) => Some(PropertyValue::Text(v)),
            None => None,
        };
        put(&mut list, 0x1C, v, Ghost(self@), Ghost(ids), Ghost(3));
        assert(ids.take(4) =~= ids);
        write_properties(&list, buf);
        reveal(properties_bytes);
    }
}

impl<'a> View for DisconnectProperties<'a> {
    type V = PropertiesView;

    open spec fn view(&self) -> PropertiesView {
        PropertiesView {
            values: Map::new(
                |id: u8| id != 0x26 && self.value(id) is Some,
                |id: u8| self.value(id)->0,
            ),
            user: property::pairs_view(self.user_properties@),
        }
    }
}

impl<'a> Default for DisconnectProperties<'a> {
    /// No property at all.
    fn default() -> (r: Self)
        ensures
            r@ == property::meaning(Seq::empty()),
            forall|id: u8| #[trigger] r.value(id) is None,
            r.user_properties@.len() == 0,
    {
        let r = DisconnectProperties {
            session_expiry_interval: None,
            reason_string: None,
            user_properties: Vec::new(),
            server_reference: None,
        };
        assert(r@ =~= property::meaning(Seq::empty()));
        r
    }
}

} // verus!
