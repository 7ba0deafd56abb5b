//! The short way of a batch: nowhere, or to its only receiver.

use vstd::prelude::*;
use vstd::utf8;
use crate::broker::model::{topic_levels, ActionView, BrokerView, PublishedView};
use crate::broker::packets;
use crate::broker::publish::{lemma_entry_inserted, lemma_exact_only, lemma_no_such_key};
use crate::broker::state::BrokerState;
use crate::codec::packet::Publish;
use crate::ingest::scan;
use crate::ingest::scan::{
    fast_ingest_layout_matches, scan_zero_route_qos0_alias_batch, scan_zero_route_qos0_batch,
    FastIngestBatch, FastIngestLayout, FormView, LayoutView,
};
use crate::message::ApplicationView;
use crate::router::table;
use crate::session::inbound::is_blank;
use crate::session::model;
use crate::session::model::{EffectView, MessageView, SessionView};
use crate::text::str_eq;
use crate::topic;
use crate::topic::publish_topic_error_reason;

verus! {

/// A client and the number of its connection.
#[derive(Debug)]
pub struct FastTarget {
    /// The client identifier.
    pub client_id: String,
    /// The number of the connection.
    pub connection: u64,
}

impl BrokerView {
    /// Whether there are routes and each of them names exactly one topic.
    pub open spec fn only_exact(self) -> bool {
        self.routes.len() > 0 && forall|i: int|
            0 <= i < self.routes.len() ==> table::exact_key(
                (#[trigger] self.routes[i]).group,
                self.routes[i].path,
            )
    }

    /// The only receiver of messages that somebody publishes on a topic, where there is only one,
    /// it is connected, and it gets the messages as they are.
    pub open spec fn only_receiver(self, from: Seq<char>, t: Seq<char>) -> Option<
        (Seq<char>, u64),
    > {
        let list = table::select(self.routes, None, topic_levels(t));
        if self.only_exact() && topic::exact_filter(utf8::encode_utf8(t)) && list.len() == 1
            && list[0].subscription_identifier is None && !(list[0].no_local && list[0].client
            == from) && self.sessions.contains_key(list[0].client)
            && self.sessions[list[0].client].session.connected {
            Some((list[0].client, self.sessions[list[0].client].connection))
        } else {
            None
        }
    }
}

/// The forms that are known of the packets of a connection.
#[derive(Debug)]
pub struct FastLayouts {
    /// Packets with a topic, while nobody receives them.
    pub ingest: FastIngestLayout,
    /// Packets with an alias, while nobody receives them.
    pub ingest_alias: FastIngestLayout,
    /// Packets with a topic, while every route is exact.
    pub route: FastIngestLayout,
    /// Packets with an alias, while every route is exact.
    pub route_alias: FastIngestLayout,
}

impl FastLayouts {
    /// No form is known.
    pub fn new() -> (r: Self)
        ensures
            r.wf(),
            r.ingest@ == LayoutView::unknown(),
            r.ingest_alias@ == LayoutView::unknown(),
            r.route@ == LayoutView::unknown(),
            r.route_alias@ == LayoutView::unknown(),
    {
        FastLayouts {
            ingest: FastIngestLayout::default(),
            ingest_alias: FastIngestLayout::default(),
            route: FastIngestLayout::default(),
            route_alias: FastIngestLayout::default(),
        }
    }

    /// The forms are well-formed.
    pub open spec fn wf(&self) -> bool {
        self.ingest.wf() && self.ingest_alias.wf() && self.route.wf() && self.route_alias.wf()
    }
}

/// What the short way does with the bytes at hand.
pub enum FastStep {
    /// Nothing: the packet at the front is decoded.
    Decode,
    /// The messages of the batch go nowhere.
    Drop(FastIngestBatch),
    /// The packets of the batch go to this receiver as they are.
    Direct(FastIngestBatch, FastTarget),
    /// The packets of the batch, which use an alias, go to this receiver; the alias stands for
    /// this topic.
    Aliased(FastIngestBatch, FastTarget, String),
}

/// What the short way does, as the contracts see it; a batch is its bytes and its messages.
pub enum FastStepView {
    /// Nothing.
    Decode,
    /// The messages go nowhere.
    Drop(nat, nat),
    /// The packets go to this receiver as they are.
    Direct(nat, nat, (Seq<char>, u64)),
    /// The packets, which use an alias, go to this receiver; the alias stands for this topic.
    Aliased(nat, nat, (Seq<char>, u64), Seq<char>),
}

impl View for FastStep {
    type V = FastStepView;

    open spec fn view(&self) -> FastStepView {
        match *self {
            FastStep::Decode => FastStepView::Decode,
            FastStep::Drop(b) => FastStepView::Drop(b.bytes as nat, b.messages as nat),
            FastStep::Direct(b, t) => FastStepView::Direct(
                b.bytes as nat,
                b.messages as nat,
                (t.client_id@, t.connection),
            ),
            FastStep::Aliased(b, t, topic) => FastStepView::Aliased(
                b.bytes as nat,
                b.messages as nat,
                (t.client_id@, t.connection),
                topic@,
            ),
        }
    }
}

/// The forms that are known, as the contracts see them.
pub struct LayoutsView {
    /// Packets with a topic, while nobody receives them.
    pub ingest: LayoutView,
    /// Packets with an alias, while nobody receives them.
    pub ingest_alias: LayoutView,
    /// Packets with a topic, while every route is exact.
    pub route: LayoutView,
    /// Packets with an alias, while every route is exact.
    pub route_alias: LayoutView,
}

impl View for FastLayouts {
    type V = LayoutsView;

    open spec fn view(&self) -> LayoutsView {
        LayoutsView {
            ingest: self.ingest@,
            ingest_alias: self.ingest_alias@,
            route: self.route@,
            route_alias: self.route_alias@,
        }
    }
}

/// Whether the first `n` packets of some bytes are all of one form.
pub open spec fn of_one_form(s: Seq<u8>, bytes: nat, n: nat, layout: LayoutView) -> bool {
    bytes == n * layout.total && layout.hits_each(s, n)
}

impl BrokerView {
    /// The short way of packets that name their topic, while every route is exact.
    pub open spec fn fast_direct(self, c: Seq<char>, s: Seq<u8>, layout: LayoutView) -> (
        FastStepView,
        LayoutView,
    ) {
        let (bytes, n, last) = scan::run(
            s,
            self.limits.maximum_packet_size as nat,
            FormView::Topic,
            layout,
        );
        if n > 0 && of_one_form(s, bytes, n, last) && last.topic is Some && self.only_receiver(
            c,
            last.topic->0,
        ) is Some {
            (FastStepView::Direct(bytes, n, self.only_receiver(c, last.topic->0)->0), last)
        } else {
            (FastStepView::Decode, last)
        }
    }

    /// The short way of packets that use an alias, while every route is exact.
    pub open spec fn fast_aliased(self, c: Seq<char>, s: Seq<u8>, layout: LayoutView) -> (
        FastStepView,
        LayoutView,
    ) {
        let session = self.sessions[c].session;
        let (bytes, n, last) = scan::run(
            s,
            self.limits.maximum_packet_size as nat,
            FormView::Alias(session.topic_alias_maximum, session.aliases.dom()),
            layout,
        );
        if n > 0 && of_one_form(s, bytes, n, last) && last.alias is Some
            && session.aliases.contains_key(last.alias->0) && self.only_receiver(
            c,
            session.aliases[last.alias->0],
        ) is Some {
            let t = session.aliases[last.alias->0];
            (FastStepView::Aliased(bytes, n, self.only_receiver(c, t)->0, t), last)
        } else {
            (FastStepView::Decode, last)
        }
    }

    /// The short way of packets that nobody receives.
    pub open spec fn fast_drop(self, c: Seq<char>, s: Seq<u8>, l: LayoutsView) -> (
        FastStepView,
        LayoutsView,
    ) {
        let session = self.sessions[c].session;
        let maximum = self.limits.maximum_packet_size as nat;
        let (bytes, n, last) = scan::run(s, maximum, FormView::Topic, l.ingest);
        let l = LayoutsView { ingest: last, ..l };
        if n > 0 {
            (FastStepView::Drop(bytes, n), l)
        } else if session.topic_alias_maximum == 0 {
            (FastStepView::Decode, l)
        } else {
            let (bytes, n, last) = scan::run(
                s,
                maximum,
                FormView::Alias(session.topic_alias_maximum, session.aliases.dom()),
                l.ingest_alias,
            );
            let l = LayoutsView { ingest_alias: last, ..l };
            if n > 0 {
                (FastStepView::Drop(bytes, n), l)
            } else {
                (FastStepView::Decode, l)
            }
        }
    }

    /// The short way at the front of what a client has sent.
    pub open spec fn fast(self, c: Seq<char>, s: Seq<u8>, l: LayoutsView) -> (
        FastStepView,
        LayoutsView,
    ) {
        if !self.sessions[c].session.allow_all_write || self.bridge_active {
            (FastStepView::Decode, l)
        } else if self.routes.len() == 0 {
            self.fast_drop(c, s, l)
        } else if !self.only_exact() {
            (FastStepView::Decode, l)
        } else {
            let (step, last) = self.fast_direct(c, s, l.route);
            let l = LayoutsView { route: last, ..l };
            if !(step is Decode) || self.sessions[c].session.topic_alias_maximum == 0 {
                (step, l)
            } else {
                let (step, last) = self.fast_aliased(c, s, l.route_alias);
                (step, LayoutsView { route_alias: last, ..l })
            }
        }
    }
}

impl BrokerView {
    /// Whether a decoded PUBLISH of a client goes nowhere and needs no answer.
    pub open spec fn nowhere(self, c: Seq<char>, p: Publish<'_>) -> bool {
        &&& p.qos == 0 && !p.retain && p.properties.subscription_identifier is None
            && p.properties.topic_alias is None && p.properties.response_topic is None
        &&& p.topic@.len() > 0 && topic::topic_fault(p.topic@) is None
        &&& self.sessions.contains_key(c) && self.sessions[c].session.allow_all_write
        &&& self.routes.len() == 0 && !self.bridge_active
    }
}

impl BrokerState {
    /// The only receiver of messages on a topic, where there is only one, it is connected, and
    /// it gets the messages as they are.
    pub fn resolve_fast_exact_route_topic(&self, publisher: &str, topic: &str) -> (r: Option<
        FastTarget,
    >)
        requires
            self.wf(),
        ensures
            match r {
                Some(target) => self@.only_receiver(publisher@, topic@) == Some(
                    (target.client_id@, target.connection),
                ),
                None => self@.only_receiver(publisher@, topic@) is None,
            },
    {
        if !self.router.has_only_exact_routes() {
            return None;
        }
        let list = match self.router.match_exact(topic) {
            Some(list) => list,
            None => {
                return None;
            },
        };
        assert(table::infos(list@).len() == list@.len());
        if list.len() != 1 {
            return None;
        }
        let info = &list[0];
        assert(table::infos(list@)[0] == info@);
        if info.subscription_identifier.is_some() || (info.no_local && str_eq(
            info.client_id.as_str(),
            publisher,
        )) {
            return None;
        }
        match self.sessions.get(info.client_id.as_str()) {
            Some(entry) => if entry.session.connected {
                Some(
                    FastTarget { client_id: info.client_id.clone(), connection: entry.connection },
                )
            } else {
                None
            },
            None => None,
        }
    }

    /// The only receiver of messages of a form that names its topic.
    pub fn resolve_fast_exact_route(&self, publisher: &str, layout: &FastIngestLayout) -> (r:
        Option<FastTarget>)
        requires
            self.wf(),
        ensures
            match r {
                Some(target) => layout@.topic is Some && self@.only_receiver(
                    publisher@,
                    layout@.topic->0,
                ) == Some((target.client_id@, target.connection)),
                None => layout@.topic is None || self@.only_receiver(
                    publisher@,
                    layout@.topic->0,
                ) is None,
            },
    {
        match &layout.topic {
            Some(topic) => self.resolve_fast_exact_route_topic(publisher, topic.as_str()),
            None => None,
        }
    }

    /// The only receiver of messages of a form that uses an alias, and the topic of the alias.
    pub fn resolve_fast_alias_exact_route(&self, publisher: &str, layout: &FastIngestLayout) -> (r:
        Option<(FastTarget, String)>)
        requires
            self.wf(),
            self@.sessions.contains_key(publisher@),
        ensures
            ({
                let aliases = self@.sessions[publisher@].session.aliases;
                let known = layout@.alias is Some && aliases.contains_key(layout@.alias->0);
                match r {
                    Some((target, topic)) => known && topic@ == aliases[layout@.alias->0]
                        && self@.only_receiver(publisher@, topic@) == Some(
                        (target.client_id@, target.connection),
                    ),
                    None => !known || self@.only_receiver(
                        publisher@,
                        aliases[layout@.alias->0],
                    ) is None,
                }
            }),
    {
        let alias: u16 = match layout.alias {
            Some(alias) => alias,
            None => {
                return None;
            },
        };
        let entry = match self.sessions.get(publisher) {
            Some(entry) => entry,
            None => {
                return None;
            },
        };
        let topic = match entry.session.topic_aliases.get(alias) {
            Some(topic) => topic,
            None => {
                return None;
            },
        };
        match self.resolve_fast_exact_route_topic(publisher, topic.as_str()) {
            Some(target) => Some((target, topic.clone())),
            None => None,
        }
    }

    /// Looks for the short way at the front of what a client has sent. It is open to a client
    /// that may write every topic while the bridge is not connected.
    pub fn fast_step(&self, client_id: &str, buf: &[u8], layouts: &mut FastLayouts) -> (step:
        FastStep)
        requires
            self.wf(),
            self@.sessions.contains_key(client_id@),
            old(layouts).wf(),
        ensures
            final(layouts).wf(),
            (step@, final(layouts)@) == self@.fast(client_id@, buf@, old(layouts)@),
            match step {
                FastStep::Decode => true,
                FastStep::Drop(batch) => batch.bytes <= buf@.len(),
                FastStep::Direct(batch, _) => batch.bytes <= buf@.len(),
                FastStep::Aliased(batch, _, _) => batch.bytes <= buf@.len(),
            },
    {
        let entry = match self.sessions.get(client_id) {
            Some(entry) => entry,
            None => {
                return FastStep::Decode;
            },
        };
        if !entry.session.allow_all_write || self.bridge_active {
            return FastStep::Decode;
        }
        let maximum: usize = self.limits.maximum_packet_size as usize;
        if !self.router.has_routes() {
            let batch = scan_zero_route_qos0_batch(buf, maximum, &mut layouts.ingest);
            if batch.messages != 0 {
                return FastStep::Drop(batch);
            }
            if entry.session.topic_alias_maximum > 0 {
                let batch = scan_zero_route_qos0_alias_batch(
                    buf,
                    maximum,
                    &mut layouts.ingest_alias,
                    &entry.session,
                );
                if batch.messages != 0 {
                    return FastStep::Drop(batch);
                }
            }
            return FastStep::Decode;
        }
        if !self.router.has_only_exact_routes() {
            return FastStep::Decode;
        }
        let batch = scan_zero_route_qos0_batch(buf, maximum, &mut layouts.route);
        if batch.messages != 0 && one_form(buf, &batch, &layouts.route) {
            if let Some(target) = self.resolve_fast_exact_route(client_id, &layouts.route) {
                return FastStep::Direct(batch, target);
            }
        }
        if entry.session.topic_alias_maximum > 0 {
            let batch = scan_zero_route_qos0_alias_batch(
                buf,
                maximum,
                &mut layouts.route_alias,
                &entry.session,
            );
            if batch.messages != 0 && one_form(buf, &batch, &layouts.route_alias) {
                if let Some((target, topic)) = self.resolve_fast_alias_exact_route(
                    client_id,
                    &layouts.route_alias,
                ) {
                    return FastStep::Aliased(batch, target, topic);
                }
            }
        }
        FastStep::Decode
    }

    /// Counts the messages of a batch that a client has published.
    pub fn count_batch(&mut self, client_id: &str, messages: u64)
        requires
            old(self).wf(),
            old(self)@.sessions.contains_key(client_id@),
        ensures
            final(self).wf(),
            ({
                let s = old(self)@.sessions[client_id@].session;
                final(self)@ == old(self)@.with_session(
                    client_id@,
                    (SessionView { published: s.published.wrapping_add(messages), ..s }),
                )
            }),
    {
        let ghost was = self.sessions@;
        if let Some(entry) = self.sessions.remove(client_id) {
            let mut entry = entry;
            entry.session.published_messages = entry.session.published_messages.wrapping_add(
                messages,
            );
            proof {
                lemma_entry_inserted(was, client_id@, entry);
            }
            self.sessions.insert(client_id.to_owned(), entry);
        }
    }

    /// Whether a decoded PUBLISH of a client goes nowhere and needs no answer.
    pub fn goes_nowhere(&self, client_id: &str, p: &Publish<'_>) -> (r: bool)
        requires
            self.wf(),
        ensures
            r == self@.nowhere(client_id@, *p),
    {
        let may = match self.sessions.get(client_id) {
            Some(entry) => entry.session.allow_all_write,
            None => false,
        };
        p.qos == 0 && !p.retain && p.properties.subscription_identifier.is_none()
            && p.properties.topic_alias.is_none() && p.properties.response_topic.is_none()
            && !is_blank(p.topic) && publish_topic_error_reason(p.topic).is_none() && may
            && !self.router.has_routes() && !self.bridge_active
    }
}

/// Whether the packets of a batch are all of one form.
fn one_form(buf: &[u8], batch: &FastIngestBatch, layout: &FastIngestLayout) -> (r: bool)
    requires
        batch.bytes <= buf@.len(),
        layout.wf(),
    ensures
        r == of_one_form(buf@, batch.bytes as nat, batch.messages as nat, layout@),
{
    match batch.messages.checked_mul(layout.total_len as u64) {
        Some(product) => {
            assert(batch.messages * layout@.total == product);
            if product != batch.bytes as u64 {
                return false;
            }
        },
        None => {
            assert(batch.messages * layout@.total > u64::MAX);
            return false;
        },
    }
    let mut k: u64 = 0;
    let mut at: usize = 0;
    while k < batch.messages
        invariant
            k <= batch.messages,
            at == k * layout@.total,
            batch.bytes == batch.messages * layout@.total,
            batch.bytes <= buf@.len(),
            layout.wf(),
            layout@.hits_each(buf@, k as nat),
        decreases batch.messages - k,
    {
        assert((k + 1) * layout@.total == k * layout@.total + layout@.total) by (nonlinear_arith);
        assert((k + 1) * layout@.total <= batch.messages * layout@.total) by (nonlinear_arith)
            requires
                k + 1 <= batch.messages,
                0 <= layout@.total,
        ;
        if !fast_ingest_layout_matches(buf, at, layout) {
            assert(!layout@.hits(buf@.skip(k * layout@.total)));
            return false;
        }
        k = k + 1;
        at = at + layout.total_len;
    }
    true
}

/// The short way agrees with the long one: where a topic has only one receiver, a message of QoS 0
/// without properties that somebody publishes on it is sent to that receiver, as it is, and
/// nothing else happens; unless it is too large for the receiver, and then nothing happens at
/// all.
pub proof fn law_only_receiver_gets_the_message(
    b: BrokerView,
    from: Seq<char>,
    t: Seq<char>,
    payload: Seq<u8>,
    now_ms: u64,
    groups: Seq<Seq<u8>>,
)
    requires
        b.only_receiver(from, t) is Some,
        !b.forwards(from, t),
        crate::broker::model::reached_groups(b.routes, t, groups),
    ensures
        ({
            let (c, connection) = b.only_receiver(from, t)->0;
            let p = PublishedView {
                topic: t,
                payload,
                qos: 0,
                retain: false,
                properties: ApplicationView::none(),
            };
            let m = MessageView {
                topic: t,
                payload,
                retain: false,
                subscription_identifier: None,
                properties: ApplicationView::none(),
            };
            let bytes = model::publish_packet(false, 0, None, m, now_ms).bytes();
            b.route(from, p, now_ms, groups) == (
                b,
                if bytes.len() <= b.sessions[c].session.maximum_packet_size {
                    packets::tagged_one(c, connection, EffectView::Send(bytes))
                } else {
                    Seq::empty()
                },
            )
        }),
{
    let (c, connection) = b.only_receiver(from, t)->0;
    let levels = topic_levels(t);
    let list = table::select(b.routes, None, levels);
    let p = PublishedView {
        topic: t,
        payload,
        qos: 0,
        retain: false,
        properties: ApplicationView::none(),
    };
    assert(Seq::<Seq<u8>>::empty() + levels =~= levels);
    lemma_exact_only(b.routes, None, Seq::empty(), levels);
    assert(groups.len() == 0) by {
        if groups.len() > 0 {
            let g = groups[0];
            assert(groups.contains(g));
            lemma_exact_only(b.routes, Some(g), Seq::empty(), levels);
            lemma_no_such_key(b.routes, Some(g), levels);
        }
    }
    reveal_with_fuel(BrokerView::deliver_to, 2);
    reveal_with_fuel(BrokerView::serve_groups, 1);
    let s = b.sessions[c].session;
    let m = p.for_subscriber(list[0]);
    let (changed, effects) = s.enqueue(m, 0, now_ms);
    assert(changed == s);
    assert(b.with_session(c, s).sessions =~= b.sessions);
    assert(b.with_session(c, s) == b);
    let (delivered, actions) = b.deliver(c, m, 0, now_ms);
    let bytes = model::publish_packet(false, 0, None, m, now_ms).bytes();
    if bytes.len() <= s.maximum_packet_size {
        assert(actions =~= packets::tagged_one(c, connection, EffectView::Send(bytes)));
    } else {
        assert(actions =~= Seq::empty());
    }
    assert(Seq::<ActionView>::empty() + (Seq::<ActionView>::empty() + actions) =~= actions);
    assert(b.route(from, p, now_ms, groups).1 =~= actions);
}

/// Where there is no route and no bridge, a message changes nothing and is sent to nobody.
pub proof fn law_without_routes_nothing_happens(
    b: BrokerView,
    from: Seq<char>,
    p: PublishedView,
    now_ms: u64,
    groups: Seq<Seq<u8>>,
)
    requires
        b.routes.len() == 0,
        !b.bridge_active,
    ensures
        b.route(from, p, now_ms, groups) == (b, Seq::<ActionView>::empty()),
{
}

/// The short way is taken only for a client that may write every topic, while nothing goes out over
/// a bridge. Messages go nowhere on it only where there is no route at all, and go to one receiver
/// only where every route names one topic and that receiver is the only one of the topic, connected,
/// with the connection that it has, and gets the messages as they are.
pub proof fn law_short_way_is_safe(b: BrokerView, c: Seq<char>, s: Seq<u8>, l: LayoutsView)
    ensures
        ({
            let step = b.fast(c, s, l).0;
            &&& !(step is Decode) ==> b.sessions[c].session.allow_all_write && !b.bridge_active
            &&& step is Drop ==> b.routes.len() == 0
            &&& step is Direct || step is Aliased ==> b.routes.len() > 0 && forall|i: int|
                0 <= i < b.routes.len() ==> table::exact_key(
                    (#[trigger] b.routes[i]).group,
                    b.routes[i].path,
                )
            &&& step is Direct ==> {
                let (bytes, n, last) = scan::run(
                    s,
                    b.limits.maximum_packet_size as nat,
                    FormView::Topic,
                    l.route,
                );
                &&& last.topic is Some
                &&& step == FastStepView::Direct(bytes, n, step->Direct_2)
                &&& n > 0 && bytes == n * last.total
                &&& sole_receiver(b, c, last.topic->0, step->Direct_2)
            }
            &&& step is Aliased ==> {
                let session = b.sessions[c].session;
                let (bytes, n, last) = scan::run(
                    s,
                    b.limits.maximum_packet_size as nat,
                    FormView::Alias(session.topic_alias_maximum, session.aliases.dom()),
                    l.route_alias,
                );
                &&& last.alias is Some && session.aliases.contains_key(last.alias->0)
                &&& step == FastStepView::Aliased(
                    bytes,
                    n,
                    step->Aliased_2,
                    session.aliases[last.alias->0],
                )
                &&& n > 0 && bytes == n * last.total
                &&& sole_receiver(b, c, session.aliases[last.alias->0], step->Aliased_2)
            }
        }),
{
}

/// Whether a connection is that of the only client that subscribed to exactly this topic, without an
/// identifier, and not one who is not to get its own messages back.
pub open spec fn sole_receiver(
    b: BrokerView,
    from: Seq<char>,
    t: Seq<char>,
    to: (Seq<char>, u64),
) -> bool {
    let list = table::select(b.routes, None, topic::levels(utf8::encode_utf8(t)));
    &&& list.len() == 1
    &&& list[0].client == to.0
    &&& list[0].subscription_identifier is None
    &&& list[0].no_local ==> to.0 != from
    &&& b.sessions.contains_key(to.0)
    &&& b.sessions[to.0].session.connected
    &&& b.sessions[to.0].connection == to.1
}

} // verus!
