//! Publishing: to subscribers, to groups of shared subscriptions, over the bridge, and retained.

use vstd::prelude::*;
use vstd::utf8;
use crate::broker::model;
use crate::broker::model::{ActionView, BrokerView, PublishedView, Tallies};
use crate::broker::state;
use crate::broker::state::{
    append_actions, tag_effects, BridgeMessage, BrokerAction, BrokerState, Registered,
    RetainedMessage,
};
use crate::message::ApplicationProperties;
use crate::router::table;
use crate::router::table::{InfoView, Route, SubscriptionInfo};
use crate::router::trie;
use crate::session::model::MessageView;
use crate::text::{copy_bytes, starts_with, str_eq};
use crate::topic;

verus! {

/// Another entry of a client, seen from outside.
pub(crate) proof fn lemma_entry_inserted(
    m: Map<Seq<char>, Registered>,
    client: Seq<char>,
    entry: Registered,
)
    ensures
        state::entries_view(m.remove(client).insert(client, entry)) == state::entries_view(
            m,
        ).insert(client, entry@),
        state::entries_view(m.insert(client, entry)) == state::entries_view(m).insert(
            client,
            entry@,
        ),
        state::entries_view(m.remove(client)) == state::entries_view(m).remove(client),
{
    assert(state::entries_view(m.remove(client).insert(client, entry)) =~= state::entries_view(
        m,
    ).insert(client, entry@));
    assert(state::entries_view(m.insert(client, entry)) =~= state::entries_view(m).insert(
        client,
        entry@,
    ));
    assert(state::entries_view(m.remove(client)) =~= state::entries_view(m).remove(client));
}

/// Where every route names exactly one topic, a message reaches those that name its topic, and
/// no group.
pub(crate) proof fn lemma_exact_only(
    routes: Seq<Route>,
    group: Option<Seq<u8>>,
    prefix: Seq<Seq<u8>>,
    levels: Seq<Seq<u8>>,
)
    requires
        forall|i: int|
            0 <= i < routes.len() ==> table::exact_key(
                (#[trigger] routes[i]).group,
                routes[i].path,
            ),
    ensures
        table::routed(routes, group, prefix, levels) == table::select(
            routes,
            group,
            prefix + levels,
        ),
    decreases levels.len(),
{
    assert(topic::hash()[0] == topic::HASH && topic::plus()[0] == topic::PLUS);
    assert(topic::hash().contains(topic::HASH) && topic::plus().contains(topic::PLUS));
    let with_hash = prefix.push(topic::hash());
    assert(with_hash[prefix.len() as int] == topic::hash());
    lemma_no_such_key(routes, group, with_hash);
    if levels.len() == 0 {
        assert(prefix + levels =~= prefix);
        assert(table::routed(routes, group, prefix, levels) =~= table::select(
            routes,
            group,
            prefix,
        ));
    } else {
        let rest = levels.drop_first();
        let with_plus = prefix.push(topic::plus());
        lemma_exact_only(routes, group, prefix.push(levels[0]), rest);
        lemma_exact_only(routes, group, with_plus, rest);
        assert(prefix.push(levels[0]) + rest =~= prefix + levels);
        assert((with_plus + rest)[prefix.len() as int] == topic::plus());
        lemma_no_such_key(routes, group, with_plus + rest);
        if levels[0] == topic::plus() || levels[0] == topic::hash() {
            assert((prefix + levels)[prefix.len() as int] == levels[0]);
            lemma_no_such_key(routes, group, prefix + levels);
        }
        assert(table::routed(routes, group, prefix, levels) =~= table::select(
            routes,
            group,
            prefix + levels,
        ));
    }
}

/// No exact route stands under a key that is not exact.
pub(crate) proof fn lemma_no_such_key(routes: Seq<Route>, group: Option<Seq<u8>>, path: Seq<Seq<u8>>)
    requires
        forall|i: int|
            0 <= i < routes.len() ==> table::exact_key(
                (#[trigger] routes[i]).group,
                routes[i].path,
            ),
    ensures
        !table::exact_key(group, path) ==> table::select(routes, group, path).len() == 0,
        (exists|i: int| 0 <= i < path.len() && table::has_wildcard(#[trigger] path[i]))
            ==> table::select(routes, group, path).len() == 0,
    decreases routes.len(),
{
    if routes.len() > 0 {
        let front = routes.drop_last();
        assert forall|i: int| 0 <= i < front.len() implies table::exact_key(
            (#[trigger] front[i]).group,
            front[i].path,
        ) by {
            assert(front[i] == routes[i]);
        }
        lemma_no_such_key(front, group, path);
        assert(table::exact_key(routes[routes.len() - 1].group, routes[routes.len() - 1].path));
        if exists|i: int| 0 <= i < path.len() && table::has_wildcard(#[trigger] path[i]) {
            assert(!table::exact_key(group, path));
        }
    }
}

impl BrokerState {
    /// Queues a message for a client, where it has a session.
    pub fn send_publish_to_client(
        &mut self,
        client_id: &str,
        topic: &str,
        payload: &[u8],
        qos: u8,
        retain: bool,
        properties: &ApplicationProperties,
        subscription_identifier: Option<u32>,
        now_ms: u64,
    ) -> (actions: Vec<BrokerAction>)
        requires
            old(self).wf(),
        ensures
            final(self).wf(),
            (final(self)@, state::actions_view(actions@)) == old(self)@.deliver(
                client_id@,
                (MessageView {
                    topic: topic@,
                    payload: payload@,
                    retain,
                    subscription_identifier,
                    properties: properties@,
                }),
                qos,
                now_ms,
            ),
    {
        let ghost was = self.sessions@;
        match self.sessions.remove(client_id) {
            None => {
                let actions: Vec<BrokerAction> = Vec::new();
                proof {
                    assert(self.sessions@ =~= was);
                    assert(state::actions_view(actions@) =~= Seq::empty());
                }
                actions
            },
            Some(entry) => {
                let mut entry = entry;
                let connection: u64 = entry.connection;
                let effects = entry.session.enqueue_publish(
                    topic,
                    payload,
                    qos,
                    retain,
                    properties,
                    subscription_identifier,
                    now_ms,
                );
                proof {
                    lemma_entry_inserted(was, client_id@, entry);
                }
                self.sessions.insert(client_id.to_owned(), entry);
                tag_effects(client_id, connection, effects)
            },
        }
    }

    /// Queues a published message for each subscriber of a list, but for whoever published it
    /// and does not want their own messages.
    fn deliver_to_all(
        &mut self,
        list: &Vec<SubscriptionInfo>,
        from_client: &str,
        topic: &str,
        payload: &[u8],
        qos: u8,
        retain: bool,
        properties: &ApplicationProperties,
        now_ms: u64,
    ) -> (actions: Vec<BrokerAction>)
        requires
            old(self).wf(),
        ensures
            final(self).wf(),
            (final(self)@, state::actions_view(actions@)) == old(self)@.deliver_to(
                table::infos(list@),
                list@.len(),
                from_client@,
                (PublishedView {
                    topic: topic@,
                    payload: payload@,
                    qos,
                    retain,
                    properties: properties@,
                }),
                now_ms,
            ),
    {
        let ghost start = self@;
        let ghost infos = table::infos(list@);
        let ghost p = PublishedView {
            topic: topic@,
            payload: payload@,
            qos,
            retain,
            properties: properties@,
        };
        let mut actions: Vec<BrokerAction> = Vec::new();
        assert(state::actions_view(actions@) =~= Seq::empty());
        let mut i: usize = 0;
        while i < list.len()
            invariant
                i <= list@.len(),
                self.wf(),
                infos == table::infos(list@),
                p == (PublishedView {
                    topic: topic@,
                    payload: payload@,
                    qos,
                    retain,
                    properties: properties@,
                }),
                (self@, state::actions_view(actions@)) == start.deliver_to(
                    infos,
                    i as nat,
                    from_client@,
                    p,
                    now_ms,
                ),
            decreases list@.len() - i,
        {
            let info = &list[i];
            assert(infos[i as int] == info@);
            if !(info.no_local && str_eq(info.client_id.as_str(), from_client)) {
                let more = self.send_publish_to_client(
                    info.client_id.as_str(),
                    topic,
                    payload,
                    if qos <= info.qos {
                        qos
                    } else {
                        info.qos
                    },
                    retain && info.retain_as_published,
                    properties,
                    info.subscription_identifier,
                    now_ms,
                );
                append_actions(&mut actions, more);
            }
            i = i + 1;
        }
        actions
    }

    /// Publishes a message: over the bridge, to each subscriber, and to one member of each group
    /// of shared subscriptions; the groups come in any order. A message that has expired goes
    /// nowhere.
    pub fn route_publish(
        &mut self,
        from_client: &str,
        topic: &str,
        payload: &[u8],
        qos: u8,
        retain: bool,
        properties: &ApplicationProperties,
        now_ms: u64,
    ) -> (actions: Vec<BrokerAction>)
        requires
            old(self).wf(),
        ensures
            final(self).wf(),
            exists|groups: Seq<Seq<u8>>| #[trigger]
                model::reached_groups(old(self)@.routes, topic@, groups) && (
                    final(self)@,
                    state::actions_view(actions@),
                ) == old(self)@.route(
                    from_client@,
                    (PublishedView {
                        topic: topic@,
                        payload: payload@,
                        qos,
                        retain,
                        properties: properties@,
                    }),
                    now_ms,
                    groups,
                ),
    {
        let ghost start = self@;
        let ghost p = PublishedView {
            topic: topic@,
            payload: payload@,
            qos,
            retain,
            properties: properties@,
        };
        let mut actions: Vec<BrokerAction> = Vec::new();
        assert(state::actions_view(actions@) =~= Seq::empty());
        let result = self.matching(topic);
        let ghost order = group_names(result.shared.groups@);
        proof {
            lemma_group_order(start.routes, topic@, result);
        }
        if properties.is_expired_at(now_ms) {
            return actions;
        }
        if !self.router.has_routes() && !self.bridge_active {
            return actions;
        }
        if !str_eq(from_client, "bridge_client") {
            if let Some(prefix) = &self.bridge_prefix {
                if starts_with(topic, prefix.as_str()) {
                    let message = BridgeMessage {
                        topic: topic.to_owned(),
                        payload: copy_bytes(payload),
                        retain,
                        properties: properties.clone(),
                    };
                    actions.push(BrokerAction::Forward(message));
                }
            }
        }
        let ghost forwarded = if start.forwards(from_client@, topic@) {
            seq![ActionView::Forward(p.for_bridge())]
        } else {
            Seq::empty()
        };
        assert(state::actions_view(actions@) =~= forwarded);
        let ghost list = table::routed(
            start.routes,
            None,
            Seq::empty(),
            model::topic_levels(topic@),
        );
        assert(result.reached(None) == list);
        let more = self.deliver_to_all(
            &result.normal,
            from_client,
            topic,
            payload,
            qos,
            retain,
            properties,
            now_ms,
        );
        append_actions(&mut actions, more);
        let ghost middle = self@;
        let ghost so_far = state::actions_view(actions@);
        proof {
            lemma_deliver_to_frame(start, list, list.len(), from_client@, p, now_ms);
        }
        let more = self.serve_all(&result.shared.groups, topic, payload, qos, retain, properties, now_ms);
        append_actions(&mut actions, more);
        actions
    }

    /// Whom a message for a topic reaches. Where every route names exactly one topic, the index
    /// of the exact routes says so.
    fn matching(&self, topic: &str) -> (result: trie::RouteResult)
        requires
            self.wf(),
        ensures
            result.shared.wf(),
            forall|g: Option<Seq<u8>>| #[trigger]
                result.reached(g) == table::routed(
                    self@.routes,
                    g,
                    Seq::empty(),
                    model::topic_levels(topic@),
                ),
    {
        if !self.router.has_only_exact_routes() {
            return self.router.match_topic(topic);
        }
        let mut result = trie::RouteResult::nobody();
        let ghost nobody = result;
        let ghost levels = model::topic_levels(topic@);
        if let Some(list) = self.router.match_exact(topic) {
            result.normal = clone_infos(list);
        }
        proof {
            assert forall|g: Option<Seq<u8>>| #[trigger]
                result.reached(g) == table::routed(self@.routes, g, Seq::empty(), levels) by {
                lemma_exact_only(self@.routes, g, Seq::empty(), levels);
                lemma_no_such_key(self@.routes, g, levels);
                assert(Seq::<Seq<u8>>::empty() + levels =~= levels);
                crate::router::topic_router::lemma_exact_topic(utf8::encode_utf8(topic@));
                assert(nobody.reached(g).len() == 0);
                assert(result.reached(g) =~= table::select(self@.routes, g, levels));
            }
        }
        result
    }

    /// Queues a published message for one member of each group.
    fn serve_all(
        &mut self,
        groups: &Vec<trie::Bucket>,
        topic: &str,
        payload: &[u8],
        qos: u8,
        retain: bool,
        properties: &ApplicationProperties,
        now_ms: u64,
    ) -> (actions: Vec<BrokerAction>)
        requires
            old(self).wf(),
            forall|i: int|
                0 <= i < groups@.len() ==> (#[trigger] groups@[i]).members@.len() > 0
                    && table::infos(groups@[i].members@) == table::routed(
                    old(self)@.routes,
                    Some(groups@[i].name@),
                    Seq::empty(),
                    model::topic_levels(topic@),
                ),
        ensures
            final(self).wf(),
            (final(self)@, state::actions_view(actions@)) == old(self)@.serve_groups(
                group_names(groups@),
                groups@.len(),
                (PublishedView {
                    topic: topic@,
                    payload: payload@,
                    qos,
                    retain,
                    properties: properties@,
                }),
                now_ms,
            ),
    {
        let ghost start = self@;
        let ghost names = group_names(groups@);
        let ghost p = PublishedView {
            topic: topic@,
            payload: payload@,
            qos,
            retain,
            properties: properties@,
        };
        let mut actions: Vec<BrokerAction> = Vec::new();
        assert(state::actions_view(actions@) =~= Seq::empty());
        let mut i: usize = 0;
        while i < groups.len()
            invariant
                i <= groups@.len(),
                self.wf(),
                names == group_names(groups@),
                p == (PublishedView {
                    topic: topic@,
                    payload: payload@,
                    qos,
                    retain,
                    properties: properties@,
                }),
                self@.routes == start.routes,
                forall|k: int|
                    0 <= k < groups@.len() ==> (#[trigger] groups@[k]).members@.len() > 0
                        && table::infos(groups@[k].members@) == table::routed(
                        start.routes,
                        Some(groups@[k].name@),
                        Seq::empty(),
                        model::topic_levels(topic@),
                    ),
                (self@, state::actions_view(actions@)) == start.serve_groups(
                    names,
                    i as nat,
                    p,
                    now_ms,
                ),
            decreases groups@.len() - i,
        {
            let group = &groups[i];
            assert(names[i as int] == group.name@);
            let ghost before = self@;
            let members = &group.members;
            let turn: u64 = self.turns.next(group.name.as_slice());
            let index: usize = (turn % (members.len() as u64)) as usize;
            let info = &members[index];
            assert(table::infos(members@)[index as int] == info@);
            let more = self.send_publish_to_client(
                info.client_id.as_str(),
                topic,
                payload,
                if qos <= info.qos {
                    qos
                } else {
                    info.qos
                },
                retain && info.retain_as_published,
                properties,
                info.subscription_identifier,
                now_ms,
            );
            append_actions(&mut actions, more);
            i = i + 1;
        }
        actions
    }

    /// Retains a message: it replaces that of its topic. One that is empty or has expired
    /// removes it.
    pub fn update_retained(
        &mut self,
        topic: &str,
        payload: &[u8],
        qos: u8,
        properties: &ApplicationProperties,
        now_ms: u64,
    ) -> (actions: Vec<BrokerAction>)
        requires
            old(self).wf(),
        ensures
            final(self).wf(),
            (final(self)@, state::actions_view(actions@)) == old(self)@.retain(
                topic@,
                payload@,
                qos,
                properties@,
                now_ms,
            ),
    {
        let ghost start = self@;
        self.forget_topic(topic);
        let mut actions: Vec<BrokerAction> = Vec::new();
        if payload.len() == 0 || properties.is_expired_at(now_ms) {
            actions.push(BrokerAction::DeleteRetained(topic.to_owned()));
            assert(state::actions_view(actions@) =~= seq![ActionView::DeleteRetained(topic@)]);
        } else {
            let message = RetainedMessage {
                topic: topic.to_owned(),
                payload: copy_bytes(payload),
                qos,
                properties: properties.clone(),
            };
            let ghost view = message@;
            let ghost rest = self.retained@;
            self.retained.push(message.clone());
            assert(state::retained_view(self.retained@) =~= state::retained_view(rest).push(view));
            actions.push(BrokerAction::SaveRetained(message));
            assert(state::actions_view(actions@) =~= seq![ActionView::SaveRetained(view)]);
        }
        actions
    }

    /// Removes the retained message of a topic.
    pub(crate) fn forget_topic(&mut self, topic: &str)
        requires
            old(self).wf(),
        ensures
            final(self).wf(),
            final(self)@ == (BrokerView {
                retained: model::without_topic(old(self)@.retained, topic@),
                ..old(self)@
            }),
    {
        let mut all: Vec<RetainedMessage> = Vec::new();
        std::mem::swap(&mut all, &mut self.retained);
        let ghost views = state::retained_view(all@);
        assert(views.take(0) =~= Seq::empty());
        for message in it: all
            invariant
                views == state::retained_view(it.seq()),
                state::retained_view(self.retained@) == model::without_topic(
                    views.take(it.index()),
                    topic@,
                ),
                self.router == old(self).router,
                self.sessions == old(self).sessions,
                self.pending_wills == old(self).pending_wills,
                self.turns == old(self).turns,
                self.auth == old(self).auth,
                self.limits == old(self).limits,
                self.topic_alias_maximum == old(self).topic_alias_maximum,
                self.bridge_prefix == old(self).bridge_prefix,
                self.bridge_active == old(self).bridge_active,
                self.next_client == old(self).next_client,
                self.next_ticket == old(self).next_ticket,
                self.tallies == old(self).tallies,
                self.displaced == old(self).displaced,
        {
            let ghost n = it.index();
            let ghost before = self.retained@;
            assert(views.take(n + 1).drop_last() =~= views.take(n));
            assert(views.take(n + 1).last() == message@);
            if !str_eq(message.topic.as_str(), topic) {
                let ghost view = message@;
                self.retained.push(message);
                assert(state::retained_view(self.retained@) =~= state::retained_view(before).push(
                    view,
                ));
            }
        }
        assert(views.take(views.len() as int) =~= views);
    }
}

/// Copies a list of subscriptions.
fn clone_infos(list: &Vec<SubscriptionInfo>) -> (r: Vec<SubscriptionInfo>)
    ensures
        table::infos(r@) == table::infos(list@),
{
    let mut r: Vec<SubscriptionInfo> = Vec::new();
    let mut i: usize = 0;
    while i < list.len()
        invariant
            i <= list@.len(),
            r@.len() == i,
            forall|k: int| 0 <= k < i ==> #[trigger] r@[k] == list@[k],
        decreases list@.len() - i,
    {
        r.push(list[i].clone());
        i = i + 1;
    }
    assert(table::infos(r@) =~= table::infos(list@));
    r
}

/// The names of groups.
pub open spec fn group_names(groups: Seq<trie::Bucket>) -> Seq<Seq<u8>> {
    Seq::new(groups.len(), |i: int| groups[i].name@)
}

/// The groups of a routing result are those that a message for the topic reaches.
pub(crate) proof fn lemma_group_order(routes: Seq<Route>, t: Seq<char>, result: trie::RouteResult)
    requires
        result.shared.wf(),
        forall|g: Option<Seq<u8>>| #[trigger]
            result.reached(g) == table::routed(routes, g, Seq::empty(), model::topic_levels(t)),
    ensures
        model::reached_groups(routes, t, group_names(result.shared.groups@)),
        forall|i: int|
            0 <= i < result.shared.groups@.len() ==> (
            #[trigger] result.shared.groups@[i]).members@.len() > 0 && table::infos(
                result.shared.groups@[i].members@,
            ) == table::routed(
                routes,
                Some(result.shared.groups@[i].name@),
                Seq::empty(),
                model::topic_levels(t),
            ),
{
    let groups = result.shared.groups@;
    let names = group_names(groups);
    assert forall|i: int| 0 <= i < groups.len() implies (#[trigger] groups[i]).members@.len() > 0
        && table::infos(groups[i].members@) == table::routed(
        routes,
        Some(groups[i].name@),
        Seq::empty(),
        model::topic_levels(t),
    ) by {
        trie::lemma_members_at(groups, i);
        assert(result.reached(Some(groups[i].name@)) == table::infos(groups[i].members@));
    }
    assert(names.no_duplicates()) by {
        assert forall|i: int, j: int|
            0 <= i < names.len() && 0 <= j < names.len() && i != j implies names[i]
            != names[j] by {
            assert(groups[i].name@ == names[i] && groups[j].name@ == names[j]);
        }
    }
    assert forall|g: Seq<u8>| #[trigger] names.contains(g) <==> table::routed(
        routes,
        Some(g),
        Seq::empty(),
        model::topic_levels(t),
    ).len() > 0 by {
        assert(result.reached(Some(g)) == table::routed(
            routes,
            Some(g),
            Seq::empty(),
            model::topic_levels(t),
        ));
        if names.contains(g) {
            let i = choose|i: int| 0 <= i < names.len() && names[i] == g;
            assert(groups[i].members@.len() > 0);
        } else {
            assert forall|i: int| 0 <= i < groups.len() implies (#[trigger] groups[i]).name@
                != g by {
                assert(names[i] == groups[i].name@);
            }
            trie::lemma_members_absent(groups, g);
        }
    }
}

/// The groups of the first `n` routes that a message for a topic reaches, each once.
spec fn groups_among(routes: Seq<Route>, levels: Seq<Seq<u8>>, n: nat) -> Seq<Seq<u8>>
    decreases n,
{
    if n == 0 {
        Seq::empty()
    } else {
        let front = groups_among(routes, levels, (n - 1) as nat);
        match routes[n - 1].group {
            Some(g) => if table::routed(routes, Some(g), Seq::empty(), levels).len() > 0
                && !front.contains(g) {
                front.push(g)
            } else {
                front
            },
            None => front,
        }
    }
}

/// The groups of the first routes are each listed once.
proof fn lemma_groups_among(routes: Seq<Route>, levels: Seq<Seq<u8>>, n: nat)
    requires
        n <= routes.len(),
    ensures
        groups_among(routes, levels, n).no_duplicates(),
        forall|g: Seq<u8>| #[trigger]
            groups_among(routes, levels, n).contains(g) <==> (table::routed(
                routes,
                Some(g),
                Seq::empty(),
                levels,
            ).len() > 0 && exists|i: int| 0 <= i < n && (#[trigger] routes[i]).group == Some(g)),
    decreases n,
{
    if n > 0 {
        let front = groups_among(routes, levels, (n - 1) as nat);
        let all = groups_among(routes, levels, n);
        lemma_groups_among(routes, levels, (n - 1) as nat);
        let last = routes[n - 1].group;
        assert forall|g: Seq<u8>| #[trigger] all.contains(g) <==> (table::routed(
            routes,
            Some(g),
            Seq::empty(),
            levels,
        ).len() > 0 && exists|i: int| 0 <= i < n && (#[trigger] routes[i]).group == Some(g)) by {
            if front.contains(g) {
                let k = choose|k: int| 0 <= k < front.len() && front[k] == g;
                assert(all[k] == g);
            }
            if last == Some(g) {
                assert(routes[n - 1].group == Some(g));
                if table::routed(routes, Some(g), Seq::empty(), levels).len() > 0 && !front.contains(
                    g,
                ) {
                    assert(all[front.len() as int] == g);
                }
            }
            if all.contains(g) && !front.contains(g) {
                let k = choose|k: int| 0 <= k < all.len() && all[k] == g;
                if k < front.len() {
                    assert(front[k] == g);
                }
            }
        }
    }
}

/// Whoever is found under a key has a route of that group.
proof fn lemma_selected_group(routes: Seq<Route>, group: Option<Seq<u8>>, path: Seq<Seq<u8>>)
    ensures
        table::select(routes, group, path).len() > 0 ==> exists|i: int|
            0 <= i < routes.len() && (#[trigger] routes[i]).group == group,
    decreases routes.len(),
{
    if routes.len() > 0 {
        lemma_selected_group(routes.drop_last(), group, path);
        if routes.last().group == group {
            assert(routes[routes.len() - 1].group == group);
        } else if table::select(routes, group, path).len() > 0 {
            let i = choose|i: int|
                0 <= i < routes.drop_last().len() && (#[trigger] routes.drop_last()[i]).group
                    == group;
            assert(routes[i].group == group);
        }
    }
}

/// Whoever is reached has a route of that group.
proof fn lemma_reached_group(
    routes: Seq<Route>,
    group: Option<Seq<u8>>,
    prefix: Seq<Seq<u8>>,
    levels: Seq<Seq<u8>>,
)
    ensures
        table::routed(routes, group, prefix, levels).len() > 0 ==> exists|i: int|
            0 <= i < routes.len() && (#[trigger] routes[i]).group == group,
    decreases levels.len(),
{
    lemma_selected_group(routes, group, prefix.push(topic::hash()));
    lemma_selected_group(routes, group, prefix);
    if levels.len() > 0 {
        lemma_reached_group(routes, group, prefix.push(levels[0]), levels.drop_first());
        lemma_reached_group(routes, group, prefix.push(topic::plus()), levels.drop_first());
    }
}

/// The groups that a message reaches can be put in an order.
pub proof fn lemma_groups_exist(routes: Seq<Route>, t: Seq<char>)
    ensures
        exists|groups: Seq<Seq<u8>>| #[trigger] model::reached_groups(routes, t, groups),
{
    let levels = model::topic_levels(t);
    let groups = groups_among(routes, levels, routes.len());
    lemma_groups_among(routes, levels, routes.len());
    assert forall|g: Seq<u8>| #[trigger] groups.contains(g) <==> table::routed(
        routes,
        Some(g),
        Seq::empty(),
        levels,
    ).len() > 0 by {
        lemma_reached_group(routes, Some(g), Seq::empty(), levels);
    }
    assert(model::reached_groups(routes, t, groups));
}

/// Delivering messages changes sessions only.
pub proof fn lemma_deliver_to_frame(
    b: BrokerView,
    list: Seq<InfoView>,
    n: nat,
    from: Seq<char>,
    p: PublishedView,
    now_ms: u64,
)
    ensures
        ({
            let after = b.deliver_to(list, n, from, p, now_ms).0;
            after == (BrokerView { sessions: after.sessions, ..b })
        }),
    decreases n,
{
    if n > 0 {
        lemma_deliver_to_frame(b, list, (n - 1) as nat, from, p, now_ms);
    }
}

/// Serving groups forgets no session.
proof fn lemma_serve_keeps(b: BrokerView, groups: Seq<Seq<u8>>, n: nat, p: PublishedView, now_ms: u64, c: Seq<char>)
    requires
        b.sessions.contains_key(c),
    ensures
        b.serve_groups(groups, n, p, now_ms).0.sessions.contains_key(c),
    decreases n,
{
    if n > 0 {
        lemma_serve_keeps(b, groups, (n - 1) as nat, p, now_ms, c);
    }
}

/// Delivering messages forgets no session.
proof fn lemma_deliver_to_keeps(
    b: BrokerView,
    list: Seq<InfoView>,
    n: nat,
    from: Seq<char>,
    p: PublishedView,
    now_ms: u64,
    c: Seq<char>,
)
    requires
        b.sessions.contains_key(c),
    ensures
        b.deliver_to(list, n, from, p, now_ms).0.sessions.contains_key(c),
    decreases n,
{
    if n > 0 {
        lemma_deliver_to_keeps(b, list, (n - 1) as nat, from, p, now_ms, c);
    }
}

/// Publishing a Will forgets no session.
pub(crate) proof fn lemma_will_keeps_sessions(
    b: BrokerView,
    c: Seq<char>,
    message: model::WillMessageView,
    now_ms: u64,
    groups: Seq<Seq<u8>>,
)
    requires
        b.sessions.contains_key(c),
    ensures
        b.publish_will(message, now_ms, groups).0.sessions.contains_key(c),
{
    let properties = crate::message::started(message.properties, now_ms);
    if !properties.expired(now_ms) {
        let counted = BrokerView {
            tallies: Tallies {
                wills_published: b.tallies.wills_published.wrapping_add(1),
                messages_published_retired: b.tallies.messages_published_retired.wrapping_add(1),
                ..b.tallies
            },
            ..b
        };
        let (broker, actions) = if message.retain {
            counted.retain(message.topic, message.payload, message.qos, properties, now_ms)
        } else {
            (counted, Seq::empty())
        };
        let p = PublishedView {
            topic: message.topic,
            payload: message.payload,
            qos: message.qos,
            retain: message.retain,
            properties,
        };
        let list = table::routed(
            broker.routes,
            None,
            Seq::empty(),
            model::topic_levels(p.topic),
        );
        lemma_deliver_to_keeps(broker, list, list.len(), model::will_client(), p, now_ms, c);
        let middle = broker.deliver_to(list, list.len(), model::will_client(), p, now_ms).0;
        lemma_serve_keeps(middle, groups, groups.len(), p, now_ms, c);
    }
}

} // verus!
