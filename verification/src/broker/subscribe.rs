//! Subscribing, and the retained messages that a new subscription gets.

use vstd::prelude::*;
use vstd::utf8;
use crate::broker::model;
use crate::broker::model::{ActionView, BrokerView};
use crate::broker::publish::lemma_entry_inserted;
use crate::broker::state;
use crate::broker::state::{
    append_actions, BrokerAction, BrokerState, RetainedMessage, SubscribeOutcome,
};
use crate::topic::topic_matches_filter;

verus! {

impl BrokerState {
    /// Subscribes a client to a filter, unless it is over its quota.
    pub fn subscribe(
        &mut self,
        client_id: &str,
        topic_filter: &str,
        qos: u8,
        subscription_identifier: Option<u32>,
        options: u8,
    ) -> (r: (SubscribeOutcome, Vec<BrokerAction>))
        requires
            old(self).wf(),
            old(self)@.routes.len() < usize::MAX,
        ensures
            final(self).wf(),
            (final(self)@, state::actions_view(r.1@)) == old(self)@.subscribe(
                client_id@,
                topic_filter@,
                qos,
                subscription_identifier,
                options,
            ),
            r.0.accepted == !old(self)@.over_quota(client_id@, topic_filter@),
            r.0.is_new == old(self)@.is_new(client_id@, topic_filter@),
    {
        let ghost start = self@;
        let ghost was = self.sessions@;
        let mut actions: Vec<BrokerAction> = Vec::new();
        assert(state::actions_view(actions@) =~= Seq::empty());
        let mut is_new = true;
        match self.sessions.remove(client_id) {
            Some(entry) => {
                let mut entry = entry;
                is_new = !entry.session.has_subscription(topic_filter);
                let count: usize = entry.session.subscription_count();
                if is_new && count as u64 >= self.limits.max_subscriptions_per_client {
                    self.tallies.subscription_quota_rejections =
                    self.tallies.subscription_quota_rejections.wrapping_add(1);
                    proof {
                        lemma_entry_inserted(was, client_id@, entry);
                        assert(start.sessions.insert(client_id@, entry@) =~= start.sessions);
                    }
                    self.sessions.insert(client_id.to_owned(), entry);
                    return (SubscribeOutcome { accepted: false, is_new }, actions);
                }
                entry.session.add_subscription(topic_filter);
                proof {
                    lemma_entry_inserted(was, client_id@, entry);
                }
                self.sessions.insert(client_id.to_owned(), entry);
            },
            None => {
                assert(self.sessions@ =~= was);
            },
        }
        self.tallies.subscriptions = self.tallies.subscriptions.wrapping_add(1);
        self.router.subscribe_with_options(
            client_id,
            topic_filter,
            qos,
            subscription_identifier,
            options & 0x04 != 0,
            options & 0x08 != 0,
        );
        actions.push(
            BrokerAction::SaveSubscription(
                client_id.to_owned(),
                topic_filter.to_owned(),
                qos,
                subscription_identifier,
                options,
            ),
        );
        assert(state::actions_view(actions@) =~= start.subscribe(
            client_id@,
            topic_filter@,
            qos,
            subscription_identifier,
            options,
        ).1);
        (SubscribeOutcome { accepted: true, is_new }, actions)
    }

    /// Ends a subscription of a client, and says whether the client had it.
    pub fn unsubscribe(&mut self, client_id: &str, topic_filter: &str) -> (r: (
        bool,
        Vec<BrokerAction>,
    ))
        requires
            old(self).wf(),
        ensures
            final(self).wf(),
            r.0 == old(self)@.subscribed_to(client_id@, topic_filter@),
            (final(self)@, state::actions_view(r.1@)) == old(self)@.unsubscribe(
                client_id@,
                topic_filter@,
            ),
    {
        let ghost start = self@;
        let ghost was = self.sessions@;
        let mut actions: Vec<BrokerAction> = Vec::new();
        assert(state::actions_view(actions@) =~= Seq::empty());
        let removed = self.router.unsubscribe(client_id, topic_filter);
        if removed {
            match self.sessions.remove(client_id) {
                Some(entry) => {
                    let mut entry = entry;
                    entry.session.drop_subscription(topic_filter);
                    proof {
                        lemma_entry_inserted(was, client_id@, entry);
                    }
                    self.sessions.insert(client_id.to_owned(), entry);
                },
                None => {
                    assert(self.sessions@ =~= was);
                },
            }
            actions.push(
                BrokerAction::DeleteSubscription(client_id.to_owned(), topic_filter.to_owned()),
            );
            assert(state::actions_view(actions@) =~= seq![
                ActionView::DeleteSubscription(client_id@, topic_filter@),
            ]);
        } else {
            proof {
                let f = utf8::encode_utf8(topic_filter@);
                lemma_nothing_removed(
                    start.routes,
                    crate::topic::share_group(f),
                    crate::topic::levels(crate::topic::plain_filter(f)),
                    client_id@,
                );
            }
        }
        (removed, actions)
    }

    /// Queues for a client the retained messages that match a filter; those that match and have
    /// expired are forgotten.
    pub fn send_retained_for_subscription(
        &mut self,
        client_id: &str,
        topic_filter: &str,
        granted_qos: u8,
        subscription_identifier: Option<u32>,
        now_ms: u64,
    ) -> (actions: Vec<BrokerAction>)
        requires
            old(self).wf(),
        ensures
            final(self).wf(),
            (final(self)@, state::actions_view(actions@)) == old(self)@.replay(
                client_id@,
                topic_filter@,
                granted_qos,
                subscription_identifier,
                now_ms,
            ),
    {
        let ghost start = self@;
        let (messages, deletions) = self.sort_out_retained(topic_filter, now_ms);
        let ghost cleaned = self@;
        let ghost list = state::retained_view(messages@);
        let mut actions: Vec<BrokerAction> = Vec::new();
        assert(state::actions_view(actions@) =~= Seq::empty());
        let mut i: usize = 0;
        while i < messages.len()
            invariant
                i <= messages@.len(),
                self.wf(),
                list == state::retained_view(messages@),
                (self@, state::actions_view(actions@)) == cleaned.replay_to(
                    client_id@,
                    list,
                    i as nat,
                    granted_qos,
                    subscription_identifier,
                    now_ms,
                ),
            decreases messages@.len() - i,
        {
            let message = &messages[i];
            assert(list[i as int] == message@);
            let more = self.send_publish_to_client(
                client_id,
                message.topic.as_str(),
                message.payload.as_slice(),
                if message.qos <= granted_qos {
                    message.qos
                } else {
                    granted_qos
                },
                true,
                &message.properties,
                subscription_identifier,
                now_ms,
            );
            append_actions(&mut actions, more);
            i = i + 1;
        }
        let mut all = deletions;
        append_actions(&mut all, actions);
        all
    }

    /// Takes the expired of the retained messages that match a filter out, and copies the others
    /// that match.
    fn sort_out_retained(&mut self, topic_filter: &str, now_ms: u64) -> (r: (
        Vec<RetainedMessage>,
        Vec<BrokerAction>,
    ))
        requires
            old(self).wf(),
        ensures
            final(self).wf(),
            final(self)@ == (BrokerView {
                retained: model::not_stale(old(self)@.retained, topic_filter@, now_ms),
                ..old(self)@
            }),
            state::retained_view(r.0@) == model::live(
                old(self)@.retained,
                topic_filter@,
                now_ms,
            ),
            state::actions_view(r.1@) == model::stale_deleted(
                old(self)@.retained,
                topic_filter@,
                now_ms,
            ),
    {
        let mut all: Vec<RetainedMessage> = Vec::new();
        std::mem::swap(&mut all, &mut self.retained);
        let ghost views = state::retained_view(all@);
        let mut found: Vec<RetainedMessage> = Vec::new();
        let mut deletions: Vec<BrokerAction> = Vec::new();
        proof {
            assert(views.take(0) =~= Seq::empty());
            assert(state::retained_view(found@) =~= Seq::empty());
            assert(state::actions_view(deletions@) =~= Seq::empty());
            assert(state::retained_view(self.retained@) =~= Seq::empty());
        }
        for message in it: all
            invariant
                views == state::retained_view(it.seq()),
                state::retained_view(self.retained@) == model::not_stale(
                    views.take(it.index()),
                    topic_filter@,
                    now_ms,
                ),
                state::retained_view(found@) == model::live(
                    views.take(it.index()),
                    topic_filter@,
                    now_ms,
                ),
                state::actions_view(deletions@) == model::stale_deleted(
                    views.take(it.index()),
                    topic_filter@,
                    now_ms,
                ),
                self.router == old(self).router,
                self.sessions == old(self).sessions,
                self.pending_wills == old(self).pending_wills,
                self.turns == old(self).turns,
                self.auth == old(self).auth,
                self.limits == old(self).limits,
                self.topic_alias_maximum == old(self).topic_alias_maximum,
                self.bridge_prefix == old(self).bridge_prefix,
                self.bridge_active == old(self).bridge_active,
                self.next_client == old(self).next_client,
                self.next_ticket == old(self).next_ticket,
                self.tallies == old(self).tallies,
                self.displaced == old(self).displaced,
        {
            let ghost n = it.index();
            let ghost kept_before = self.retained@;
            let ghost found_before = found@;
            let ghost deletions_before = deletions@;
            let ghost view = message@;
            assert(views.take(n + 1).drop_last() =~= views.take(n));
            assert(views.take(n + 1).last() == view);
            if topic_matches_filter(message.topic.as_str(), topic_filter) {
                if message.properties.is_expired_at(now_ms) {
                    deletions.push(BrokerAction::DeleteRetained(message.topic));
                    assert(state::actions_view(deletions@) =~= state::actions_view(
                        deletions_before,
                    ).push(ActionView::DeleteRetained(view.topic)));
                } else {
                    found.push(message.clone());
                    assert(state::retained_view(found@) =~= state::retained_view(
                        found_before,
                    ).push(view));
                    self.retained.push(message);
                    assert(state::retained_view(self.retained@) =~= state::retained_view(
                        kept_before,
                    ).push(view));
                }
            } else {
                self.retained.push(message);
                assert(state::retained_view(self.retained@) =~= state::retained_view(
                    kept_before,
                ).push(view));
            }
        }
        assert(views.take(views.len() as int) =~= views);
        (found, deletions)
    }
}

/// Where a client has no route under a key, none is removed.
pub proof fn lemma_nothing_removed(
    routes: Seq<crate::router::table::Route>,
    group: Option<Seq<u8>>,
    path: Seq<Seq<u8>>,
    client: Seq<char>,
)
    requires
        crate::router::table::of_client(
            crate::router::table::select(routes, group, path),
            client,
        ) == 0,
    ensures
        crate::router::table::without(routes, group, path, client) == routes,
    decreases routes.len(),
{
    if routes.len() > 0 {
        let front = routes.drop_last();
        let selected = crate::router::table::select(front, group, path);
        let last = routes.last();
        if last.group == group && last.path == path {
            assert(selected.push(last.info).drop_last() =~= selected);
        }
        lemma_nothing_removed(front, group, path, client);
        assert(front.push(last) =~= routes);
    } else {
        assert(crate::router::table::without(routes, group, path, client) =~= routes);
    }
}

} // verus!
