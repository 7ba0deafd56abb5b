//! Wills: publishing, delaying and cancelling them.

use vstd::prelude::*;
use crate::broker::model;
use crate::broker::model::{
    ActionView, BrokerView, PendingView, PublishedView, Step, WillMessageView,
};
use crate::broker::publish::lemma_groups_exist;
use crate::broker::state;
use crate::broker::state::{append_actions, BrokerAction, BrokerState, PendingWill, WillMessage};
use crate::message;
use crate::message::{clone_text, string_opt};

verus! {

/// How long after the loss of its connection a Will is published, in seconds: not later than the
/// session ends.
pub open spec fn will_delay(delay_interval: u32, session_expiry: u32) -> u32 {
    if session_expiry == 0 || delay_interval == 0 {
        0
    } else if session_expiry == u32::MAX || delay_interval <= session_expiry {
        delay_interval
    } else {
        session_expiry
    }
}

/// A time that lies some seconds ahead, not beyond 2^64 - 1.
pub open spec fn due_after(now_ms: u64, seconds: u32) -> u64 {
    if now_ms + seconds * 1000 > u64::MAX {
        u64::MAX
    } else {
        (now_ms + seconds * 1000) as u64
    }
}

impl BrokerView {
    /// The broker without a Will that waits.
    pub open spec fn without_will(self, c: Seq<char>) -> BrokerView {
        BrokerView { wills: self.wills.remove(c), ..self }
    }

    /// The Will of a client is published, and forgotten.
    pub open spec fn publish_will_of(
        self,
        c: Seq<char>,
        message: WillMessageView,
        now_ms: u64,
        groups: Seq<Seq<u8>>,
    ) -> Step {
        let (broker, actions) = self.publish_will(message, now_ms, groups);
        (broker, actions.push(ActionView::DeleteWill(c)))
    }

    /// The Will of a client that waits is published, where there is one.
    pub open spec fn publish_pending(
        self,
        c: Seq<char>,
        now_ms: u64,
        groups: Seq<Seq<u8>>,
    ) -> Step {
        if self.wills.contains_key(c) {
            self.without_will(c).publish_will_of(c, self.wills[c].message, now_ms, groups)
        } else {
            (self, Seq::empty())
        }
    }

    /// Whether the groups are those that the Will of a client reaches, where one waits.
    pub open spec fn serves_pending(self, c: Seq<char>, groups: Seq<Seq<u8>>) -> bool {
        self.wills.contains_key(c) ==> model::reached_groups(
            self.routes,
            self.wills[c].message.topic,
            groups,
        )
    }

    /// The Will of a client that waits is cancelled, where there is one.
    pub open spec fn cancel_pending(self, c: Seq<char>) -> Step {
        if self.wills.contains_key(c) {
            (self.without_will(c), seq![ActionView::DeleteWill(c)])
        } else {
            (self, Seq::empty())
        }
    }

    /// The Will of a client, waiting or stored, is forgotten.
    pub open spec fn clear_will(self, c: Seq<char>) -> Step {
        (self.without_will(c), seq![ActionView::DeleteWill(c)])
    }

    /// A Will waits for its delay. It replaces one of the same client.
    pub open spec fn delay_will(
        self,
        c: Seq<char>,
        username: Option<Seq<char>>,
        message: WillMessageView,
        session_expiry: u32,
        now_ms: u64,
    ) -> Step {
        let delay = will_delay(message.delay_interval, session_expiry);
        (
            BrokerView {
                wills: self.wills.insert(
                    c,
                    PendingView { message, username, ticket: self.next_ticket },
                ),
                next_ticket: self.next_ticket.wrapping_add(1),
                ..self
            },
            seq![
                ActionView::SaveWill(
                    c,
                    username,
                    message,
                    session_expiry,
                    Some(due_after(now_ms, delay)),
                ),
                ActionView::ArmWill(c, self.next_ticket, (delay * 1000) as u64),
            ],
        )
    }

    /// The timer of a Will has run out: the Will is published, unless it was cancelled or
    /// replaced.
    pub open spec fn will_due(
        self,
        c: Seq<char>,
        ticket: u64,
        now_ms: u64,
        groups: Seq<Seq<u8>>,
    ) -> Step {
        if self.wills.contains_key(c) && self.wills[c].ticket == ticket {
            self.publish_pending(c, now_ms, groups)
        } else {
            (self, Seq::empty())
        }
    }
}

/// Another Will of a client, seen from outside.
pub(crate) proof fn lemma_pending_changed(
    m: Map<Seq<char>, PendingWill>,
    client: Seq<char>,
    pending: PendingWill,
)
    ensures
        state::pending_view(m.insert(client, pending)) == state::pending_view(m).insert(
            client,
            pending@,
        ),
        state::pending_view(m.remove(client)) == state::pending_view(m).remove(client),
{
    assert(state::pending_view(m.insert(client, pending)) =~= state::pending_view(m).insert(
        client,
        pending@,
    ));
    assert(state::pending_view(m.remove(client)) =~= state::pending_view(m).remove(client));
}

/// One action.
pub(crate) fn just(action: BrokerAction) -> (r: Vec<BrokerAction>)
    ensures
        state::actions_view(r@) == seq![action@],
{
    let ghost view = action@;
    let mut r: Vec<BrokerAction> = Vec::new();
    r.push(action);
    assert(state::actions_view(r@) =~= seq![view]);
    r
}

/// No action.
pub(crate) fn nothing() -> (r: Vec<BrokerAction>)
    ensures
        state::actions_view(r@) == Seq::<ActionView>::empty(),
{
    let r: Vec<BrokerAction> = Vec::new();
    assert(state::actions_view(r@) =~= Seq::<ActionView>::empty());
    r
}

impl BrokerState {
    /// How long after the loss of its connection a Will is published, in seconds.
    pub fn effective_will_delay(message: &WillMessage, session_expiry_interval: u32) -> (r: u32)
        ensures
            r == will_delay(message@.delay_interval, session_expiry_interval),
    {
        if session_expiry_interval == 0 || message.delay_interval == 0 {
            0
        } else if session_expiry_interval == u32::MAX || message.delay_interval
            <= session_expiry_interval {
            message.delay_interval
        } else {
            session_expiry_interval
        }
    }

    /// Publishes a Will: its expiry starts to count, and one that has expired goes nowhere.
    pub fn publish_will_now(&mut self, message: WillMessage, now_ms: u64) -> (actions: Vec<
        BrokerAction,
    >)
        requires
            old(self).wf(),
        ensures
            final(self).wf(),
            exists|groups: Seq<Seq<u8>>| #[trigger]
                model::reached_groups(old(self)@.routes, message@.topic, groups) && (
                    final(self)@,
                    state::actions_view(actions@),
                ) == old(self)@.publish_will(message@, now_ms, groups),
    {
        let ghost start = self@;
        let ghost view = message@;
        let mut message = message;
        message.properties.start_expiry_at(now_ms);
        let expired = message.properties.is_expired_at(now_ms);
        if expired {
            proof {
                lemma_groups_exist(start.routes, view.topic);
            }
            return nothing();
        }
        self.tallies.wills_published = self.tallies.wills_published.wrapping_add(1);
        self.tallies.messages_published_retired =
        self.tallies.messages_published_retired.wrapping_add(1);
        let mut actions = if message.retain {
            self.update_retained(
                message.topic.as_str(),
                message.payload.as_slice(),
                message.qos,
                &message.properties,
                now_ms,
            )
        } else {
            nothing()
        };
        let ghost middle = self@;
        let ghost front = state::actions_view(actions@);
        let ghost published = PublishedView {
            topic: view.topic,
            payload: view.payload,
            qos: view.qos,
            retain: view.retain,
            properties: message.properties@,
        };
        let more = self.route_publish(
            "__pipistrelle_will__",
            message.topic.as_str(),
            message.payload.as_slice(),
            message.qos,
            message.retain,
            &message.properties,
            now_ms,
        );
        let ghost added = state::actions_view(more@);
        append_actions(&mut actions, more);
        proof {
            let groups = choose|groups: Seq<Seq<u8>>| #[trigger]
                model::reached_groups(middle.routes, view.topic, groups) && (self@, added)
                    == middle.route(model::will_client(), published, now_ms, groups);
            assert(middle.routes == start.routes);
            assert((self@, state::actions_view(actions@)) == start.publish_will(
                view,
                now_ms,
                groups,
            ));
        }
        actions
    }

    /// Publishes the Will of a client, and forgets it.
    pub fn publish_will_for_client(
        &mut self,
        client_id: &str,
        message: WillMessage,
        now_ms: u64,
    ) -> (actions: Vec<BrokerAction>)
        requires
            old(self).wf(),
        ensures
            final(self).wf(),
            exists|groups: Seq<Seq<u8>>| #[trigger]
                model::reached_groups(old(self)@.routes, message@.topic, groups) && (
                    final(self)@,
                    state::actions_view(actions@),
                ) == old(self)@.publish_will_of(client_id@, message@, now_ms, groups),
    {
        let mut actions = self.publish_will_now(message, now_ms);
        let ghost before = actions@;
        actions.push(BrokerAction::DeleteWill(client_id.to_owned()));
        assert(state::actions_view(actions@) =~= state::actions_view(before).push(
            ActionView::DeleteWill(client_id@),
        ));
        actions
    }

    /// Publishes the Will of a client that waits, and says whether there was one.
    pub fn publish_pending_will_now(&mut self, client_id: &str, now_ms: u64) -> (r: (
        bool,
        Vec<BrokerAction>,
    ))
        requires
            old(self).wf(),
        ensures
            final(self).wf(),
            r.0 == old(self)@.wills.contains_key(client_id@),
            exists|groups: Seq<Seq<u8>>| #[trigger]
                old(self)@.serves_pending(client_id@, groups) && (
                    final(self)@,
                    state::actions_view(r.1@),
                ) == old(self)@.publish_pending(client_id@, now_ms, groups),
    {
        let ghost start = self@;
        let ghost was = self.pending_wills@;
        match self.pending_wills.remove(client_id) {
            Some(pending) => {
                proof {
                    lemma_pending_changed(was, client_id@, pending);
                }
                let ghost view = pending@;
                let ghost removed = self@;
                let actions = self.publish_will_for_client(client_id, pending.message, now_ms);
                proof {
                    let groups = choose|groups: Seq<Seq<u8>>| #[trigger]
                        model::reached_groups(removed.routes, view.message.topic, groups) && (
                            self@,
                            state::actions_view(actions@),
                        ) == removed.publish_will_of(client_id@, view.message, now_ms, groups);
                    assert(start.serves_pending(client_id@, groups));
                }
                (true, actions)
            },
            None => {
                proof {
                    assert(self.pending_wills@ =~= was);
                    assert(start.serves_pending(client_id@, Seq::empty()));
                }
                (false, nothing())
            },
        }
    }

    /// Cancels the Will of a client that waits, and says whether there was one.
    pub fn cancel_pending_will(&mut self, client_id: &str) -> (r: (bool, Vec<BrokerAction>))
        requires
            old(self).wf(),
        ensures
            final(self).wf(),
            r.0 == old(self)@.wills.contains_key(client_id@),
            (final(self)@, state::actions_view(r.1@)) == old(self)@.cancel_pending(client_id@),
    {
        let ghost was = self.pending_wills@;
        match self.pending_wills.remove(client_id) {
            Some(pending) => {
                proof {
                    lemma_pending_changed(was, client_id@, pending);
                }
                (true, just(BrokerAction::DeleteWill(client_id.to_owned())))
            },
            None => {
                assert(self.pending_wills@ =~= was);
                (false, nothing())
            },
        }
    }

    /// Forgets the Will of a client, waiting or stored.
    pub fn clear_persisted_will(&mut self, client_id: &str) -> (actions: Vec<BrokerAction>)
        requires
            old(self).wf(),
        ensures
            final(self).wf(),
            (final(self)@, state::actions_view(actions@)) == old(self)@.clear_will(client_id@),
    {
        let ghost was = self.pending_wills@;
        let pending = self.pending_wills.remove(client_id);
        assert(state::pending_view(self.pending_wills@) =~= state::pending_view(was).remove(
            client_id@,
        ));
        just(BrokerAction::DeleteWill(client_id.to_owned()))
    }

    /// Stores the Will of a connection that has begun.
    pub fn persist_connection_will(
        client_id: &str,
        username: &Option<String>,
        message: &WillMessage,
        session_expiry_interval: u32,
    ) -> (actions: Vec<BrokerAction>)
        ensures
            state::actions_view(actions@) == seq![
                ActionView::SaveWill(
                    client_id@,
                    string_opt(*username),
                    message@,
                    session_expiry_interval,
                    None,
                ),
            ],
    {
        just(
            BrokerAction::SaveWill(
                client_id.to_owned(),
                clone_text(username),
                message.clone(),
                session_expiry_interval,
                None,
            ),
        )
    }

    /// Lets a Will wait for its delay.
    pub fn schedule_will(
        &mut self,
        client_id: &str,
        username: &Option<String>,
        message: WillMessage,
        session_expiry_interval: u32,
        now_ms: u64,
    ) -> (actions: Vec<BrokerAction>)
        requires
            old(self).wf(),
        ensures
            final(self).wf(),
            (final(self)@, state::actions_view(actions@)) == old(self)@.delay_will(
                client_id@,
                string_opt(*username),
                message@,
                session_expiry_interval,
                now_ms,
            ),
    {
        let ghost start = self@;
        let ghost view = message@;
        let delay: u32 = BrokerState::effective_will_delay(&message, session_expiry_interval);
        let wait_ms: u64 = delay as u64 * 1000;
        let due: u64 = now_ms.saturating_add(wait_ms);
        let ticket: u64 = self.next_ticket;
        let mut actions: Vec<BrokerAction> = Vec::new();
        actions.push(
            BrokerAction::SaveWill(
                client_id.to_owned(),
                clone_text(username),
                message.clone(),
                session_expiry_interval,
                Some(due),
            ),
        );
        actions.push(BrokerAction::ArmWill(client_id.to_owned(), ticket, wait_ms));
        let pending = PendingWill { message, username: clone_text(username), ticket };
        proof {
            lemma_pending_changed(self.pending_wills@, client_id@, pending);
        }
        self.pending_wills.insert(client_id.to_owned(), pending);
        self.next_ticket = self.next_ticket.wrapping_add(1);
        assert(state::actions_view(actions@) =~= start.delay_will(
            client_id@,
            string_opt(*username),
            view,
            session_expiry_interval,
            now_ms,
        ).1);
        actions
    }

    /// The timer of a Will has run out: publishes the Will, unless it was cancelled or replaced.
    pub fn will_due(&mut self, client_id: &str, ticket: u64, now_ms: u64) -> (actions: Vec<
        BrokerAction,
    >)
        requires
            old(self).wf(),
        ensures
            final(self).wf(),
            exists|groups: Seq<Seq<u8>>| #[trigger]
                old(self)@.serves_pending(client_id@, groups) && (
                    final(self)@,
                    state::actions_view(actions@),
                ) == old(self)@.will_due(client_id@, ticket, now_ms, groups),
    {
        let ghost start = self@;
        let current = match self.pending_wills.get(client_id) {
            Some(pending) => pending.ticket == ticket,
            None => false,
        };
        if current {
            let (_, actions) = self.publish_pending_will_now(client_id, now_ms);
            actions
        } else {
            proof {
                let t = start.wills[client_id@].message.topic;
                lemma_groups_exist(start.routes, t);
                let groups = choose|groups: Seq<Seq<u8>>| #[trigger]
                    model::reached_groups(start.routes, t, groups);
                assert(start.serves_pending(client_id@, groups));
            }
            nothing()
        }
    }
}

/// A Will is never published later than its session ends.
pub proof fn law_will_is_not_later_than_session_end(delay_interval: u32, session_expiry: u32)
    ensures
        will_delay(delay_interval, session_expiry) <= session_expiry,
        will_delay(delay_interval, session_expiry) <= delay_interval,
{
}

/// A Will that was cancelled, or that its client's next one replaced, is not published.
pub proof fn law_cancelled_will_is_not_published(
    b: BrokerView,
    c: Seq<char>,
    username: Option<Seq<char>>,
    first: WillMessageView,
    second: WillMessageView,
    session_expiry: u32,
    now_ms: u64,
    later_ms: u64,
    groups: Seq<Seq<u8>>,
)
    ensures
        ({
            let waiting = b.delay_will(c, username, first, session_expiry, now_ms).0;
            let cancelled = waiting.cancel_pending(c).0;
            let replaced = waiting.delay_will(c, username, second, session_expiry, now_ms).0;
            let ticket = b.next_ticket;
            &&& cancelled.will_due(c, ticket, later_ms, groups) == (
                cancelled,
                Seq::<ActionView>::empty(),
            )
            &&& replaced.will_due(c, ticket, later_ms, groups) == (
                replaced,
                Seq::<ActionView>::empty(),
            )
        }),
{
}

} // verus!
