//! What a client of the benchmark does, one step after the other.

use vstd::prelude::*;
use crate::bench::args::Mode;
use crate::bench::plan::next_count;

verus! {

/// What a client does next.
#[derive(Debug, Clone, Copy, PartialEq, Eq, Structural)]
pub enum WorkerStep {
    /// It sends the message that establishes the topic alias.
    Mapping,
    /// It sends so many messages.
    Window(u64),
    /// It waits until so many of its messages are acknowledged.
    AwaitAcknowledged(u64),
    /// It waits until it has received so many messages.
    AwaitReceived(u64),
    /// It sends the message that marks the end.
    Marker,
    /// It is done.
    Done,
}

/// How far a client is.
#[derive(Debug, Clone, Copy, PartialEq, Eq, Structural)]
pub enum Phase {
    /// It has not begun.
    Begin,
    /// It sends messages.
    Sending,
    /// It has sent messages that are to be acknowledged before the next.
    Unacknowledged,
    /// It has received what it sent, and acknowledgements are left.
    Received,
    /// It has marked the end.
    Marked,
    /// It is done.
    Finished,
}

/// What a client is to do, and how far it is.
#[derive(Debug, Clone, Copy, PartialEq, Eq, Structural)]
pub struct WorkerPlan {
    /// What is measured.
    pub mode: Mode,
    /// The quality of service.
    pub qos: u8,
    /// Whether the messages use a topic alias.
    pub topic_alias: bool,
    /// How many messages it sends.
    pub messages: u64,
    /// How many messages it sends at a time.
    pub window: u64,
    /// How many messages it has sent.
    pub sent: u64,
    /// How far it is.
    pub phase: Phase,
}

impl WorkerPlan {
    /// The quality of service is 0 or 1, at least one message is sent at a time, and no more than
    /// there are; the end is not begun before all are sent.
    pub open spec fn wf(self) -> bool {
        &&& self.qos <= 1
        &&& self.window > 0
        &&& self.sent <= self.messages
        &&& self.phase is Begin ==> self.sent == 0
        &&& self.phase is Received || self.phase is Marked || self.phase is Finished ==> self.sent
            == self.messages
    }

    /// A client that has not begun. It sends at least one message at a time.
    pub open spec fn begun(
        mode: Mode,
        qos: u8,
        topic_alias: bool,
        messages: u64,
        window: u64,
    ) -> WorkerPlan {
        WorkerPlan {
            mode,
            qos,
            topic_alias,
            messages,
            window: if window == 0 {
                1
            } else {
                window
            },
            sent: 0,
            phase: Phase::Begin,
        }
    }

    /// A client that has not begun.
    pub fn new(mode: Mode, qos: u8, topic_alias: bool, messages: u64, window: u64) -> (r: Self)
        requires
            qos <= 1,
        ensures
            r.wf(),
            r == WorkerPlan::begun(mode, qos, topic_alias, messages, window),
    {
        WorkerPlan {
            mode,
            qos,
            topic_alias,
            messages,
            window: if window == 0 {
                1
            } else {
                window
            },
            sent: 0,
            phase: Phase::Begin,
        }
    }

    /// How many messages are sent next.
    pub open spec fn count(self) -> u64 {
        if self.window < self.messages - self.sent {
            self.window
        } else {
            (self.messages - self.sent) as u64
        }
    }

    /// The next step once all messages are sent: with QoS 0 a client that does not receive what
    /// it sends marks the end; every other waits for what it receives, and with QoS 1 for the
    /// acknowledgements.
    pub open spec fn ending(self) -> (WorkerPlan, WorkerStep) {
        match self.mode {
            Mode::Loopback => (
                WorkerPlan {
                    phase: if self.qos == 1 {
                        Phase::Received
                    } else {
                        Phase::Finished
                    },
                    ..self
                },
                WorkerStep::AwaitReceived(self.messages),
            ),
            Mode::Ingest => if self.qos == 1 {
                (
                    WorkerPlan { phase: Phase::Finished, ..self },
                    WorkerStep::AwaitAcknowledged(self.messages),
                )
            } else {
                (WorkerPlan { phase: Phase::Marked, ..self }, WorkerStep::Marker)
            },
        }
    }

    /// The next step while messages are sent: with QoS 1 each window is followed by a wait for
    /// the acknowledgements.
    pub open spec fn sending(self) -> (WorkerPlan, WorkerStep) {
        if self.sent < self.messages {
            (
                WorkerPlan {
                    sent: (self.sent + self.count()) as u64,
                    phase: if self.qos == 1 {
                        Phase::Unacknowledged
                    } else {
                        Phase::Sending
                    },
                    ..self
                },
                WorkerStep::Window(self.count()),
            )
        } else {
            self.ending()
        }
    }

    /// The next step, and how far the client is after it. The message that establishes the alias
    /// is the first of the messages.
    pub open spec fn step(self) -> (WorkerPlan, WorkerStep) {
        match self.phase {
            Phase::Begin => if self.qos == 0 && self.topic_alias && self.messages > 0 {
                (
                    WorkerPlan { sent: 1, phase: Phase::Sending, ..self },
                    WorkerStep::Mapping,
                )
            } else {
                self.sending()
            },
            Phase::Sending => self.sending(),
            Phase::Unacknowledged => (
                WorkerPlan { phase: Phase::Sending, ..self },
                WorkerStep::AwaitAcknowledged(self.sent),
            ),
            Phase::Received => (
                WorkerPlan { phase: Phase::Finished, ..self },
                WorkerStep::AwaitAcknowledged(self.messages),
            ),
            Phase::Marked => (
                WorkerPlan { phase: Phase::Finished, ..self },
                WorkerStep::AwaitAcknowledged(1),
            ),
            Phase::Finished => (self, WorkerStep::Done),
        }
    }

    /// Begins the end.
    fn end(&mut self) -> (step: WorkerStep)
        requires
            old(self).wf(),
            old(self).sent == old(self).messages,
        ensures
            final(self).wf(),
            (*final(self), step) == old(self).ending(),
    {
        match self.mode {
            Mode::Loopback => {
                self.phase = if self.qos == 1 {
                    Phase::Received
                } else {
                    Phase::Finished
                };
                WorkerStep::AwaitReceived(self.messages)
            },
            Mode::Ingest => {
                if self.qos == 1 {
                    self.phase = Phase::Finished;
                    WorkerStep::AwaitAcknowledged(self.messages)
                } else {
                    self.phase = Phase::Marked;
                    WorkerStep::Marker
                }
            },
        }
    }

    /// Sends the next messages, or begins the end.
    fn send(&mut self) -> (step: WorkerStep)
        requires
            old(self).wf(),
        ensures
            final(self).wf(),
            (*final(self), step) == old(self).sending(),
    {
        if self.sent == self.messages {
            return self.end();
        }
        let n: u64 = next_count(self.sent, self.messages, self.window);
        self.sent = self.sent + n;
        self.phase = if self.qos == 1 {
            Phase::Unacknowledged
        } else {
            Phase::Sending
        };
        WorkerStep::Window(n)
    }

    /// Takes the next step.
    pub fn next(&mut self) -> (step: WorkerStep)
        requires
            old(self).wf(),
        ensures
            final(self).wf(),
            (*final(self), step) == old(self).step(),
    {
        match self.phase {
            Phase::Begin => {
                if self.qos == 0 && self.topic_alias && self.messages > 0 {
                    self.sent = 1;
                    self.phase = Phase::Sending;
                    WorkerStep::Mapping
                } else {
                    self.send()
                }
            },
            Phase::Sending => self.send(),
            Phase::Unacknowledged => {
                self.phase = Phase::Sending;
                WorkerStep::AwaitAcknowledged(self.sent)
            },
            Phase::Received => {
                self.phase = Phase::Finished;
                WorkerStep::AwaitAcknowledged(self.messages)
            },
            Phase::Marked => {
                self.phase = Phase::Finished;
                WorkerStep::AwaitAcknowledged(1)
            },
            Phase::Finished => WorkerStep::Done,
        }
    }

    /// How far a client is after so many steps, and what these were.
    pub open spec fn after(self, n: nat) -> (WorkerPlan, Seq<WorkerStep>)
        decreases n,
    {
        if n == 0 {
            (self, Seq::empty())
        } else {
            let (plan, steps) = self.after((n - 1) as nat);
            let (next, step) = plan.step();
            (next, steps.push(step))
        }
    }

    /// How many steps are left at most.
    pub open spec fn left(self) -> nat {
        let unsent = (self.messages - self.sent) as nat;
        match self.phase {
            Phase::Begin => 2 * unsent + 6,
            Phase::Sending => 2 * unsent + 4,
            Phase::Unacknowledged => 2 * unsent + 5,
            Phase::Received => 1,
            Phase::Marked => 1,
            Phase::Finished => 0,
        }
    }
}

/// How many messages are sent in some steps.
pub open spec fn messages_in(steps: Seq<WorkerStep>) -> nat
    decreases steps.len(),
{
    if steps.len() == 0 {
        0
    } else {
        messages_in(steps.drop_last()) + match steps.last() {
            WorkerStep::Mapping => 1,
            WorkerStep::Window(n) => n as nat,
            _ => 0,
        }
    }
}

/// Whether a client has waited for all that its mode asks for: for what it receives where it
/// receives what it sends, for the acknowledgement of every message with QoS 1, and else for that
/// of the message that marks the end.
pub open spec fn awaited(plan: WorkerPlan, steps: Seq<WorkerStep>) -> bool {
    &&& plan.mode == Mode::Loopback ==> steps.contains(WorkerStep::AwaitReceived(plan.messages))
    &&& plan.qos == 1 ==> steps.contains(WorkerStep::AwaitAcknowledged(plan.messages))
    &&& plan.mode == Mode::Ingest && plan.qos == 0 ==> steps.contains(WorkerStep::Marker)
        && steps.contains(WorkerStep::AwaitAcknowledged(1))
}

/// What is among some steps is among those with one more, and so is that one.
proof fn lemma_one_more(steps: Seq<WorkerStep>, step: WorkerStep)
    ensures
        steps.push(step).contains(step),
        forall|s: WorkerStep| #[trigger] steps.contains(s) ==> steps.push(step).contains(s),
        messages_in(steps.push(step)) == messages_in(steps) + match step {
            WorkerStep::Mapping => 1,
            WorkerStep::Window(n) => n as nat,
            _ => 0,
        },
{
    let more = steps.push(step);
    assert(more[steps.len() as int] == step);
    assert forall|s: WorkerStep| #[trigger] steps.contains(s) implies more.contains(s) by {
        let k = choose|k: int| 0 <= k < steps.len() && steps[k] == s;
        assert(more[k] == s);
    }
    assert(more.drop_last() =~= steps);
}

/// What holds after any number of steps.
proof fn lemma_after(start: WorkerPlan, n: nat)
    requires
        start.wf(),
        start.phase is Begin,
    ensures
        ({
            let (plan, steps) = start.after(n);
            &&& plan.wf()
            &&& plan.mode == start.mode && plan.qos == start.qos && plan.messages == start.messages
            &&& messages_in(steps) == plan.sent
            &&& plan.phase is Received ==> plan.mode == Mode::Loopback && steps.contains(
                WorkerStep::AwaitReceived(plan.messages),
            )
            &&& plan.phase is Marked ==> plan.mode == Mode::Ingest && plan.qos == 0
                && steps.contains(WorkerStep::Marker)
            &&& plan.phase is Finished ==> awaited(plan, steps)
        }),
    decreases n,
{
    if n > 0 {
        lemma_after(start, (n - 1) as nat);
        let (plan, steps) = start.after((n - 1) as nat);
        lemma_one_more(steps, plan.step().1);
    }
}

/// A client is done only when it has sent as many messages as it was to, the one that establishes
/// the alias among them, and has waited for all that its mode asks for.
pub proof fn law_client_is_done_when_all_is_sent_and_awaited(
    mode: Mode,
    qos: u8,
    topic_alias: bool,
    messages: u64,
    window: u64,
    n: nat,
)
    requires
        qos <= 1,
    ensures
        ({
            let start = WorkerPlan::begun(mode, qos, topic_alias, messages, window);
            let (plan, steps) = start.after(n);
            &&& messages_in(steps) <= messages
            &&& plan.step().1 is Done ==> messages_in(steps) == messages && awaited(plan, steps)
        }),
{
    lemma_after(WorkerPlan::begun(mode, qos, topic_alias, messages, window), n);
}

/// Every step brings a client nearer to its end, and at the end it is done.
pub proof fn law_client_comes_to_its_end(plan: WorkerPlan)
    requires
        plan.wf(),
    ensures
        plan.left() > 0 ==> plan.step().0.left() < plan.left() && !(plan.step().1 is Done),
        plan.left() == 0 ==> plan.step() == (plan, WorkerStep::Done),
{
}

/// With QoS 1 a client sends nothing more before all that it has sent is acknowledged.
pub proof fn law_window_is_acknowledged_before_the_next(plan: WorkerPlan)
    requires
        plan.wf(),
        plan.qos == 1,
        plan.step().1 is Window,
    ensures
        plan.step().0.step().1 == WorkerStep::AwaitAcknowledged(plan.step().0.sent),
{
}

} // verus!
