//! The listener loop: bind once, then accept for ever, handing each accepted
//! connection to a task of its own without waiting for it.

use vstd::prelude::*;

verus! {

/// Why a listener stopped.
#[derive(Clone, Copy, Debug, PartialEq, Eq, Structural)]
pub enum ListenerError {
    /// The address could not be bound; startup is aborted.
    BindFailed,
    /// An accept failed; the loop ends and is not tried again.
    AcceptFailed,
}

/// Where a listener stands.
#[derive(Clone, Copy, Debug, PartialEq, Eq, Structural)]
pub enum ListenerPhase {
    /// Waiting for the socket to be bound.
    Binding,
    /// Bound, and waiting for the next connection.
    Accepting,
    /// Stopped for good.
    Stopped(ListenerError),
}

/// What the driver reports to the listener.
#[derive(Clone, Copy, Debug, PartialEq, Eq, Structural)]
pub enum ListenerEvent {
    /// The socket is bound.
    Bound,
    /// A connection was accepted.
    Accepted,
    /// The pending bind or accept failed.
    Failed,
}

/// What the driver is to do next.
#[derive(Clone, Copy, Debug, PartialEq, Eq, Structural)]
pub enum ListenerAction {
    /// Bind the socket.
    Bind,
    /// Accept the next connection.
    Accept,
    /// Hand the connection just accepted to a new task, do not wait for that
    /// task, and accept the next connection.
    Dispatch,
    /// Give up and report this error to the caller.
    Abort(ListenerError),
}

/// The phase after `event`, and the answer to it. An event other than the
/// success of the pending operation counts as its failure.
pub open spec fn listener_next(phase: ListenerPhase, event: ListenerEvent) -> (
    ListenerPhase,
    ListenerAction,
) {
    match phase {
        ListenerPhase::Binding => if event is Bound {
            (ListenerPhase::Accepting, ListenerAction::Accept)
        } else {
            (
                ListenerPhase::Stopped(ListenerError::BindFailed),
                ListenerAction::Abort(ListenerError::BindFailed),
            )
        },
        ListenerPhase::Accepting => if event is Accepted {
            (ListenerPhase::Accepting, ListenerAction::Dispatch)
        } else {
            (
                ListenerPhase::Stopped(ListenerError::AcceptFailed),
                ListenerAction::Abort(ListenerError::AcceptFailed),
            )
        },
        ListenerPhase::Stopped(error) => (phase, ListenerAction::Abort(error)),
    }
}

/// The phase that `events`, reported in order, lead to from `phase`.
pub open spec fn listener_run(phase: ListenerPhase, events: Seq<ListenerEvent>) -> ListenerPhase
    decreases events.len(),
{
    if events.len() == 0 {
        phase
    } else {
        listener_next(listener_run(phase, events.drop_last()), events.last()).0
    }
}

proof fn lemma_still_accepting(events: Seq<ListenerEvent>)
    requires
        forall|i: int| 0 <= i < events.len() ==> #[trigger] events[i] == ListenerEvent::Accepted,
    ensures
        listener_run(ListenerPhase::Accepting, events) == ListenerPhase::Accepting,
    decreases events.len(),
{
    if events.len() > 0 {
        lemma_still_accepting(events.drop_last());
    }
}

/// Accepting for ever. A listener that accepts keeps accepting for as long
/// as every accept succeeds, however many connections that makes, and
/// answers each of them with a dispatch.
pub proof fn lemma_accepts_for_ever(events: Seq<ListenerEvent>)
    requires
        forall|i: int| 0 <= i < events.len() ==> #[trigger] events[i] == ListenerEvent::Accepted,
    ensures
        listener_run(ListenerPhase::Accepting, events) == ListenerPhase::Accepting,
        forall|i: int|
            0 <= i < events.len() ==> listener_next(
                listener_run(ListenerPhase::Accepting, #[trigger] events.take(i)),
                events[i],
            ).1 == ListenerAction::Dispatch,
{
    lemma_still_accepting(events);
    assert forall|i: int| 0 <= i < events.len() implies listener_next(
        listener_run(ListenerPhase::Accepting, #[trigger] events.take(i)),
        events[i],
    ).1 == ListenerAction::Dispatch by {
        let prefix = events.take(i);
        assert forall|k: int| 0 <= k < prefix.len() implies #[trigger] prefix[k]
            == ListenerEvent::Accepted by {
            assert(prefix[k] == events[k]);
        }
        lemma_still_accepting(prefix);
    }
}

/// A listener that has stopped stays stopped, for the same reason.
pub proof fn lemma_stopped_is_final(error: ListenerError, events: Seq<ListenerEvent>)
    ensures
        listener_run(ListenerPhase::Stopped(error), events) == ListenerPhase::Stopped(error),
    decreases events.len(),
{
    if events.len() > 0 {
        lemma_stopped_is_final(error, events.drop_last());
    }
}

/// The listener of one server.
pub struct Listener {
    phase: ListenerPhase,
}

impl View for Listener {
    type V = ListenerPhase;

    closed spec fn view(&self) -> ListenerPhase {
        self.phase
    }
}

impl Listener {
    /// A listener that has yet to bind.
    pub fn new() -> (made: Listener)
        ensures
            made@ == ListenerPhase::Binding,
    {
        Listener { phase: ListenerPhase::Binding }
    }

    /// The phase the listener is in.
    pub fn phase(&self) -> (r: ListenerPhase)
        ensures
            r == self@,
    {
        self.phase
    }

    /// The operation to begin with: for a fresh listener, the bind.
    pub fn pending(&self) -> (action: ListenerAction)
        ensures
            action == match self@ {
                ListenerPhase::Binding => ListenerAction::Bind,
                ListenerPhase::Accepting => ListenerAction::Accept,
                ListenerPhase::Stopped(error) => ListenerAction::Abort(error),
            },
    {
        match self.phase {
            ListenerPhase::Binding => ListenerAction::Bind,
            ListenerPhase::Accepting => ListenerAction::Accept,
            ListenerPhase::Stopped(error) => ListenerAction::Abort(error),
        }
    }

    /// Takes the result of the pending operation and answers with what to do
    /// next.
    pub fn step(&mut self, event: ListenerEvent) -> (action: ListenerAction)
        ensures
            (final(self)@, action) == listener_next(old(self)@, event),
    {
        let accepted: bool = match event {
            ListenerEvent::Accepted => true,
            _ => false,
        };
        let bound: bool = match event {
            ListenerEvent::Bound => true,
            _ => false,
        };
        match self.phase {
            ListenerPhase::Binding => if bound {
                self.phase = ListenerPhase::Accepting;
                ListenerAction::Accept
            } else {
                self.phase = ListenerPhase::Stopped(ListenerError::BindFailed);
                ListenerAction::Abort(ListenerError::BindFailed)
            },
            ListenerPhase::Accepting => if accepted {
                ListenerAction::Dispatch
            } else {
                self.phase = ListenerPhase::Stopped(ListenerError::AcceptFailed);
                ListenerAction::Abort(ListenerError::AcceptFailed)
            },
            ListenerPhase::Stopped(error) => ListenerAction::Abort(error),
        }
    }
}

} // verus!
