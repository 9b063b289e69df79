//! Change notification: a bus fans every published event out to one
//! dedicated unbounded channel per subscriber, never blocking the publisher.
//! The host runs one worker per subscription: it waits on the returned event
//! receiver, calls the subscriber's callback for each event in order, and
//! stops when the shutdown receiver closes or fires.

use crossbeam::channel::{Receiver, Sender};

use vstd::prelude::*;

use crate::ops::ChangeEvent;

verus! {

#[verifier::external_type_specification]
#[verifier::external_body]
#[verifier::reject_recursive_types(T)]
pub struct ExSender<T>(Sender<T>);

#[verifier::external_type_specification]
#[verifier::external_body]
#[verifier::reject_recursive_types(T)]
pub struct ExReceiver<T>(Receiver<T>);

/// Relies on `crossbeam::channel::unbounded`: a first-in-first-out channel
/// with no capacity bound, so sending to it never blocks.
#[verifier::external_body]
fn new_event_channel() -> (Sender<ChangeEvent>, Receiver<ChangeEvent>) {
    crossbeam::channel::unbounded()
}

/// Relies on `crossbeam::channel::bounded`: a channel for one shutdown
/// signal; dropping the handle closes it, which also wakes the worker.
#[verifier::external_body]
fn new_shutdown_channel() -> (Sender<()>, Receiver<()>) {
    crossbeam::channel::bounded(1)
}

/// Relies on `Sender::try_send`, which never blocks: on an unbounded channel
/// it fails only when the receiving side is gone, and the event is then
/// dropped for that subscriber alone.
#[verifier::external_body]
fn try_send_event(sink: &Sender<ChangeEvent>, event: ChangeEvent) -> (delivered: bool) {
    sink.try_send(event).is_ok()
}

/// A subscription's identity and its shutdown path: dropping the handle
/// closes the signal channel, which stops the worker.
pub struct SubscriptionHandle {
    id: u128,
    _shutdown: Sender<()>,
}

impl SubscriptionHandle {
    /// The subscription's identifier.
    pub closed spec fn id_spec(&self) -> u128 {
        self.id
    }

    /// The subscription's identifier.
    pub fn id(&self) -> (r: u128)
        ensures
            r == self.id_spec(),
    {
        self.id
    }
}

/// The subscriber registry: one identifier and one event sink per
/// subscription, in subscription order.
pub struct EventBus {
    sinks: Vec<(u128, Sender<ChangeEvent>)>,
}

impl EventBus {
    /// The registered subscription identifiers, in subscription order.
    pub closed spec fn ids(&self) -> Seq<u128> {
        self.sinks@.map_values(|s: (u128, Sender<ChangeEvent>)| s.0)
    }

    /// Each identifier is its subscription's ordinal on this bus, so no two
    /// subscriptions ever share one: the bus allocates ids, no caller hands
    /// one in, and the registry never shrinks.
    pub open spec fn ids_wf(&self) -> bool {
        forall|i: int| 0 <= i < self.ids().len() ==> self.ids()[i] == i as u128
    }

    /// Well-formed registries hold pairwise-distinct identifiers.
    pub proof fn lemma_ids_distinct(&self)
        requires
            self.ids_wf(),
        ensures
            forall|i: int, j: int|
                0 <= i < j < self.ids().len() ==> self.ids()[i] != self.ids()[j],
    {
        vstd::std_specs::vec::axiom_spec_len(&self.sinks);
        assert forall|i: int, j: int|
            0 <= i < j < self.ids().len() implies self.ids()[i] != self.ids()[j] by {
            assert(self.ids()[i] == i as u128);
            assert(self.ids()[j] == j as u128);
            assert(j < self.sinks@.len());
        }
    }

    /// An empty bus.
    pub fn new() -> (r: EventBus)
        ensures
            r.ids() == Seq::<u128>::empty(),
            r.ids_wf(),
    {
        let r = EventBus { sinks: Vec::new() };
        proof {
            assert(r.ids() =~= Seq::<u128>::empty());
        }
        r
    }

    /// Registers a subscriber: allocates an identifier unlike every
    /// registered one, one dedicated event channel and one dedicated
    /// shutdown channel, and hands back the handle together with both
    /// receivers. The host starts one worker that calls the subscriber's
    /// callback for each received event, in order, until shutdown; no other
    /// subscriber's pace affects this one.
    pub fn subscribe(&mut self) -> (r: (SubscriptionHandle, Receiver<ChangeEvent>, Receiver<()>))
        requires
            old(self).ids_wf(),
        ensures
            final(self).ids_wf(),
            final(self).ids() == old(self).ids().push(r.0.id_spec()),
            forall|j: int|
                0 <= j < old(self).ids().len() ==> old(self).ids()[j] != r.0.id_spec(),
    {
        let n = self.sinks.len();
        let id = n as u128;
        let (event_tx, event_rx) = new_event_channel();
        let (shutdown_tx, shutdown_rx) = new_shutdown_channel();
        self.sinks.push((id, event_tx));
        proof {
            assert(self.sinks@.map_values(|s: (u128, Sender<ChangeEvent>)| s.0) =~= old(
                self,
            ).ids().push(id));
            assert forall|j: int| 0 <= j < old(self).ids().len() implies old(self).ids()[j]
                != id by {
                assert(old(self).ids()[j] == j as u128);
                assert(j < n as int);
            }
        }
        (SubscriptionHandle { id, _shutdown: shutdown_tx }, event_rx, shutdown_rx)
    }

    /// Attempts a non-blocking delivery of the event to every registered
    /// subscriber, in registration order; reports how many were reachable. A
    /// subscriber whose worker has gone misses the event; nobody else does,
    /// and the publisher never waits.
    pub fn publish(&self, event: &ChangeEvent) -> (delivered: usize)
        ensures
            delivered <= self.ids().len(),
    {
        let n = self.sinks.len();
        let mut delivered: usize = 0;
        let mut i: usize = 0;
        while i < n
            invariant
                n == self.sinks@.len(),
                i <= n,
                delivered <= i,
                n == self.ids().len(),
            decreases n - i,
        {
            if try_send_event(&self.sinks[i].1, event.duplicate()) {
                delivered = delivered + 1;
            }
            i = i + 1;
        }
        delivered
    }
}

} // verus!
