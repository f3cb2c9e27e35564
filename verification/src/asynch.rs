//! The broadcast delivery engine.
//!
//! An [`Event`] is either a payload-bearing message or the termination
//! sentinel. A dispatcher fans every submitted event out to one delivery
//! lane per consumer; each lane drains its own queue and hands every
//! payload to its [`Consumer`]. The decisions each worker makes per event
//! stand here as verified functions ([`fan_out`], [`poll_action`]), and the
//! whole protocol is implemented by the sequential [`Carousel`] engine,
//! whose contracts state that every lane delivers exactly the submitted
//! payloads in submission order.

use vstd::prelude::*;

verus! {

/// The mathematical value of an [`Event`]: its payload bytes, or the
/// termination sentinel.
pub ghost enum EventView {
    Message(Seq<u8>),
    Terminate,
}

/// The envelope type flowing through every channel of the carousel: either
/// an owned byte payload to deliver, or the sentinel that stops a worker.
pub enum Event {
    Message(Vec<u8>),
    Terminate,
}

impl View for Event {
    type V = EventView;

    open spec fn view(&self) -> EventView {
        match self {
            Event::Message(data) => EventView::Message(data@),
            Event::Terminate => EventView::Terminate,
        }
    }
}

/// Copies a payload byte for byte.
pub fn clone_payload(data: &Vec<u8>) -> (r: Vec<u8>)
    ensures
        r@ == data@,
{
    let r = data.clone();
    proof {
        assert forall|i: int| 0 <= i < data@.len() implies r@[i] == data@[i] by {
            assert(cloned::<u8>(data[i], r[i]));
        }
        assert(r@ =~= data@);
    }
    r
}

impl Clone for Event {
    /// Cloning deep-copies the payload: the two events have equal views and
    /// share no storage.
    fn clone(&self) -> (r: Self)
        ensures
            r@ == self@,
    {
        match self {
            Event::Message(data) => Event::Message(clone_payload(data)),
            Event::Terminate => Event::Terminate,
        }
    }
}

/// The processing capability a consumer offers: accept one owned byte
/// payload and handle it synchronously. Each registered consumer is invoked
/// once per submitted payload, from a single lane, never concurrently with
/// itself.
pub trait Consumer {
    fn consume(&self, data: Vec<u8>);
}

/// Wraps a producer's payload in the envelope that the dispatcher forwards.
pub fn wrap_message(data: Vec<u8>) -> (e: Event)
    ensures
        e@ == EventView::Message(data@),
{
    Event::Message(data)
}

/// The event a shutdown submits so that every worker stops.
pub fn terminate_event() -> (e: Event)
    ensures
        e@ is Terminate,
{
    Event::Terminate
}

/// Whether an event is the termination sentinel; the dispatcher stops its
/// loop right after forwarding such an event.
pub fn is_terminate(e: &Event) -> (r: bool)
    ensures
        r == (e@ is Terminate),
{
    match e {
        Event::Message(_) => false,
        Event::Terminate => true,
    }
}

/// The dispatcher's work for one received event: one independent copy per
/// lane, in lane order. Every copy has the received event's value.
pub fn fan_out(e: &Event, n: usize) -> (copies: Vec<Event>)
    ensures
        copies@.len() == n,
        forall|i: int| 0 <= i < n ==> copies@[i]@ == e@,
{
    let mut copies: Vec<Event> = Vec::new();
    let mut k: usize = 0;
    while k < n
        invariant
            k <= n,
            copies@.len() == k,
            forall|i: int| 0 <= i < k ==> copies@[i]@ == e@,
        decreases n - k,
    {
        copies.push(e.clone());
        k = k + 1;
    }
    copies
}

/// The views of a sequence of events.
pub open spec fn events_view(es: Seq<Event>) -> Seq<EventView> {
    es.map_values(|e: Event| e@)
}

/// The views of a sequence of payloads.
pub open spec fn payloads_view(ps: Seq<Vec<u8>>) -> Seq<Seq<u8>> {
    ps.map_values(|p: Vec<u8>| p@)
}

/// Whether a sequence of events contains the termination sentinel.
pub open spec fn has_terminate(es: Seq<EventView>) -> bool {
    exists|i: int| 0 <= i < es.len() && (#[trigger] es[i]) is Terminate
}

/// The payloads of the message events in a sequence, in order; termination
/// sentinels carry no payload and are passed over.
pub open spec fn message_payloads(es: Seq<EventView>) -> Seq<Seq<u8>>
    decreases es.len(),
{
    if es.len() == 0 {
        Seq::empty()
    } else {
        match es[0] {
            EventView::Message(p) => seq![p] + message_payloads(es.drop_first()),
            EventView::Terminate => message_payloads(es.drop_first()),
        }
    }
}

/// The event sequence that carries the given payloads, one message each.
pub open spec fn messages_of(msgs: Seq<Seq<u8>>) -> Seq<EventView> {
    msgs.map_values(|m: Seq<u8>| EventView::Message(m))
}

proof fn lemma_message_payloads_push(es: Seq<EventView>, e: EventView)
    ensures
        e is Message ==> message_payloads(es.push(e)) == message_payloads(es).push(e->Message_0),
        e is Terminate ==> message_payloads(es.push(e)) == message_payloads(es),
    decreases es.len(),
{
    if es.len() == 0 {
        assert(es.push(e)[0] == e);
        assert(es.push(e).drop_first() =~= Seq::<EventView>::empty());
        match e {
            EventView::Message(p) => {
                assert(message_payloads(es.push(e)) == seq![p] + message_payloads(
                    es.push(e).drop_first(),
                ));
                assert(seq![p] + Seq::<Seq<u8>>::empty() =~= message_payloads(es).push(p));
            },
            EventView::Terminate => {
                assert(message_payloads(es.push(e)) == message_payloads(es.push(e).drop_first()));
            },
        }
    } else {
        assert(es.push(e)[0] == es[0]);
        assert(es.push(e).drop_first() =~= es.drop_first().push(e));
        lemma_message_payloads_push(es.drop_first(), e);
        match es[0] {
            EventView::Message(p0) => {
                assert(message_payloads(es.push(e)) == seq![p0] + message_payloads(
                    es.drop_first().push(e),
                ));
                assert(message_payloads(es) == seq![p0] + message_payloads(es.drop_first()));
                match e {
                    EventView::Message(q) => {
                        assert(seq![p0] + message_payloads(es.drop_first()).push(q)
                            =~= (seq![p0] + message_payloads(es.drop_first())).push(q));
                    },
                    EventView::Terminate => {},
                }
            },
            EventView::Terminate => {
                assert(message_payloads(es.push(e)) == message_payloads(es.drop_first().push(e)));
                assert(message_payloads(es) == message_payloads(es.drop_first()));
            },
        }
    }
}

/// The message events of a payload sequence carry back exactly those
/// payloads, in order.
pub proof fn lemma_payloads_of_messages(msgs: Seq<Seq<u8>>)
    ensures
        message_payloads(messages_of(msgs)) == msgs,
    decreases msgs.len(),
{
    let evs = messages_of(msgs);
    if msgs.len() == 0 {
        assert(message_payloads(evs) =~= msgs);
    } else {
        lemma_payloads_of_messages(msgs.drop_first());
        assert(evs.drop_first() =~= messages_of(msgs.drop_first()));
        assert(evs[0] == EventView::Message(msgs[0]));
        assert(seq![msgs[0]] + msgs.drop_first() =~= msgs);
    }
}

proof fn lemma_events_view_push(es: Seq<Event>, e: Event)
    ensures
        events_view(es.push(e)) == events_view(es).push(e@),
{
    assert(events_view(es.push(e)) =~= events_view(es).push(e@));
}

proof fn lemma_events_view_drop_first(es: Seq<Event>)
    requires
        es.len() > 0,
    ensures
        events_view(es.drop_first()) == events_view(es).drop_first(),
{
    assert(events_view(es.drop_first()) =~= events_view(es).drop_first());
}

proof fn lemma_payloads_view_push(ps: Seq<Vec<u8>>, p: Vec<u8>)
    ensures
        payloads_view(ps.push(p)) == payloads_view(ps).push(p@),
{
    assert(payloads_view(ps.push(p)) =~= payloads_view(ps).push(p@));
}

/// What a lane's worker does with one received event.
pub enum PollAction {
    /// Hand this payload to the lane's consumer and keep polling.
    Deliver(Vec<u8>),
    /// Exit the polling loop.
    Stop,
}

/// The polling decision for one received event: a message is delivered to
/// the consumer, the termination sentinel stops the worker.
pub fn poll_action(e: Event) -> (a: PollAction)
    ensures
        e@ is Message ==> a is Deliver && a->Deliver_0@ == e@->Message_0,
        e@ is Terminate ==> a is Stop,
{
    match e {
        Event::Message(data) => PollAction::Deliver(data),
        Event::Terminate => PollAction::Stop,
    }
}

/// How a carousel operation can fail.
#[derive(Clone, Copy, Debug, PartialEq, Eq, Structural)]
pub enum CarouselError {
    /// Construction was attempted with an empty consumer set.
    NoConsumers,
    /// A payload was submitted after shutdown had already stopped the
    /// dispatcher.
    Terminated,
}

/// One consumer's private delivery path: the queue of events forwarded to
/// it, the consumer it serves, the payloads handed to that consumer so far
/// (oldest first), and whether its worker has observed the termination
/// sentinel.
pub struct Lane<C: Consumer> {
    pub consumer: C,
    pub inbox: Vec<Event>,
    pub delivered: Vec<Vec<u8>>,
    pub stopped: bool,
}

/// The delivery engine, stepped explicitly: the shared producer channel,
/// one lane per consumer, and the dispatcher's stop flag. The contracts of
/// its operations pin down exactly which payloads each consumer receives
/// and in what order, for every schedule of steps.
pub struct Carousel<C: Consumer> {
    /// Events submitted by producers and not yet taken by the dispatcher,
    /// oldest first.
    pub shared: Vec<Event>,
    /// The delivery lanes, in registration order.
    pub lanes: Vec<Lane<C>>,
    /// Whether the dispatcher has observed the termination sentinel and
    /// stopped forwarding.
    pub dispatcher_stopped: bool,
}

impl<C: Consumer> Carousel<C> {
    /// While the dispatcher still runs, no termination sentinel has been
    /// forwarded anywhere, and no worker has stopped: only a shutdown
    /// submits the sentinel, and it drains the carousel in the same call.
    pub open spec fn inv(self) -> bool {
        &&& self.lanes@.len() >= 1
        &&& !self.dispatcher_stopped ==> {
            &&& !has_terminate(events_view(self.shared@))
            &&& forall|i: int|
                0 <= i < self.lanes@.len() ==> {
                    &&& !has_terminate(events_view((#[trigger] self.lanes@[i]).inbox@))
                    &&& !self.lanes@[i].stopped
                }
        }
    }
}

/// A carousel fresh out of construction with `n` consumers: empty channels,
/// empty delivery histories, every worker running.
pub open spec fn initial_carousel<C: Consumer>(c: Carousel<C>, n: int) -> bool {
    &&& n >= 1
    &&& c.lanes@.len() == n
    &&& c.shared@.len() == 0
    &&& !c.dispatcher_stopped
    &&& forall|i: int|
        0 <= i < n ==> {
            &&& (#[trigger] c.lanes@[i]).inbox@.len() == 0
            &&& c.lanes@[i].delivered@.len() == 0
            &&& !c.lanes@[i].stopped
        }
}

/// How one accepted submission changes the carousel: the payload is
/// appended to the shared channel as a message and nothing else moves.
pub open spec fn put_transition<C: Consumer>(
    pre: Carousel<C>,
    post: Carousel<C>,
    payload: Seq<u8>,
) -> bool {
    &&& !pre.dispatcher_stopped
    &&& events_view(post.shared@) == events_view(pre.shared@).push(EventView::Message(payload))
    &&& post.lanes@ == pre.lanes@
    &&& post.dispatcher_stopped == pre.dispatcher_stopped
}

/// How a shutdown changes the carousel: every pending event reaches every
/// lane, every lane delivers every pending payload in order, and every
/// worker stops.
pub open spec fn shutdown_transition<C: Consumer>(pre: Carousel<C>, post: Carousel<C>) -> bool {
    &&& pre.inv()
    &&& !pre.dispatcher_stopped
    &&& post.inv()
    &&& post.dispatcher_stopped
    &&& post.shared@.len() == 0
    &&& post.lanes@.len() == pre.lanes@.len()
    &&& forall|i: int|
        0 <= i < pre.lanes@.len() ==> {
            &&& (#[trigger] post.lanes@[i]).stopped
            &&& post.lanes@[i].inbox@.len() == 0
            &&& post.lanes@[i].consumer == pre.lanes@[i].consumer
            &&& payloads_view(post.lanes@[i].delivered@) == payloads_view(
                pre.lanes@[i].delivered@,
            ) + message_payloads(
                events_view(pre.lanes@[i].inbox@) + events_view(pre.shared@),
            )
        }
}

impl<C: Consumer> Carousel<C> {
    /// Builds a carousel with one delivery lane per consumer, in input
    /// order. An empty consumer set is rejected rather than silently
    /// accepted.
    pub fn new(consumers: Vec<C>) -> (r: Result<Carousel<C>, CarouselError>)
        ensures
            consumers@.len() == 0 ==> (r is Err && r->Err_0 == CarouselError::NoConsumers),
            consumers@.len() > 0 ==> {
                &&& r is Ok
                &&& initial_carousel(r->Ok_0, consumers@.len() as int)
                &&& r->Ok_0.inv()
                &&& forall|i: int|
                    0 <= i < consumers@.len() ==> (#[trigger] r->Ok_0.lanes@[i]).consumer
                        == consumers@[i]
            },
    {
        if consumers.len() == 0 {
            return Result::Err(CarouselError::NoConsumers);
        }
        let mut consumers = consumers;
        let ghost orig: Seq<C> = consumers@;
        let mut lanes: Vec<Lane<C>> = Vec::new();
        while consumers.len() > 0
            invariant
                lanes@.len() + consumers@.len() == orig.len(),
                consumers@ == orig.skip(lanes@.len() as int),
                forall|i: int|
                    0 <= i < lanes@.len() ==> {
                        &&& (#[trigger] lanes@[i]).consumer == orig[i]
                        &&& lanes@[i].inbox@.len() == 0
                        &&& lanes@[i].delivered@.len() == 0
                        &&& !lanes@[i].stopped
                    },
            decreases consumers@.len(),
        {
            let c = consumers.remove(0);
            proof {
                assert(orig.skip(lanes@.len() as int).drop_first() =~= orig.skip(
                    lanes@.len() as int + 1,
                ));
            }
            lanes.push(Lane { consumer: c, inbox: Vec::new(), delivered: Vec::new(), stopped: false });
        }
        Result::Ok(Carousel { shared: Vec::new(), lanes, dispatcher_stopped: false })
    }

    /// Submits one payload. While the dispatcher runs, the payload is
    /// accepted and queued behind every earlier submission; after shutdown
    /// it is rejected and the carousel is left unchanged.
    pub fn put(&mut self, data: Vec<u8>) -> (r: Result<(), CarouselError>)
        ensures
            old(self).dispatcher_stopped ==> {
                &&& r is Err
                &&& r->Err_0 == CarouselError::Terminated
                &&& *final(self) == *old(self)
            },
            !old(self).dispatcher_stopped ==> {
                &&& r is Ok
                &&& put_transition(*old(self), *final(self), data@)
                &&& final(self).lanes@ == old(self).lanes@
            },
            old(self).inv() ==> final(self).inv(),
    {
        if self.dispatcher_stopped {
            return Result::Err(CarouselError::Terminated);
        }
        let ghost pre: Seq<Event> = self.shared@;
        let e = wrap_message(data);
        proof {
            lemma_events_view_push(pre, e);
        }
        self.shared.push(e);
        proof {
            if old(self).inv() {
                assert forall|i: int|
                    0 <= i < events_view(self.shared@).len() && (#[trigger] events_view(
                        self.shared@,
                    )[i]) is Terminate implies false by {
                    if i < pre.len() {
                        assert(events_view(pre)[i] is Terminate);
                    }
                }
            }
        }
        Result::Ok(())
    }

    /// One turn of the dispatcher's loop: take the oldest shared event,
    /// forward an independent copy to every lane in lane order, and stop
    /// if the event was the termination sentinel.
    pub fn dispatcher_step(&mut self)
        requires
            !old(self).dispatcher_stopped,
            old(self).shared@.len() > 0,
        ensures
            final(self).shared@ == old(self).shared@.drop_first(),
            final(self).dispatcher_stopped == (old(self).shared@[0]@ is Terminate),
            final(self).lanes@.len() == old(self).lanes@.len(),
            forall|i: int|
                0 <= i < old(self).lanes@.len() ==> {
                    &&& events_view((#[trigger] final(self).lanes@[i]).inbox@) == events_view(
                        old(self).lanes@[i].inbox@,
                    ).push(old(self).shared@[0]@)
                    &&& final(self).lanes@[i].delivered@ == old(self).lanes@[i].delivered@
                    &&& final(self).lanes@[i].stopped == old(self).lanes@[i].stopped
                    &&& final(self).lanes@[i].consumer == old(self).lanes@[i].consumer
                },
            old(self).inv() ==> final(self).inv(),
    {
        let e = self.shared.remove(0);
        proof {
            assert(self.shared@ =~= old(self).shared@.drop_first());
        }
        let n = self.lanes.len();
        let mut k: usize = 0;
        while k < n
            invariant
                k <= n,
                self.lanes@.len() == n,
                n == old(self).lanes@.len(),
                e == old(self).shared@[0],
                self.shared@ == old(self).shared@.drop_first(),
                self.dispatcher_stopped == old(self).dispatcher_stopped,
                forall|j: int| k <= j < n ==> #[trigger] self.lanes@[j] == old(self).lanes@[j],
                forall|j: int|
                    0 <= j < k ==> {
                        &&& events_view((#[trigger] self.lanes@[j]).inbox@) == events_view(
                            old(self).lanes@[j].inbox@,
                        ).push(old(self).shared@[0]@)
                        &&& self.lanes@[j].delivered@ == old(self).lanes@[j].delivered@
                        &&& self.lanes@[j].stopped == old(self).lanes@[j].stopped
                        &&& self.lanes@[j].consumer == old(self).lanes@[j].consumer
                    },
            decreases n - k,
        {
            let copy = e.clone();
            let ghost before: Seq<Lane<C>> = self.lanes@;
            let mut lane = self.lanes.remove(k);
            proof {
                lemma_events_view_push(lane.inbox@, copy);
            }
            lane.inbox.push(copy);
            self.lanes.insert(k, lane);
            proof {
                assert forall|j: int| 0 <= j < n && j != k implies #[trigger] self.lanes@[j]
                    == before[j] by {}
            }
            k = k + 1;
        }
        self.dispatcher_stopped = is_terminate(&e);
        proof {
            if old(self).inv() {
                let pre: Seq<EventView> = events_view(old(self).shared@);
                assert(old(self).shared@[0]@ == pre[0]);
                assert(!(pre[0] is Terminate)) by {
                    if pre[0] is Terminate {
                        assert(has_terminate(pre));
                    }
                }
                assert(!self.dispatcher_stopped);
                assert forall|t: int|
                    0 <= t < events_view(self.shared@).len() && (#[trigger] events_view(
                        self.shared@,
                    )[t]) is Terminate implies false by {
                    assert(events_view(self.shared@)[t] == self.shared@[t]@);
                    assert(self.shared@[t] == old(self).shared@[t + 1]);
                    assert(pre[t + 1] is Terminate);
                    assert(has_terminate(pre));
                }
                assert forall|i: int| 0 <= i < self.lanes@.len() implies !has_terminate(
                    events_view((#[trigger] self.lanes@[i]).inbox@),
                ) && !self.lanes@[i].stopped by {
                    let nv: Seq<EventView> = events_view(self.lanes@[i].inbox@);
                    let ov: Seq<EventView> = events_view(old(self).lanes@[i].inbox@);
                    assert(nv == ov.push(pre[0]));
                    if has_terminate(nv) {
                        let t = choose|t: int|
                            0 <= t < nv.len() && (#[trigger] nv[t]) is Terminate;
                        if t < ov.len() {
                            assert(ov[t] is Terminate);
                            assert(has_terminate(ov));
                        } else {
                            assert(nv[t] == pre[0]);
                        }
                    }
                }
            }
        }
    }

    /// One turn of a lane worker's loop: take the lane's oldest queued
    /// event; hand a message's payload to the lane's consumer and record
    /// it, or stop the worker on the termination sentinel. No other lane
    /// and no other component moves.
    pub fn lane_step(&mut self, i: usize)
        requires
            i < old(self).lanes@.len(),
            !old(self).lanes@[i as int].stopped,
            old(self).lanes@[i as int].inbox@.len() > 0,
        ensures
            final(self).shared@ == old(self).shared@,
            final(self).dispatcher_stopped == old(self).dispatcher_stopped,
            final(self).lanes@.len() == old(self).lanes@.len(),
            forall|j: int|
                0 <= j < old(self).lanes@.len() && j != i ==> #[trigger] final(self).lanes@[j]
                    == old(self).lanes@[j],
            final(self).lanes@[i as int].inbox@ == old(self).lanes@[i as int].inbox@.drop_first(),
            final(self).lanes@[i as int].consumer == old(self).lanes@[i as int].consumer,
            (old(self).lanes@[i as int].inbox@[0]@ is Message) ==> {
                &&& payloads_view(final(self).lanes@[i as int].delivered@) == payloads_view(
                    old(self).lanes@[i as int].delivered@,
                ).push(old(self).lanes@[i as int].inbox@[0]@->Message_0)
                &&& !final(self).lanes@[i as int].stopped
            },
            (old(self).lanes@[i as int].inbox@[0]@ is Terminate) ==> {
                &&& final(self).lanes@[i as int].delivered@ == old(
                    self,
                ).lanes@[i as int].delivered@
                &&& final(self).lanes@[i as int].stopped
            },
            old(self).inv() ==> final(self).inv(),
    {
        let ghost before: Seq<Lane<C>> = self.lanes@;
        let mut lane = self.lanes.remove(i);
        let e = lane.inbox.remove(0);
        proof {
            assert(lane.inbox@ =~= old(self).lanes@[i as int].inbox@.drop_first());
        }
        match e {
            Event::Message(data) => {
                let copy = clone_payload(&data);
                proof {
                    lemma_payloads_view_push(lane.delivered@, copy);
                }
                lane.delivered.push(copy);
                lane.consumer.consume(data);
            },
            Event::Terminate => {
                lane.stopped = true;
            },
        }
        self.lanes.insert(i, lane);
        proof {
            assert forall|j: int|
                0 <= j < old(self).lanes@.len() && j != i implies #[trigger] self.lanes@[j]
                == old(self).lanes@[j] by {}
            if old(self).inv() && !old(self).dispatcher_stopped {
                let ov: Seq<EventView> = events_view(old(self).lanes@[i as int].inbox@);
                assert(old(self).lanes@[i as int].inbox@[0]@ == ov[0]);
                assert(!(ov[0] is Terminate)) by {
                    if ov[0] is Terminate {
                        assert(has_terminate(ov));
                    }
                }
                assert(!self.lanes@[i as int].stopped);
                assert forall|k: int| 0 <= k < self.lanes@.len() implies !has_terminate(
                    events_view((#[trigger] self.lanes@[k]).inbox@),
                ) && !self.lanes@[k].stopped by {
                    if k == i {
                        let nv: Seq<EventView> = events_view(self.lanes@[i as int].inbox@);
                        lemma_events_view_drop_first(old(self).lanes@[i as int].inbox@);
                        assert(nv == ov.drop_first());
                        if has_terminate(nv) {
                            let t = choose|t: int|
                                0 <= t < nv.len() && (#[trigger] nv[t]) is Terminate;
                            assert(nv[t] == ov[t + 1]);
                            assert(has_terminate(ov));
                        }
                    }
                }
            }
        }
    }

    /// The coordinated shutdown: submit one termination sentinel, run the
    /// dispatcher until it has forwarded everything and stopped, then run
    /// each lane until it has delivered everything and stopped. The two
    /// phases run in this order so that no lane is waited on before its
    /// sentinel is on its queue. Every loop carries a decreases clause, so
    /// a shutdown provably terminates whenever every consumer call does.
    pub fn shutdown(&mut self)
        requires
            old(self).inv(),
            !old(self).dispatcher_stopped,
        ensures
            shutdown_transition(*old(self), *final(self)),
    {
        let ghost shared0: Seq<EventView> = events_view(self.shared@);
        proof {
            assert forall|t: int| 0 <= t < shared0.len() implies !((#[trigger] shared0[t])
                is Terminate) by {
                if shared0[t] is Terminate {
                    assert(has_terminate(shared0));
                }
            }
            lemma_events_view_push(self.shared@, Event::Terminate);
        }
        self.shared.push(Event::Terminate);
        let ghost full: Seq<EventView> = events_view(self.shared@);
        let n = self.lanes.len();
        let ghost mut j: int = 0;
        while !self.dispatcher_stopped
            invariant
                0 <= j <= full.len(),
                full == shared0.push(EventView::Terminate),
                forall|t: int| 0 <= t < shared0.len() ==> !((#[trigger] shared0[t]) is Terminate),
                self.lanes@.len() == n,
                n == old(self).lanes@.len(),
                n >= 1,
                events_view(self.shared@) == full.skip(j),
                self.dispatcher_stopped == (j == full.len()),
                forall|i: int|
                    0 <= i < n ==> {
                        &&& events_view((#[trigger] self.lanes@[i]).inbox@) == events_view(
                            old(self).lanes@[i].inbox@,
                        ) + full.take(j)
                        &&& self.lanes@[i].delivered@ == old(self).lanes@[i].delivered@
                        &&& !self.lanes@[i].stopped
                        &&& self.lanes@[i].consumer == old(self).lanes@[i].consumer
                    },
            decreases full.len() - j,
        {
            proof {
                assert(events_view(self.shared@).len() == self.shared@.len());
                assert(full.skip(j).len() == full.len() - j);
            }
            let ghost shared_before: Seq<Event> = self.shared@;
            let ghost lanes_before: Seq<Lane<C>> = self.lanes@;
            self.dispatcher_step();
            proof {
                lemma_events_view_drop_first(shared_before);
                assert(shared_before[0]@ == events_view(shared_before)[0]);
                assert(events_view(shared_before)[0] == full[j]);
                assert(full.skip(j).drop_first() =~= full.skip(j + 1));
                assert forall|i: int|
                    0 <= i < n implies events_view((#[trigger] self.lanes@[i]).inbox@)
                    == events_view(old(self).lanes@[i].inbox@) + full.take(j + 1) by {
                    assert(events_view(self.lanes@[i].inbox@) == events_view(
                        lanes_before[i].inbox@,
                    ).push(full[j]));
                    assert(full.take(j + 1) =~= full.take(j).push(full[j]));
                    assert((events_view(old(self).lanes@[i].inbox@) + full.take(j)).push(full[j])
                        =~= events_view(old(self).lanes@[i].inbox@) + full.take(j).push(full[j]));
                }
                if j < shared0.len() {
                    assert(full[j] == shared0[j]);
                    assert(!(full[j] is Terminate));
                } else {
                    assert(full[j] is Terminate);
                }
                j = j + 1;
            }
        }
        proof {
            assert(full.take(full.len() as int) =~= full);
            assert(full.skip(full.len() as int).len() == 0);
            assert(events_view(self.shared@).len() == self.shared@.len());
        }
        let ghost shared_dropped: Seq<Event> = self.shared@;
        let mut i: usize = 0;
        while i < n
            invariant
                i <= n,
                self.lanes@.len() == n,
                n == old(self).lanes@.len(),
                n >= 1,
                self.dispatcher_stopped,
                self.shared@ == shared_dropped,
                shared_dropped.len() == 0,
                full == shared0.push(EventView::Terminate),
                shared0 == events_view(old(self).shared@),
                forall|t: int| 0 <= t < shared0.len() ==> !((#[trigger] shared0[t]) is Terminate),
                old(self).inv(),
                !old(self).dispatcher_stopped,
                forall|k: int|
                    0 <= k < i ==> {
                        &&& (#[trigger] self.lanes@[k]).stopped
                        &&& self.lanes@[k].inbox@.len() == 0
                        &&& self.lanes@[k].consumer == old(self).lanes@[k].consumer
                        &&& payloads_view(self.lanes@[k].delivered@) == payloads_view(
                            old(self).lanes@[k].delivered@,
                        ) + message_payloads(events_view(old(self).lanes@[k].inbox@) + shared0)
                    },
                forall|k: int|
                    i <= k < n ==> {
                        &&& events_view((#[trigger] self.lanes@[k]).inbox@) == events_view(
                            old(self).lanes@[k].inbox@,
                        ) + full
                        &&& self.lanes@[k].delivered@ == old(self).lanes@[k].delivered@
                        &&& !self.lanes@[k].stopped
                        &&& self.lanes@[k].consumer == old(self).lanes@[k].consumer
                    },
            decreases n - i,
        {
            let ghost base: Seq<EventView> = events_view(old(self).lanes@[i as int].inbox@)
                + shared0;
            let ghost g: Seq<EventView> = events_view(self.lanes@[i as int].inbox@);
            let ghost d0: Seq<Seq<u8>> = payloads_view(self.lanes@[i as int].delivered@);
            let ghost snap: Seq<Lane<C>> = self.lanes@;
            proof {
                assert(g =~= base.push(EventView::Terminate));
                let inbox0: Seq<EventView> = events_view(old(self).lanes@[i as int].inbox@);
                assert forall|t: int| 0 <= t < base.len() implies !((#[trigger] base[t])
                    is Terminate) by {
                    if t < inbox0.len() {
                        assert(base[t] == inbox0[t]);
                        if inbox0[t] is Terminate {
                            assert(has_terminate(inbox0));
                        }
                    } else {
                        assert(base[t] == shared0[t - inbox0.len()]);
                    }
                }
            }
            let ghost mut t: int = 0;
            while !self.lanes[i].stopped
                invariant
                    0 <= t <= g.len(),
                    g == base.push(EventView::Terminate),
                    forall|u: int| 0 <= u < base.len() ==> !((#[trigger] base[u]) is Terminate),
                    i < n,
                    self.lanes@.len() == n,
                    self.dispatcher_stopped,
                    self.shared@ == shared_dropped,
                    forall|k: int|
                        0 <= k < n && k != i ==> #[trigger] self.lanes@[k] == snap[k],
                    events_view(self.lanes@[i as int].inbox@) == g.skip(t),
                    self.lanes@[i as int].stopped == (t == g.len()),
                    payloads_view(self.lanes@[i as int].delivered@) == d0 + message_payloads(
                        g.take(t),
                    ),
                    self.lanes@[i as int].consumer == snap[i as int].consumer,
                decreases g.len() - t,
            {
                proof {
                    assert(events_view(self.lanes@[i as int].inbox@).len()
                        == self.lanes@[i as int].inbox@.len());
                    assert(g.skip(t).len() == g.len() - t);
                }
                let ghost inbox_before: Seq<Event> = self.lanes@[i as int].inbox@;
                let ghost dels_before: Seq<Vec<u8>> = self.lanes@[i as int].delivered@;
                self.lane_step(i);
                proof {
                    lemma_events_view_drop_first(inbox_before);
                    assert(inbox_before[0]@ == events_view(inbox_before)[0]);
                    assert(events_view(inbox_before)[0] == g[t]);
                    assert(g.skip(t).drop_first() =~= g.skip(t + 1));
                    assert(g.take(t + 1) =~= g.take(t).push(g[t]));
                    lemma_message_payloads_push(g.take(t), g[t]);
                    if t < base.len() {
                        assert(g[t] == base[t]);
                        assert(!(g[t] is Terminate));
                        let p: Seq<u8> = g[t]->Message_0;
                        assert(payloads_view(self.lanes@[i as int].delivered@) == payloads_view(
                            dels_before,
                        ).push(p));
                        assert((d0 + message_payloads(g.take(t))).push(p) =~= d0
                            + message_payloads(g.take(t)).push(p));
                    } else {
                        assert(g[t] is Terminate);
                    }
                    t = t + 1;
                }
            }
            proof {
                assert(g.take(g.len() as int) =~= g);
                assert(g.skip(g.len() as int).len() == 0);
                lemma_message_payloads_push(base, EventView::Terminate);
                assert(events_view(self.lanes@[i as int].inbox@).len()
                    == self.lanes@[i as int].inbox@.len());
                assert(d0 == payloads_view(old(self).lanes@[i as int].delivered@));
            }
            i = i + 1;
        }
    }
}

/// Builds a carousel over `consumers`, submits every payload of `msgs` in
/// order, and shuts down. Every consumer is invoked once per payload, in
/// submission order: the returned engine's delivery histories each equal
/// `msgs`.
pub fn broadcast_all<C: Consumer>(consumers: Vec<C>, msgs: Vec<Vec<u8>>) -> (r: Result<
    Carousel<C>,
    CarouselError,
>)
    ensures
        consumers@.len() == 0 ==> (r is Err && r->Err_0 == CarouselError::NoConsumers),
        consumers@.len() > 0 ==> {
            &&& r is Ok
            &&& r->Ok_0.lanes@.len() == consumers@.len()
            &&& r->Ok_0.dispatcher_stopped
            &&& forall|i: int|
                0 <= i < consumers@.len() ==> {
                    &&& payloads_view((#[trigger] r->Ok_0.lanes@[i]).delivered@) == payloads_view(
                        msgs@,
                    )
                    &&& r->Ok_0.lanes@[i].stopped
                    &&& r->Ok_0.lanes@[i].consumer == consumers@[i]
                }
        },
{
    let n = consumers.len();
    let mut c = match Carousel::new(consumers) {
        Result::Ok(c) => c,
        Result::Err(e) => {
            return Result::Err(e);
        },
    };
    let ghost lanes0: Seq<Lane<C>> = c.lanes@;
    let ghost m0: Seq<Vec<u8>> = msgs@;
    let mut msgs = msgs;
    let ghost mut k: int = 0;
    while msgs.len() > 0
        invariant
            0 <= k <= m0.len(),
            msgs@ == m0.skip(k),
            c.inv(),
            !c.dispatcher_stopped,
            c.lanes@ == lanes0,
            events_view(c.shared@) == messages_of(payloads_view(m0.take(k))),
        decreases m0.len() - k,
    {
        let data = msgs.remove(0);
        proof {
            assert(data == m0[k]);
            assert(m0.skip(k).drop_first() =~= m0.skip(k + 1));
        }
        let pr = c.put(data);
        proof {
            assert(pr is Ok);
            assert(messages_of(payloads_view(m0.take(k))).push(EventView::Message(m0[k]@))
                =~= messages_of(payloads_view(m0.take(k + 1))));
            k = k + 1;
        }
    }
    proof {
        assert(m0.take(k) =~= m0);
    }
    let ghost before: Carousel<C> = c;
    c.shutdown();
    proof {
        lemma_payloads_of_messages(payloads_view(m0));
        assert forall|i: int| 0 <= i < n implies payloads_view(
            (#[trigger] c.lanes@[i]).delivered@,
        ) == payloads_view(m0) by {
            assert(before.lanes@[i] == lanes0[i]);
            assert(payloads_view(before.lanes@[i].delivered@) =~= Seq::<Seq<u8>>::empty());
            assert(events_view(before.lanes@[i].inbox@) + events_view(before.shared@)
                =~= messages_of(payloads_view(m0)));
            assert(Seq::<Seq<u8>>::empty() + payloads_view(m0) =~= payloads_view(m0));
        }
    }
    Result::Ok(c)
}

/// `post` is reachable from `pre` by submitting the payloads of `msgs`,
/// oldest first, each submission accepted.
pub open spec fn submit_seq<C: Consumer>(
    pre: Carousel<C>,
    post: Carousel<C>,
    msgs: Seq<Seq<u8>>,
) -> bool
    decreases msgs.len(),
{
    if msgs.len() == 0 {
        post == pre
    } else {
        exists|mid: Carousel<C>|
            #![trigger put_transition(pre, mid, msgs[0])]
            put_transition(pre, mid, msgs[0]) && submit_seq(mid, post, msgs.drop_first())
    }
}

proof fn lemma_submit_seq_effect<C: Consumer>(
    pre: Carousel<C>,
    post: Carousel<C>,
    msgs: Seq<Seq<u8>>,
)
    requires
        submit_seq(pre, post, msgs),
    ensures
        post.lanes@ == pre.lanes@,
        post.dispatcher_stopped == pre.dispatcher_stopped,
        events_view(post.shared@) == events_view(pre.shared@) + messages_of(msgs),
    decreases msgs.len(),
{
    if msgs.len() == 0 {
        assert(events_view(pre.shared@) + messages_of(msgs) =~= events_view(pre.shared@));
    } else {
        let mid = choose|mid: Carousel<C>|
            #![trigger put_transition(pre, mid, msgs[0])]
            put_transition(pre, mid, msgs[0]) && submit_seq(mid, post, msgs.drop_first());
        lemma_submit_seq_effect(mid, post, msgs.drop_first());
        assert(events_view(post.shared@) == events_view(pre.shared@).push(
            EventView::Message(msgs[0]),
        ) + messages_of(msgs.drop_first()));
        assert(events_view(pre.shared@).push(EventView::Message(msgs[0])) + messages_of(
            msgs.drop_first(),
        ) =~= events_view(pre.shared@) + messages_of(msgs));
    }
}

/// Broadcast fidelity: starting from a fresh carousel of `n` lanes, after
/// any sequence of accepted submissions followed by one shutdown, every
/// lane has delivered exactly the submitted payloads, in submission order,
/// and every worker has stopped.
pub proof fn lemma_broadcast_fidelity<C: Consumer>(
    s0: Carousel<C>,
    s1: Carousel<C>,
    s2: Carousel<C>,
    msgs: Seq<Seq<u8>>,
    n: int,
)
    requires
        initial_carousel(s0, n),
        submit_seq(s0, s1, msgs),
        shutdown_transition(s1, s2),
    ensures
        s2.lanes@.len() == n,
        forall|i: int|
            0 <= i < n ==> {
                &&& payloads_view((#[trigger] s2.lanes@[i]).delivered@) == msgs
                &&& s2.lanes@[i].stopped
            },
{
    lemma_submit_seq_effect(s0, s1, msgs);
    assert(events_view(s1.shared@) =~= messages_of(msgs));
    lemma_payloads_of_messages(msgs);
    assert forall|i: int| 0 <= i < n implies payloads_view(
        (#[trigger] s2.lanes@[i]).delivered@,
    ) == msgs && s2.lanes@[i].stopped by {
        assert(s1.lanes@[i] == s0.lanes@[i]);
        assert(payloads_view(s1.lanes@[i].delivered@) =~= Seq::<Seq<u8>>::empty());
        assert(events_view(s1.lanes@[i].inbox@) =~= Seq::<EventView>::empty());
        assert(events_view(s1.lanes@[i].inbox@) + events_view(s1.shared@) =~= messages_of(msgs));
        assert(payloads_view(s2.lanes@[i].delivered@) =~= msgs);
    }
}

/// A quiescent shutdown delivers nothing: from a fresh carousel, shutting
/// down with no submissions stops every worker with an empty delivery
/// history, so no consumer is ever invoked.
pub proof fn lemma_clean_shutdown_no_submissions<C: Consumer>(
    s0: Carousel<C>,
    s1: Carousel<C>,
    n: int,
)
    requires
        initial_carousel(s0, n),
        shutdown_transition(s0, s1),
    ensures
        s1.lanes@.len() == n,
        forall|i: int|
            0 <= i < n ==> {
                &&& (#[trigger] s1.lanes@[i]).delivered@.len() == 0
                &&& s1.lanes@[i].stopped
            },
{
    lemma_broadcast_fidelity(s0, s0, s1, Seq::<Seq<u8>>::empty(), n);
    assert forall|i: int| 0 <= i < n implies (#[trigger] s1.lanes@[i]).delivered@.len()
        == 0 by {
        assert(payloads_view(s1.lanes@[i].delivered@).len() == 0);
    }
}

/// No duplication and no loss: however the shared channel serialised a set
/// of concurrent submissions, every lane delivers exactly one copy of each
/// submitted payload — the per-lane counts equal the submission count, and
/// the delivered payloads form the same multiset as the submitted ones.
pub proof fn lemma_no_duplication_no_loss<C: Consumer>(
    s0: Carousel<C>,
    s1: Carousel<C>,
    s2: Carousel<C>,
    msgs: Seq<Seq<u8>>,
    n: int,
)
    requires
        initial_carousel(s0, n),
        submit_seq(s0, s1, msgs),
        shutdown_transition(s1, s2),
    ensures
        forall|i: int|
            0 <= i < n ==> {
                &&& payloads_view((#[trigger] s2.lanes@[i]).delivered@).len() == msgs.len()
                &&& payloads_view(s2.lanes@[i].delivered@).to_multiset() == msgs.to_multiset()
            },
{
    lemma_broadcast_fidelity(s0, s1, s2, msgs, n);
}

} // verus!
