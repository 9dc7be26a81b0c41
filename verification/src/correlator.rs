//! The correlator: the client-side single-consumer loop that maps the id of
//! every outstanding call to the waiter that blocks on it, and delivers each
//! inbound reply to exactly that waiter.

use std::collections::HashMap;
use vstd::prelude::*;
use crate::error::Error;
use crate::packet::Packet;

verus! {

broadcast use vstd::std_specs::hash::group_hash_axioms;

/// A waiter registered under the id of the call it belongs to. The waiter
/// value itself is opaque to the correlator: it is moved out and handed
/// back when the reply with that id arrives.
pub struct Handle<W> {
    pub id: u64,
    pub waiter: W,
}

/// One event on the correlator's input queue: a new waiter to register, an
/// inbound packet from the reader, or the order to stop.
pub enum ReceiverMessage<W, T> {
    Handle(Handle<W>),
    Packet(Packet<T>),
    Shutdown,
}

/// What one correlator step did: registered a waiter, removed the waiter
/// of `id` to deliver a payload to it, stopped, or met a reply whose id has
/// no registered waiter.
pub enum StepOutcome<W, T> {
    Registered,
    Deliver(u64, W, T),
    Stopped,
    Violation,
}

/// One reply handed out by the correlator: the waiter registered under
/// `id`, together with the payload that arrived for it.
pub struct Delivery<W, T> {
    pub id: u64,
    pub waiter: W,
    pub payload: T,
}

/// Whether an event is the registration of a waiter.
pub open spec fn is_handle<W, T>(m: ReceiverMessage<W, T>) -> bool {
    m is Handle
}

/// The id a registration event carries.
pub open spec fn handle_id<W, T>(m: ReceiverMessage<W, T>) -> u64 {
    match m {
        ReceiverMessage::Handle(h) => h.id,
        _ => 0,
    }
}

/// The client front end allocates ids monotonically, so no two
/// registration events on one queue ever carry the same id.
pub open spec fn unique_handle_ids<W, T>(msgs: Seq<ReceiverMessage<W, T>>) -> bool {
    forall|a: int, b: int|
        0 <= a < b < msgs.len() && is_handle(#[trigger] msgs[a]) && is_handle(#[trigger] msgs[b])
            ==> handle_id(msgs[a]) != handle_id(msgs[b])
}

/// Whether the correlator loop is still consuming events, has stopped on a
/// shutdown, or has met a protocol violation.
pub enum RunStatus {
    Running,
    Stopped,
    Violated,
}

/// The state of a correlator run: the waiter map, what was delivered so
/// far in order, and whether the loop still runs.
pub struct RunState<W, T> {
    pub map: Map<u64, W>,
    pub delivered: Seq<Delivery<W, T>>,
    pub status: RunStatus,
}

/// How one event changes the state of a run. After a stop or a violation
/// nothing changes any more.
pub open spec fn run_step<W, T>(st: RunState<W, T>, msg: ReceiverMessage<W, T>) -> RunState<
    W,
    T,
> {
    if !(st.status is Running) {
        st
    } else {
        match msg {
            ReceiverMessage::Handle(h) => RunState {
                map: st.map.insert(h.id, h.waiter),
                delivered: st.delivered,
                status: st.status,
            },
            ReceiverMessage::Packet(Packet::Message(id, t)) => if st.map.contains_key(id) {
                RunState {
                    map: st.map.remove(id),
                    delivered: st.delivered.push(
                        Delivery { id, waiter: st.map[id], payload: t },
                    ),
                    status: st.status,
                }
            } else {
                RunState { map: st.map, delivered: st.delivered, status: RunStatus::Violated }
            },
            ReceiverMessage::Packet(Packet::Shutdown) => RunState {
                map: st.map,
                delivered: st.delivered,
                status: RunStatus::Stopped,
            },
            ReceiverMessage::Shutdown => RunState {
                map: st.map,
                delivered: st.delivered,
                status: RunStatus::Stopped,
            },
        }
    }
}

/// The state of the correlator after the first `k` events of `msgs`.
pub open spec fn run<W, T>(msgs: Seq<ReceiverMessage<W, T>>, k: int) -> RunState<W, T>
    decreases k
        when 0 <= k <= msgs.len()
{
    if k <= 0 {
        RunState { map: Map::empty(), delivered: Seq::empty(), status: RunStatus::Running }
    } else {
        run_step(run(msgs, k - 1), msgs[k - 1])
    }
}

/// Once a run has stopped or met a violation, later events change nothing.
pub proof fn lemma_run_absorbs<W, T>(msgs: Seq<ReceiverMessage<W, T>>, k: int, j: int)
    requires
        0 <= k <= j <= msgs.len(),
        !(run(msgs, k).status is Running),
    ensures
        run(msgs, j) == run(msgs, k),
    decreases j - k,
{
    if j > k {
        lemma_run_absorbs(msgs, k, j - 1);
    }
}

/// The ids carried by the registration events among the first `k` events.
/// Registration is enqueued in the same atomic section as the request
/// write, so these are the ids sent in request frames.
pub open spec fn registered_ids<W, T>(msgs: Seq<ReceiverMessage<W, T>>, k: int) -> Set<u64> {
    Set::new(
        |id: u64|
            exists|a: int|
                0 <= a < k && is_handle(#[trigger] msgs[a]) && handle_id(msgs[a]) == id,
    )
}

/// The ids of the deliveries in `d`: the calls already replied to.
pub open spec fn delivered_ids<W, T>(d: Seq<Delivery<W, T>>) -> Set<u64> {
    Set::new(|id: u64| exists|a: int| 0 <= a < d.len() && (#[trigger] d[a]).id == id)
}

/// Whether event `m` is the arrival of the reply that delivery `d` handed out.
pub open spec fn is_reply_for<W, T>(m: ReceiverMessage<W, T>, d: Delivery<W, T>) -> bool {
    m == ReceiverMessage::<W, T>::Packet(Packet::Message(d.id, d.payload))
}

/// Whether some of the first `k` events is the reply packet that delivery
/// `d` handed out.
pub open spec fn has_reply_event<W, T>(
    msgs: Seq<ReceiverMessage<W, T>>,
    k: int,
    d: Delivery<W, T>,
) -> bool {
    exists|e: int| 0 <= e < k && is_reply_for(#[trigger] msgs[e], d)
}

/// The correlation invariant, as long as the loop runs: the registered ids
/// are exactly the ids sent but not yet replied to; no id is delivered
/// twice; and every delivery echoes a reply packet that was received, under
/// the id of the call it answers.
pub proof fn lemma_correlator_invariant<W, T>(msgs: Seq<ReceiverMessage<W, T>>, k: int)
    requires
        0 <= k <= msgs.len(),
        unique_handle_ids(msgs),
        run(msgs, k).status is Running,
    ensures
        run(msgs, k).map.dom() == registered_ids(msgs, k).difference(
            delivered_ids(run(msgs, k).delivered),
        ),
        forall|id: u64|
            delivered_ids(run(msgs, k).delivered).contains(id) ==> registered_ids(
                msgs,
                k,
            ).contains(id),
        forall|a: int, b: int|
            0 <= a < b < run(msgs, k).delivered.len() ==> (#[trigger] run(
                msgs,
                k,
            ).delivered[a]).id != (#[trigger] run(msgs, k).delivered[b]).id,
        forall|a: int|
            0 <= a < run(msgs, k).delivered.len() ==> has_reply_event(
                msgs,
                k,
                #[trigger] run(msgs, k).delivered[a],
            ),
    decreases k,
{
    if k == 0 {
        assert(run(msgs, 0).map.dom() =~= registered_ids(msgs, 0).difference(
            delivered_ids(run(msgs, 0).delivered),
        ));
    } else {
        if !(run(msgs, k - 1).status is Running) {
            lemma_run_absorbs(msgs, k - 1, k);
            assert(false);
        }
        lemma_correlator_invariant(msgs, k - 1);
        let st = run(msgs, k - 1);
        let st2 = run(msgs, k);
        let reg = registered_ids(msgs, k - 1);
        let reg2 = registered_ids(msgs, k);
        match msgs[k - 1] {
            ReceiverMessage::Handle(h) => {
                assert forall|id: u64| reg2.contains(id) implies reg.insert(h.id).contains(
                    id,
                ) by {
                    let a = choose|a: int|
                        0 <= a < k && is_handle(#[trigger] msgs[a]) && handle_id(msgs[a]) == id;
                    if a < k - 1 {
                        assert(reg.contains(id));
                    }
                }
                assert forall|id: u64| reg.insert(h.id).contains(id) implies reg2.contains(
                    id,
                ) by {
                    if id == h.id {
                        assert(is_handle(msgs[k - 1]) && handle_id(msgs[k - 1]) == id);
                    } else {
                        let a = choose|a: int|
                            0 <= a < k - 1 && is_handle(#[trigger] msgs[a]) && handle_id(msgs[a])
                                == id;
                        assert(is_handle(msgs[a]) && handle_id(msgs[a]) == id);
                    }
                }
                assert(reg2 =~= reg.insert(h.id));
                // a fresh id was never registered before, hence never delivered
                if reg.contains(h.id) {
                    let a = choose|a: int|
                        0 <= a < k - 1 && is_handle(#[trigger] msgs[a]) && handle_id(msgs[a])
                            == h.id;
                    assert(is_handle(msgs[k - 1]));
                    assert(false);
                }
                assert(st2.map.dom() =~= reg2.difference(delivered_ids(st2.delivered)));
            },
            ReceiverMessage::Packet(p) => {
                match p {
                    Packet::Message(id, t) => {
                        assert(st.map.contains_key(id));
                        assert forall|x: u64| reg2.contains(x) implies reg.contains(x) by {
                            let a = choose|a: int|
                                0 <= a < k && is_handle(#[trigger] msgs[a]) && handle_id(msgs[a])
                                    == x;
                            assert(a < k - 1);
                        }
                        assert forall|x: u64| reg.contains(x) implies reg2.contains(x) by {
                            let a = choose|a: int|
                                0 <= a < k - 1 && is_handle(#[trigger] msgs[a]) && handle_id(
                                    msgs[a],
                                ) == x;
                            assert(is_handle(msgs[a]) && handle_id(msgs[a]) == x);
                        }
                        assert(reg2 =~= reg);
                        assert(st2.delivered == st.delivered.push(
                            Delivery { id, waiter: st.map[id], payload: t },
                        ));
                        assert forall|x: u64| delivered_ids(st2.delivered).contains(x) implies
                            delivered_ids(st.delivered).insert(id).contains(x) by {
                            let a = choose|a: int|
                                0 <= a < st2.delivered.len() && (#[trigger] st2.delivered[a]).id
                                    == x;
                            if a < st.delivered.len() {
                                assert((st.delivered[a]).id == x);
                            }
                        }
                        assert forall|x: u64| delivered_ids(st.delivered).insert(id).contains(x)
                            implies delivered_ids(st2.delivered).contains(x) by {
                            if x == id {
                                assert((st2.delivered[st2.delivered.len() - 1]).id == x);
                            } else {
                                let a = choose|a: int|
                                    0 <= a < st.delivered.len() && (#[trigger] st.delivered[a]).id
                                        == x;
                                assert((st2.delivered[a]).id == x);
                            }
                        }
                        assert(delivered_ids(st2.delivered) =~= delivered_ids(
                            st.delivered,
                        ).insert(id));
                        // the delivered id leaves the map and joins the replies
                        assert(st2.map.dom() =~= reg2.difference(delivered_ids(st2.delivered)));
                        // it had not been delivered before, so ids stay distinct
                        assert(!delivered_ids(st.delivered).contains(id));
                        assert forall|a: int, b: int|
                            0 <= a < b < st2.delivered.len() implies (#[trigger] st2
                            .delivered[a]).id != (#[trigger] st2.delivered[b]).id by {
                            if b == st2.delivered.len() - 1 {
                                assert((st.delivered[a]).id == (st2.delivered[a]).id);
                                if st2.delivered[a].id == id {
                                    assert(delivered_ids(st.delivered).contains(id));
                                }
                            }
                        }
                        // every delivery, the new one included, echoes a packet
                        assert forall|a: int| 0 <= a < st2.delivered.len() implies has_reply_event(
                            msgs,
                            k,
                            st2.delivered[a],
                        ) by {
                            if a < st.delivered.len() {
                                assert(has_reply_event(msgs, k - 1, st.delivered[a]));
                                let e = choose|e: int|
                                    0 <= e < k - 1 && is_reply_for(
                                        #[trigger] msgs[e],
                                        st.delivered[a],
                                    );
                                assert(is_reply_for(msgs[e], st2.delivered[a]));
                            } else {
                                assert(is_reply_for(msgs[k - 1], st2.delivered[a]));
                            }
                        }
                    },
                    Packet::Shutdown => {
                        assert(false);
                    },
                }
            },
            ReceiverMessage::Shutdown => {
                assert(false);
            },
        }
    }
}

/// Whether the first components of the pairs in `s` are pairwise distinct.
pub open spec fn distinct_firsts<A>(s: Seq<(u64, A)>) -> bool {
    forall|a: int, b: int| 0 <= a < b < s.len() ==> (#[trigger] s[a]).0 != (#[trigger] s[b]).0
}

/// The waiter map that holds every pair of `ws`.
pub open spec fn map_of<W>(ws: Seq<(u64, W)>) -> Map<u64, W>
    decreases ws.len(),
{
    if ws.len() == 0 {
        Map::empty()
    } else {
        map_of(ws.drop_last()).insert(ws.last().0, ws.last().1)
    }
}

/// The registration events for the waiters of `ws`, in order.
pub open spec fn register_events<W, T>(ws: Seq<(u64, W)>) -> Seq<ReceiverMessage<W, T>> {
    Seq::new(
        ws.len(),
        |i: int| ReceiverMessage::Handle(Handle { id: ws[i].0, waiter: ws[i].1 }),
    )
}

/// The arrival events for the reply messages of `msgs`, in order.
pub open spec fn packet_events<W, T>(msgs: Seq<(u64, T)>) -> Seq<ReceiverMessage<W, T>> {
    Seq::new(
        msgs.len(),
        |i: int| ReceiverMessage::Packet(Packet::Message(msgs[i].0, msgs[i].1)),
    )
}

/// Registering waiters does nothing but fill the map.
proof fn lemma_run_registers<W, T>(ws: Seq<(u64, W)>, evs: Seq<ReceiverMessage<W, T>>, k: int)
    requires
        0 <= k <= ws.len() <= evs.len(),
        forall|i: int|
            0 <= i < ws.len() ==> evs[i] == ReceiverMessage::<W, T>::Handle(
                Handle { id: ws[i].0, waiter: ws[i].1 },
            ),
    ensures
        run(evs, k).status is Running,
        run(evs, k).delivered == Seq::<Delivery<W, T>>::empty(),
        run(evs, k).map == map_of(ws.subrange(0, k)),
    decreases k,
{
    if k == 0 {
        assert(map_of(ws.subrange(0, 0)) =~= Map::<u64, W>::empty());
    } else {
        lemma_run_registers(ws, evs, k - 1);
        assert(ws.subrange(0, k).drop_last() =~= ws.subrange(0, k - 1));
        assert(ws.subrange(0, k).last() == ws[k - 1]);
    }
}

/// Every call is answered exactly once. When the waiters of `ws` are
/// registered first — their ids pairwise distinct, as the front end
/// allocates them — and the read half then carries one reply per id, each
/// under a registered id, the correlator never stops early, and after the
/// first `j` replies it has delivered to the waiter of each reply's id
/// exactly the payload the wire carried under that id, in arrival order;
/// the ids still registered are exactly those not yet replied to.
pub proof fn lemma_calls_answered<W, T>(ws: Seq<(u64, W)>, msgs: Seq<(u64, T)>, j: int)
    requires
        0 <= j <= msgs.len(),
        distinct_firsts(ws),
        distinct_firsts(msgs),
        forall|i: int| 0 <= i < msgs.len() ==> map_of(ws).contains_key((#[trigger] msgs[i]).0),
    ensures
        ({
            let evs = register_events::<W, T>(ws) + packet_events::<W, T>(msgs);
            &&& run(evs, ws.len() + j).status is Running
            &&& run(evs, ws.len() + j).delivered == Seq::new(
                j as nat,
                |i: int| Delivery { id: msgs[i].0, waiter: map_of(ws)[msgs[i].0], payload: msgs[i].1 },
            )
            &&& run(evs, ws.len() + j).map == map_of(ws).remove_keys(
                Set::new(|id: u64| exists|i: int| 0 <= i < j && (#[trigger] msgs[i]).0 == id),
            )
        }),
    decreases j,
{
    let evs = register_events::<W, T>(ws) + packet_events::<W, T>(msgs);
    let full = map_of(ws);
    if j == 0 {
        assert forall|i: int| 0 <= i < ws.len() implies evs[i] == ReceiverMessage::<W, T>::Handle(
            Handle { id: ws[i].0, waiter: ws[i].1 },
        ) by {
            assert(evs[i] == register_events::<W, T>(ws)[i]);
        }
        lemma_run_registers(ws, evs, ws.len() as int);
        assert(ws.subrange(0, ws.len() as int) =~= ws);
        let none = Set::new(|id: u64| exists|i: int| 0 <= i < 0 && (#[trigger] msgs[i]).0 == id);
        assert(full.remove_keys(none) =~= full) by {
            assert(forall|id: u64| !none.contains(id));
        }
        assert(run(evs, ws.len() as int).delivered =~= Seq::new(
            0,
            |i: int| Delivery { id: msgs[i].0, waiter: full[msgs[i].0], payload: msgs[i].1 },
        ));
    } else {
        lemma_calls_answered(ws, msgs, j - 1);
        let st = run(evs, ws.len() + j - 1);
        let id = msgs[j - 1].0;
        let prev_ids = Set::new(
            |id2: u64| exists|i: int| 0 <= i < j - 1 && (#[trigger] msgs[i]).0 == id2,
        );
        let cur_ids = Set::new(
            |id2: u64| exists|i: int| 0 <= i < j && (#[trigger] msgs[i]).0 == id2,
        );
        // the event taken now is the reply for `msgs[j - 1]`
        assert(evs[ws.len() + j - 1] == packet_events::<W, T>(msgs)[j - 1]);
        assert(evs[ws.len() + j - 1] == ReceiverMessage::<W, T>::Packet(
            Packet::Message(id, msgs[j - 1].1),
        ));
        // its id is registered and was not replied to before
        if prev_ids.contains(id) {
            let i = choose|i: int| 0 <= i < j - 1 && (#[trigger] msgs[i]).0 == id;
            assert(false);
        }
        assert(full.contains_key(id));
        assert(st.map.contains_key(id));
        assert(st.map[id] == full[id]);
        assert(run(evs, ws.len() + j) == run_step(st, evs[ws.len() + j - 1]));
        // one more delivery, in order
        assert(run(evs, ws.len() + j).delivered =~= Seq::new(
            j as nat,
            |i: int| Delivery { id: msgs[i].0, waiter: full[msgs[i].0], payload: msgs[i].1 },
        ));
        // the replied id leaves the outstanding set
        assert forall|x: u64| cur_ids.contains(x) implies prev_ids.insert(id).contains(x) by {
            let i = choose|i: int| 0 <= i < j && (#[trigger] msgs[i]).0 == x;
            if i < j - 1 {
                assert(prev_ids.contains(x));
            }
        }
        assert forall|x: u64| prev_ids.insert(id).contains(x) implies cur_ids.contains(x) by {
            if x == id {
                assert((msgs[j - 1]).0 == x);
            } else {
                let i = choose|i: int| 0 <= i < j - 1 && (#[trigger] msgs[i]).0 == x;
                assert((msgs[i]).0 == x);
            }
        }
        assert(cur_ids =~= prev_ids.insert(id));
        assert(run(evs, ws.len() + j).map =~= full.remove_keys(cur_ids));
    }
}

/// The correlator's waiter map. Because the correlator is the single
/// consumer of its queue, the map needs no lock of its own.
pub struct Correlator<W> {
    waiters: HashMap<u64, W>,
}

impl<W> View for Correlator<W> {
    type V = Map<u64, W>;

    closed spec fn view(&self) -> Map<u64, W> {
        self.waiters@
    }
}

impl<W> Correlator<W> {
    /// A correlator with no outstanding calls.
    pub fn new() -> (c: Self)
        ensures
            c@ == Map::<u64, W>::empty(),
    {
        Correlator { waiters: HashMap::new() }
    }

    /// How many calls are outstanding.
    pub fn outstanding(&self) -> (n: usize)
        ensures
            n == self@.len(),
    {
        self.waiters.len()
    }

    /// Whether a waiter is registered under `id`.
    pub fn contains(&self, id: u64) -> (b: bool)
        ensures
            b == self@.contains_key(id),
    {
        self.waiters.contains_key(&id)
    }

    /// Consumes one event. A registration inserts the waiter under its id;
    /// an inbound reply removes the waiter of that id and hands it out with
    /// the payload, or reports a violation, leaving every other waiter
    /// untouched, if no waiter holds the id; a shutdown packet or a stop
    /// order stops the loop.
    pub fn step<T>(&mut self, msg: ReceiverMessage<W, T>) -> (r: StepOutcome<W, T>)
        requires
            msg matches ReceiverMessage::Handle(h) ==> !old(self)@.contains_key(h.id),
        ensures
            match msg {
                ReceiverMessage::Handle(h) => final(self)@ == old(self)@.insert(h.id, h.waiter)
                    && r is Registered,
                ReceiverMessage::Packet(p) => match p {
                    Packet::Message(id, t) => if old(self)@.contains_key(id) {
                        final(self)@ == old(self)@.remove(id) && r == StepOutcome::Deliver(
                            id,
                            old(self)@[id],
                            t,
                        )
                    } else {
                        final(self)@ == old(self)@ && r is Violation
                    },
                    Packet::Shutdown => final(self)@ == old(self)@ && r is Stopped,
                },
                ReceiverMessage::Shutdown => final(self)@ == old(self)@ && r is Stopped,
            },
    {
        match msg {
            ReceiverMessage::Handle(h) => {
                self.waiters.insert(h.id, h.waiter);
                StepOutcome::Registered
            },
            ReceiverMessage::Packet(Packet::Message(id, t)) => {
                match self.waiters.remove(&id) {
                    Some(w) => StepOutcome::Deliver(id, w, t),
                    None => StepOutcome::Violation,
                }
            },
            ReceiverMessage::Packet(Packet::Shutdown) => StepOutcome::Stopped,
            ReceiverMessage::Shutdown => StepOutcome::Stopped,
        }
    }
}

/// The correlator loop: consumes the queued events in order until a
/// shutdown packet, a stop order, or the end of the queue, delivering each
/// reply to the waiter registered under its id. A reply whose id has no
/// registered waiter is a protocol violation: the loop ends with that
/// error, the deliveries made so far stand, and the waiters still
/// registered are dropped with the correlator, unblocking their callers.
pub fn receiver<W, T>(messages: Vec<ReceiverMessage<W, T>>) -> (r: (
    Vec<Delivery<W, T>>,
    Result<(), Error>,
))
    requires
        unique_handle_ids(messages@),
    ensures
        r.0@ == run(messages@, messages@.len() as int).delivered,
        r.1 is Ok <==> !(run(messages@, messages@.len() as int).status is Violated),
        r.1 matches Err(e) ==> e == Error::Protocol,
{
    let ghost orig = messages@;
    let mut queue = messages;
    let total: usize = queue.len();
    let mut cor: Correlator<W> = Correlator::new();
    let mut delivered: Vec<Delivery<W, T>> = Vec::new();
    let mut k: usize = 0;
    proof {
        assert(orig.subrange(0, orig.len() as int) =~= orig);
    }
    loop
        invariant
            orig == messages@,
            unique_handle_ids(orig),
            total == orig.len(),
            k + queue@.len() == total,
            k <= orig.len(),
            queue@ == orig.subrange(k as int, orig.len() as int),
            run(orig, k as int).status is Running,
            cor@ == run(orig, k as int).map,
            delivered@ == run(orig, k as int).delivered,
        decreases orig.len() - k,
    {
        if queue.len() == 0 {
            proof {
                assert(k == orig.len());
            }
            return (delivered, Ok(()));
        }
        let ghost pre = queue@;
        let msg = queue.remove(0);
        proof {
            assert(k < orig.len());
        }
        proof {
            assert(msg == orig[k as int]);
            assert(pre.remove(0) =~= orig.subrange(k + 1, orig.len() as int));
        }
        proof {
            lemma_correlator_invariant(orig, k as int);
            if is_handle(msg) && cor@.contains_key(handle_id(msg)) {
                let id = handle_id(msg);
                assert(registered_ids(orig, k as int).contains(id));
                let a = choose|a: int|
                    0 <= a < k && is_handle(#[trigger] orig[a]) && handle_id(orig[a]) == id;
                assert(is_handle(orig[k as int]));
                assert(false);
            }
        }
        let res = cor.step(msg);
        match res {
            StepOutcome::Registered => {
                proof {
                    assert(run(orig, k + 1) == run_step(run(orig, k as int), orig[k as int]));
                }
                k += 1;
            },
            StepOutcome::Deliver(id, w, t) => {
                delivered.push(Delivery { id, waiter: w, payload: t });
                proof {
                    assert(run(orig, k + 1) == run_step(run(orig, k as int), orig[k as int]));
                    assert(delivered@ =~= run(orig, k + 1).delivered);
                }
                k += 1;
            },
            StepOutcome::Stopped => {
                proof {
                    assert(run(orig, k + 1) == run_step(run(orig, k as int), orig[k as int]));
                    lemma_run_absorbs(orig, k + 1, orig.len() as int);
                }
                return (delivered, Ok(()));
            },
            StepOutcome::Violation => {
                proof {
                    assert(run(orig, k + 1) == run_step(run(orig, k as int), orig[k as int]));
                    lemma_run_absorbs(orig, k + 1, orig.len() as int);
                }
                return (delivered, Err(Error::Protocol));
            },
        }
    }
}

} // verus!
