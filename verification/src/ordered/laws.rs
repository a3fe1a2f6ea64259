use vstd::prelude::*;

use super::queue::is_min_key;
use super::OrderedState;
use crate::poll::{Outcome, Step};

verus! {

/// Choosing the round's queue keeps the invariant.
pub proof fn lemma_begin_round_keeps_inv<F, T>(s: OrderedState<F, T>)
    requires
        s.inv(),
    ensures
        s.begin_round().inv(),
{
    assert(s.begin_round().held() =~= s.held());
}

/// Every scheduling decision keeps the invariant.
pub proof fn lemma_advance_keeps_inv<F, T>(pre: OrderedState<F, T>, post: OrderedState<F, T>, r: Step<F, T>)
    requires
        pre.inv(),
        pre.in_flight is None,
        pre.advance(post, r),
    ensures
        post.inv(),
{
    if !pre.queued().dom().is_empty() {
        assert(post.held() =~= pre.held());
    } else if pre.results.contains_key(pre.ret_pos) {
        assert(post.held() =~= pre.held().remove(pre.ret_pos));
    } else {
        assert(post.held() =~= pre.held());
    }
}

/// Storing the result of the in-flight future keeps the invariant.
pub proof fn lemma_report_ready_keeps_inv<F, T>(pre: OrderedState<F, T>, v: T)
    requires
        pre.inv(),
        pre.in_flight is Some,
    ensures
        (OrderedState { results: pre.results.insert(pre.in_flight->0, v), in_flight: None, ..pre }).inv(),
{
    let post = OrderedState { results: pre.results.insert(pre.in_flight->0, v), in_flight: None, ..pre };
    assert(post.held() =~= pre.held());
}

/// Dropping the in-flight future keeps the invariant.
pub proof fn lemma_report_closed_keeps_inv<F, T>(pre: OrderedState<F, T>)
    requires
        pre.inv(),
        pre.in_flight is Some,
    ensures
        (OrderedState { in_flight: None, ..pre }).inv(),
{
    let post = OrderedState { in_flight: None, ..pre };
    assert(post.held() =~= pre.held().remove(pre.in_flight->0));
}

/// Parking the in-flight future keeps the invariant.
pub proof fn lemma_report_pending_keeps_inv<F, T>(pre: OrderedState<F, T>, fut: F)
    requires
        pre.inv(),
        pre.in_flight is Some,
    ensures
        (OrderedState { in_flight: None, ..pre }).with_parked(pre.parked().insert(pre.in_flight->0, fut)).inv(),
{
    let post = (OrderedState { in_flight: None, ..pre }).with_parked(pre.parked().insert(pre.in_flight->0, fut));
    assert(post.held() =~= pre.held());
}

/// A decision yields only the result stored for the next position, and then
/// moves the position on by one; every other decision leaves the position
/// where it is. Since no held task lies below the position, results come out
/// in the order of their ids, each at most once.
pub proof fn lemma_yield_is_next_position<F, T>(
    pre: OrderedState<F, T>,
    post: OrderedState<F, T>,
    r: Step<F, T>,
)
    requires
        pre.inv(),
        pre.in_flight is None,
        pre.advance(post, r),
    ensures
        r is Ready <==> pre.queued().dom().is_empty() && pre.results.contains_key(pre.ret_pos),
        r is Ready ==> {
            &&& r->Ready_0 == pre.results[pre.ret_pos]
            &&& post.ret_pos == pre.ret_pos + 1
            &&& forall|k: usize| #[trigger] post.held().contains(k) ==> pre.ret_pos < k
        },
        !(r is Ready) ==> post.ret_pos == pre.ret_pos,
{
    lemma_advance_conserves_tasks(pre, post, r);
    if r is Ready {
        assert(pre.held().contains(pre.ret_pos));
        assert forall|k: usize| #[trigger] post.held().contains(k) implies pre.ret_pos < k by {
            assert(pre.held().contains(k));
        }
    }
}

/// A decision keeps every task it does not hand out or yield: the held ids
/// lose exactly the yielded position, and nothing else; stored results keep
/// their values.
pub proof fn lemma_advance_conserves_tasks<F, T>(
    pre: OrderedState<F, T>,
    post: OrderedState<F, T>,
    r: Step<F, T>,
)
    requires
        pre.inv(),
        pre.in_flight is None,
        pre.advance(post, r),
    ensures
        r is Ready ==> post.held() == pre.held().remove(pre.ret_pos),
        !(r is Ready) ==> post.held() == pre.held(),
        forall|k: usize|
            #[trigger] pre.results.contains_key(k) && !(r is Ready && k == pre.ret_pos) ==> post.results.contains_key(k)
                && post.results[k] == pre.results[k],
{
    if !pre.queued().dom().is_empty() {
        assert(post.held() =~= pre.held());
    } else if pre.results.contains_key(pre.ret_pos) {
        assert(post.held() =~= pre.held().remove(pre.ret_pos));
    } else {
        assert(post.held() =~= pre.held());
    }
}

/// Reporting keeps every task but a future whose channel was closed: the
/// result of a finished future is stored under its id, a pending future is
/// parked under its id, and the following decision is as above.
pub proof fn lemma_report_conserves_tasks<F, T>(
    pre: OrderedState<F, T>,
    outcome: Outcome<F, T>,
    post: OrderedState<F, T>,
    r: Step<F, T>,
)
    requires
        pre.inv(),
        pre.in_flight is Some,
        pre.report(outcome, post, r),
    ensures
        outcome is Closed ==> post.held() == pre.held().remove(pre.in_flight->0),
        !(outcome is Closed) && r is Ready ==> post.held() == pre.held().remove(pre.ret_pos),
        !(outcome is Closed) && !(r is Ready) ==> post.held() == pre.held(),
        outcome is Ready && !(r is Ready && pre.in_flight->0 == pre.ret_pos) ==> post.results.contains_key(
            pre.in_flight->0,
        ) && post.results[pre.in_flight->0] == outcome->Ready_0,
{
    let id = pre.in_flight->0;
    let idle = OrderedState { in_flight: None, ..pre };
    match outcome {
        Outcome::Ready(v) => {
            let mid = OrderedState { results: pre.results.insert(id, v), ..idle };
            lemma_report_ready_keeps_inv(pre, v);
            lemma_advance_conserves_tasks(mid, post, r);
            assert(mid.held() =~= pre.held());
        },
        Outcome::Closed => {
            assert(post.held() =~= pre.held().remove(id));
        },
        Outcome::Pending(fut) => {
            let mid = idle.with_parked(pre.parked().insert(id, fut));
            lemma_report_pending_keeps_inv(pre, fut);
            lemma_advance_conserves_tasks(mid, post, r);
            assert(mid.held() =~= pre.held());
        },
    }
}

/// Within a round the queued futures are polled in increasing id order: a
/// future handed out after reporting on another one has a larger id.
pub proof fn lemma_round_polls_in_id_order<F, T>(
    pre: OrderedState<F, T>,
    mid: OrderedState<F, T>,
    first_poll: F,
    outcome: Outcome<F, T>,
    post: OrderedState<F, T>,
    next_poll: F,
)
    requires
        pre.inv(),
        pre.in_flight is None,
        pre.advance(mid, Step::Poll(first_poll)),
        mid.report(outcome, post, Step::Poll(next_poll)),
    ensures
        mid.in_flight->0 < post.in_flight->0,
{
    lemma_advance_keeps_inv(pre, mid, Step::Poll(first_poll));
    let id = mid.in_flight->0;
    let idle = OrderedState { in_flight: None, ..mid };
    let next = post.in_flight->0;
    match outcome {
        Outcome::Ready(v) => {
            let m2 = OrderedState { results: mid.results.insert(id, v), ..idle };
            assert(m2.queued() == mid.queued());
            assert(pre.queued().contains_key(next));
        },
        Outcome::Closed => {},
        Outcome::Pending(fut) => {
            let m2 = idle.with_parked(mid.parked().insert(id, fut));
            assert(m2.queued() == mid.queued());
            assert(pre.queued().contains_key(next));
        },
    }
}

/// One call of the stream's driver interface: `poll_start` (no event) when
/// no future is in flight, `poll_report` with the outcome `event` when one is.
pub open spec fn poll_step<F, T>(
    pre: OrderedState<F, T>,
    event: Option<Outcome<F, T>>,
    post: OrderedState<F, T>,
    r: Step<F, T>,
) -> bool {
    match event {
        None => pre.in_flight is None && if pre.is_empty() {
            r == Step::<F, T>::Finished && post == pre
        } else {
            pre.begin_round().advance(post, r)
        },
        Some(o) => pre.in_flight is Some && pre.report(o, post, r),
    }
}

/// `states[i + 1]` follows from `states[i]` by one driver call that was given
/// `events[i]` and answered `steps[i]`.
pub open spec fn is_run<F, T>(
    states: Seq<OrderedState<F, T>>,
    events: Seq<Option<Outcome<F, T>>>,
    steps: Seq<Step<F, T>>,
) -> bool {
    &&& states.len() == steps.len() + 1
    &&& events.len() == steps.len()
    &&& forall|i: int|
        0 <= i < steps.len() ==> poll_step(states[i], events[i], states[i + 1], #[trigger] steps[i])
}

/// How many of `steps` yield an item.
pub open spec fn count_yields<F, T>(steps: Seq<Step<F, T>>) -> nat
    decreases steps.len(),
{
    if steps.len() == 0 {
        0
    } else {
        count_yields(steps.drop_last()) + if steps.last() is Ready { 1nat } else { 0nat }
    }
}

/// How many of `events` report a closed channel.
pub open spec fn count_closed<F, T>(events: Seq<Option<Outcome<F, T>>>) -> nat
    decreases events.len(),
{
    if events.len() == 0 {
        0
    } else {
        count_closed(events.drop_last()) + if events.last() == Some(Outcome::<F, T>::Closed) {
            1nat
        } else {
            0nat
        }
    }
}

/// How many futures the state holds, the one in flight included.
pub open spec fn pending_count<F, T>(s: OrderedState<F, T>) -> nat {
    s.first.len() + s.second.len() + if s.in_flight is Some { 1nat } else { 0nat }
}

/// How many tasks the state holds: futures and stored results.
pub open spec fn held_count<F, T>(s: OrderedState<F, T>) -> nat {
    pending_count(s) + s.results.len()
}

/// Task `k` is neither queued, nor parked, nor in flight.
pub open spec fn retired<F, T>(s: OrderedState<F, T>, k: usize) -> bool {
    &&& !s.first.contains_key(k)
    &&& !s.second.contains_key(k)
    &&& s.in_flight != Some(k)
}

/// At call `j` of the run, the future of task `k` was reported finished with `v`.
pub open spec fn ready_at<F, T>(
    states: Seq<OrderedState<F, T>>,
    events: Seq<Option<Outcome<F, T>>>,
    j: int,
    k: usize,
    v: T,
) -> bool {
    &&& states[j].in_flight == Some(k)
    &&& events[j] == Some(Outcome::<F, T>::Ready(v))
}

/// Some call before call `i` reported task `k` finished with `v`.
pub open spec fn reported_before<F, T>(
    states: Seq<OrderedState<F, T>>,
    events: Seq<Option<Outcome<F, T>>>,
    i: int,
    k: usize,
    v: T,
) -> bool {
    exists|j: int| 0 <= j < i && #[trigger] ready_at(states, events, j, k, v)
}

/// What holds of a run after its first `i` calls.
pub open spec fn run_facts<F, T>(
    states: Seq<OrderedState<F, T>>,
    events: Seq<Option<Outcome<F, T>>>,
    steps: Seq<Step<F, T>>,
    i: int,
) -> bool {
    let s = states[i];
    let s0 = states[0];
    // the invariant holds
    &&& s.inv()
    // the next position is the start plus the number of items yielded
    &&& s.ret_pos == s0.ret_pos + count_yields(steps.take(i))
    // every task held at the start is still held, was yielded, or was dropped on a closed channel
    &&& held_count(s) + count_yields(steps.take(i)) + count_closed(events.take(i)) == held_count(s0)
    // no future is added
    &&& pending_count(s) <= pending_count(s0)
    // each item yielded is the value reported for the position it was yielded at
    // (or the result already stored for it at the start)
    &&& forall|m: int|
        0 <= m < i && #[trigger] steps[m] is Ready ==> reported_before(
            states,
            events,
            m + 1,
            states[m].ret_pos,
            steps[m]->Ready_0,
        ) || (s0.results.contains_key(states[m].ret_pos) && s0.results[states[m].ret_pos]
            == steps[m]->Ready_0)
    // each stored result was reported (or stored at the start) ...
    &&& forall|k: usize| #[trigger]
        s.results.contains_key(k) ==> reported_before(states, events, i, k, s.results[k]) || (
        s0.results.contains_key(k) && s0.results[k] == s.results[k])
    // ... and each result reported and not yet yielded is stored
    &&& forall|j: int, k: usize, v: T|
        0 <= j < i && #[trigger] ready_at(states, events, j, k, v) && s.ret_pos <= k
            ==> s.results.contains_key(k) && s.results[k] == v
    // a future that finished is never queued or polled again
    &&& forall|j: int, k: usize, v: T|
        0 <= j < i && #[trigger] ready_at(states, events, j, k, v) ==> retired(s, k)
}

/// What one scheduling decision does to the counts, the stored results and
/// the retired tasks.
proof fn lemma_advance_facts<F, T>(pre: OrderedState<F, T>, post: OrderedState<F, T>, r: Step<F, T>)
    requires
        pre.inv(),
        pre.in_flight is None,
        pre.advance(post, r),
    ensures
        post.inv(),
        post.ret_pos == pre.ret_pos + if r is Ready { 1int } else { 0int },
        held_count(post) + (if r is Ready { 1nat } else { 0nat }) == held_count(pre),
        pending_count(post) == pending_count(pre),
        r is Poll <==> post.in_flight is Some,
        r is Ready ==> pre.results.contains_key(pre.ret_pos) && r->Ready_0 == pre.results[pre.ret_pos],
        forall|k: usize| #[trigger]
            post.results.contains_key(k) ==> pre.results.contains_key(k) && post.results[k]
                == pre.results[k],
        forall|k: usize| #[trigger]
            pre.results.contains_key(k) && post.ret_pos <= k ==> post.results.contains_key(k)
                && post.results[k] == pre.results[k],
        forall|k: usize| retired(pre, k) ==> #[trigger] retired(post, k),
{
    lemma_advance_keeps_inv(pre, post, r);
    if !pre.queued().dom().is_empty() {
        let id = post.in_flight->0;
        assert(pre.queued().dom().finite());
        assert(pre.queued().remove(id).len() + 1 == pre.queued().len());
    } else if pre.results.contains_key(pre.ret_pos) {
        assert(pre.held().contains(pre.ret_pos));
        assert(pre.results.remove(pre.ret_pos).len() + 1 == pre.results.len());
    }
}

/// What one driver call does: it keeps the invariant, moves the position on
/// by one exactly when it yields, drops a task only when it yields it or its
/// channel is closed, yields only the value stored or just reported for the
/// next position, keeps stored results until they are yielded, and never
/// brings back a future that finished.
pub proof fn lemma_poll_step<F, T>(
    pre: OrderedState<F, T>,
    e: Option<Outcome<F, T>>,
    post: OrderedState<F, T>,
    r: Step<F, T>,
)
    requires
        pre.inv(),
        poll_step(pre, e, post, r),
    ensures
        post.inv(),
        post.ret_pos == pre.ret_pos + if r is Ready { 1int } else { 0int },
        held_count(post) + (if r is Ready { 1nat } else { 0nat }) + (if e == Some(
            Outcome::<F, T>::Closed,
        ) { 1nat } else { 0nat }) == held_count(pre),
        pending_count(post) <= pending_count(pre),
        r is Poll <==> post.in_flight is Some,
        r is Finished ==> e == Some(Outcome::<F, T>::Closed) || (e is None && pre.is_empty() && post
            == pre),
        r is Ready ==> (pre.results.contains_key(pre.ret_pos) && r->Ready_0
            == pre.results[pre.ret_pos]) || (e == Some(Outcome::<F, T>::Ready(r->Ready_0))
            && pre.in_flight == Some(pre.ret_pos)),
        forall|k: usize| #[trigger]
            post.results.contains_key(k) ==> (pre.results.contains_key(k) && post.results[k]
                == pre.results[k]) || (e == Some(Outcome::<F, T>::Ready(post.results[k]))
                && pre.in_flight == Some(k)),
        forall|k: usize| #[trigger]
            pre.results.contains_key(k) && post.ret_pos <= k ==> post.results.contains_key(k)
                && post.results[k] == pre.results[k],
        e is Some && e->0 is Ready && post.ret_pos <= pre.in_flight->0 ==> post.results.contains_key(
            pre.in_flight->0,
        ) && post.results[pre.in_flight->0] == e->0->Ready_0,
        forall|k: usize| retired(pre, k) ==> #[trigger] retired(post, k),
        e is Some && e->0 is Ready ==> retired(post, pre.in_flight->0),
{
    match e {
        None => {
            if !pre.is_empty() {
                let mid = pre.begin_round();
                lemma_begin_round_keeps_inv(pre);
                lemma_advance_facts(mid, post, r);
                assert forall|k: usize| retired(pre, k) implies #[trigger] retired(post, k) by {
                    assert(retired(mid, k));
                }
            }
        },
        Some(o) => {
            let id = pre.in_flight->0;
            let idle = OrderedState { in_flight: None, ..pre };
            assert(pre.held().contains(id));
            match o {
                Outcome::Ready(v) => {
                    let mid = OrderedState { results: pre.results.insert(id, v), ..idle };
                    lemma_report_ready_keeps_inv(pre, v);
                    lemma_advance_facts(mid, post, r);
                    assert(mid.results.len() == pre.results.len() + 1);
                    assert forall|k: usize| retired(pre, k) implies #[trigger] retired(post, k) by {
                        assert(retired(mid, k));
                    }
                    assert(retired(mid, id));
                },
                Outcome::Closed => {
                    lemma_report_closed_keeps_inv(pre);
                },
                Outcome::Pending(fut) => {
                    let mid = idle.with_parked(pre.parked().insert(id, fut));
                    lemma_report_pending_keeps_inv(pre, fut);
                    lemma_advance_facts(mid, post, r);
                    assert(pre.parked().insert(id, fut).len() == pre.parked().len() + 1);
                    assert forall|k: usize| retired(pre, k) implies #[trigger] retired(post, k) by {
                        assert(retired(mid, k));
                    }
                },
            }
        },
    }
}

proof fn lemma_counts_take<F, T>(steps: Seq<Step<F, T>>, events: Seq<Option<Outcome<F, T>>>, p: int)
    requires
        0 <= p < steps.len(),
        events.len() == steps.len(),
    ensures
        count_yields(steps.take(p + 1)) == count_yields(steps.take(p)) + if steps[p] is Ready {
            1nat
        } else {
            0nat
        },
        count_closed(events.take(p + 1)) == count_closed(events.take(p)) + if events[p] == Some(
            Outcome::<F, T>::Closed,
        ) {
            1nat
        } else {
            0nat
        },
{
    assert(steps.take(p + 1).drop_last() =~= steps.take(p));
    assert(events.take(p + 1).drop_last() =~= events.take(p));
}

/// The facts of a run after `i` calls, by induction on `i`.
proof fn lemma_run_facts_upto<F, T>(
    states: Seq<OrderedState<F, T>>,
    events: Seq<Option<Outcome<F, T>>>,
    steps: Seq<Step<F, T>>,
    i: int,
)
    requires
        is_run(states, events, steps),
        states[0].inv(),
        0 <= i <= steps.len(),
    ensures
        run_facts(states, events, steps, i),
    decreases i,
{
    if i == 0 {
        assert(steps.take(0) =~= Seq::<Step<F, T>>::empty());
        assert(events.take(0) =~= Seq::<Option<Outcome<F, T>>>::empty());
    } else {
        let p = i - 1;
        lemma_run_facts_upto(states, events, steps, p);
        let pre = states[p];
        let post = states[i];
        let e = events[p];
        let r = steps[p];
        let s0 = states[0];
        assert(poll_step(pre, e, post, r));
        lemma_poll_step(pre, e, post, r);
        lemma_counts_take(steps, events, p);
        // items yielded
        assert forall|m: int| 0 <= m < i && #[trigger] steps[m] is Ready implies reported_before(
            states,
            events,
            m + 1,
            states[m].ret_pos,
            steps[m]->Ready_0,
        ) || (s0.results.contains_key(states[m].ret_pos) && s0.results[states[m].ret_pos]
            == steps[m]->Ready_0) by {
            if m == p {
                let v = r->Ready_0;
                if pre.results.contains_key(pre.ret_pos) && v == pre.results[pre.ret_pos] {
                    if reported_before(states, events, p, pre.ret_pos, v) {
                        let j = choose|j: int| 0 <= j < p && #[trigger] ready_at(states, events, j, pre.ret_pos, v);
                        assert(ready_at(states, events, j, pre.ret_pos, v));
                    }
                } else {
                    assert(ready_at(states, events, p, pre.ret_pos, v));
                }
            }
        }
        // stored results come from reports
        assert forall|k: usize| #[trigger] post.results.contains_key(k) implies reported_before(
            states,
            events,
            i,
            k,
            post.results[k],
        ) || (s0.results.contains_key(k) && s0.results[k] == post.results[k]) by {
            let v = post.results[k];
            if pre.results.contains_key(k) && v == pre.results[k] {
                if reported_before(states, events, p, k, v) {
                    let j = choose|j: int| 0 <= j < p && #[trigger] ready_at(states, events, j, k, v);
                    assert(ready_at(states, events, j, k, v));
                }
            } else {
                assert(ready_at(states, events, p, k, v));
            }
        }
        // reported results are kept until yielded
        assert forall|j: int, k: usize, v: T|
            0 <= j < i && #[trigger] ready_at(states, events, j, k, v) && post.ret_pos <= k
                implies post.results.contains_key(k) && post.results[k] == v by {
            if j < p {
                assert(pre.results.contains_key(k));
            }
        }
        // finished futures stay retired
        assert forall|j: int, k: usize, v: T|
            0 <= j < i && #[trigger] ready_at(states, events, j, k, v) implies retired(post, k) by {
            if j < p {
                assert(retired(pre, k));
            }
        }
    }
}

/// The ordering law of the ordered stream, over any run of driver calls
/// from a state with the invariant. After each call `i`:
/// - the next position is the starting one plus the number of items yielded
///   so far, so the `j`-th item yielded is the one for position `start + j`;
/// - each item yielded is the value that was reported, at some earlier call,
///   for the task at the position it was yielded for (or the result already
///   stored for it at the start);
/// - the results stored are exactly those reported and not yet yielded;
/// - a future that finished is never queued or polled again;
/// - the held tasks plus the items yielded plus the tasks dropped on a closed
///   channel make the starting count, and no future is added.
///
/// For a stream made by `from_iter` (position 0, no stored result, task `k`
/// the `k`-th future), the `j`-th item yielded is therefore the value the
/// `j`-th future finished with, each position at most once and in order,
/// whatever order the futures finish in.
pub proof fn lemma_run_yields_in_order<F, T>(
    states: Seq<OrderedState<F, T>>,
    events: Seq<Option<Outcome<F, T>>>,
    steps: Seq<Step<F, T>>,
)
    requires
        is_run(states, events, steps),
        states[0].inv(),
    ensures
        forall|i: int| 0 <= i <= steps.len() ==> #[trigger] run_facts(states, events, steps, i),
{
    assert forall|i: int| 0 <= i <= steps.len() implies #[trigger] run_facts(states, events, steps, i) by {
        lemma_run_facts_upto(states, events, steps, i);
    }
}

/// The calls of one poll of the stream: a `poll_start` followed by the
/// reports that its `Poll` steps ask for, up to the first step that is not a
/// `Poll`.
pub open spec fn is_poll_call<F, T>(
    states: Seq<OrderedState<F, T>>,
    events: Seq<Option<Outcome<F, T>>>,
    steps: Seq<Step<F, T>>,
) -> bool {
    &&& is_run(states, events, steps)
    &&& steps.len() >= 1
    &&& states[0].in_flight is None
    &&& forall|m: int| 0 <= m < steps.len() - 1 ==> #[trigger] steps[m] is Poll
    &&& !(steps.last() is Poll)
}

/// One poll of the ordered stream ends with no future in flight. Unless a
/// channel was closed, it ends the stream exactly when the stream held
/// nothing, and then changes nothing. The pending futures and stored results
/// after the poll, plus the item yielded (if any) and the tasks dropped on a
/// closed channel, make the counts before it; and no pending future is added.
pub proof fn lemma_poll_call<F, T>(
    states: Seq<OrderedState<F, T>>,
    events: Seq<Option<Outcome<F, T>>>,
    steps: Seq<Step<F, T>>,
)
    requires
        is_poll_call(states, events, steps),
        states[0].inv(),
    ensures
        states.last().in_flight is None,
        (forall|m: int| 0 <= m < events.len() ==> #[trigger] events[m] != Some(Outcome::<F, T>::Closed))
            ==> (steps.last() is Finished <==> states[0].is_empty()),
        steps.last() is Finished && states[0].is_empty() ==> steps.len() == 1 && states[1]
            == states[0],
        states.last().first.len() + states.last().second.len() + states.last().results.len()
            + count_yields(steps) + count_closed(events) == states[0].first.len()
            + states[0].second.len() + states[0].results.len(),
        count_yields(steps) <= 1,
        states.last().first.len() + states.last().second.len() <= states[0].first.len()
            + states[0].second.len(),
{
    let n = steps.len() as int;
    lemma_run_yields_in_order(states, events, steps);
    assert(run_facts(states, events, steps, n));
    assert(steps.take(n) =~= steps);
    assert(events.take(n) =~= events);
    assert(poll_step(states[n - 1], events[n - 1], states[n], steps[n - 1]));
    assert(run_facts(states, events, steps, n - 1));
    lemma_poll_step(states[n - 1], events[n - 1], states[n], steps[n - 1]);
    // every call after the first reports on a future in flight
    assert forall|m: int| 1 <= m < n implies #[trigger] states[m].in_flight is Some by {
        assert(run_facts(states, events, steps, m - 1));
        assert(poll_step(states[m - 1], events[m - 1], states[m], steps[m - 1]));
        lemma_poll_step(states[m - 1], events[m - 1], states[m], steps[m - 1]);
        assert(steps[m - 1] is Poll);
    }
    // no call before the last yields
    assert forall|m: int| 0 <= m <= n - 1 implies count_yields(#[trigger] steps.take(m)) == 0 by {
        lemma_no_yield_prefix(steps, m);
    }
    lemma_counts_take(steps, events, n - 1);
    assert(poll_step(states[0], events[0], states[1], steps[0]));
    lemma_poll_step(states[0], events[0], states[1], steps[0]);
    if steps.last() is Finished && n > 1 {
        assert(states[n - 1].in_flight is Some);
    }
    if n > 1 {
        assert(steps[0] is Poll);
    }
}

proof fn lemma_no_yield_prefix<F, T>(steps: Seq<Step<F, T>>, m: int)
    requires
        0 <= m < steps.len(),
        forall|k: int| 0 <= k < steps.len() - 1 ==> #[trigger] steps[k] is Poll,
    ensures
        count_yields(steps.take(m)) == 0,
    decreases m,
{
    if m > 0 {
        lemma_no_yield_prefix(steps, m - 1);
        assert(steps.take(m).drop_last() =~= steps.take(m - 1));
        assert(steps[m - 1] is Poll);
    }
}

/// What holds after the `i`-th call of a poll whose round drains `q`: the
/// call handed out the task `id` of `q`, and the tasks still queued are
/// exactly those of `q` with a larger id.
pub open spec fn round_after<F, T>(
    q: Map<usize, F>,
    s: OrderedState<F, T>,
    step: Step<F, T>,
) -> bool {
    let id = s.in_flight->0;
    &&& s.in_flight is Some
    &&& q.contains_key(id)
    &&& step == Step::<F, T>::Poll(q[id])
    &&& forall|k: usize| #[trigger] s.queued().contains_key(k) ==> q.contains_key(k) && s.queued()[k] == q[k]
    &&& forall|k: usize| #[trigger] q.contains_key(k) ==> (s.queued().contains_key(k) <==> id < k)
}

/// Task `b`'s in-flight id is the smallest id of `q` above `a`'s.
pub open spec fn next_in_round<F, T>(q: Map<usize, F>, a: OrderedState<F, T>, b: OrderedState<F, T>) -> bool {
    &&& a.in_flight->0 < b.in_flight->0
    &&& forall|k: usize| #[trigger] q.contains_key(k) && a.in_flight->0 < k ==> b.in_flight->0 <= k
}

proof fn lemma_ordered_round_prefix<F, T>(
    states: Seq<OrderedState<F, T>>,
    events: Seq<Option<Outcome<F, T>>>,
    steps: Seq<Step<F, T>>,
    i: int,
)
    requires
        is_poll_call(states, events, steps),
        states[0].inv(),
        !states[0].is_empty(),
        1 <= i <= steps.len() - 1,
    ensures
        round_after(states[0].begin_round().queued(), states[i], steps[i - 1]),
        states[i].cond == states[0].begin_round().cond,
        i == 1 ==> is_min_key(states[0].begin_round().queued(), states[1].in_flight->0),
        i > 1 ==> states[i - 1].in_flight->0 < states[i].in_flight->0,
        i > 1 ==> forall|k: usize|
            #[trigger] states[0].begin_round().queued().contains_key(k) && states[i - 1].in_flight->0 < k
                ==> states[i].in_flight->0 <= k,
    decreases i,
{
    let b = states[0].begin_round();
    let q = b.queued();
    lemma_run_yields_in_order(states, events, steps);
    if i == 1 {
        assert(poll_step(states[0], events[0], states[1], steps[0]));
        assert(steps[0] is Poll);
        let id = states[1].in_flight->0;
        assert forall|k: usize| #[trigger] q.contains_key(k) implies (states[1].queued().contains_key(k)
            <==> id < k) by {
            if k == id {
            } else if q.contains_key(k) {
                assert(id <= k);
            }
        }
    } else {
        let p = i - 1;
        lemma_ordered_round_prefix(states, events, steps, p);
        assert(run_facts(states, events, steps, p));
        assert(poll_step(states[p], events[p], states[i], steps[p]));
        assert(steps[p] is Poll);
        let pre = states[p];
        let prev = pre.in_flight->0;
        let idle = OrderedState { in_flight: None, ..pre };
        let o = events[p]->0;
        let mid = match o {
            Outcome::Ready(v) => OrderedState { results: pre.results.insert(prev, v), ..idle },
            Outcome::Closed => idle,
            Outcome::Pending(fut) => idle.with_parked(pre.parked().insert(prev, fut)),
        };
        assert(!(o is Closed));
        assert(mid.queued() == pre.queued());
        assert(mid.cond == pre.cond);
        assert(mid.advance(states[i], steps[p]));
        let id = states[i].in_flight->0;
        assert(is_min_key(pre.queued(), id));
        assert forall|k: usize| #[trigger] states[i].queued().contains_key(k) implies q.contains_key(k)
            && states[i].queued()[k] == q[k] by {
            assert(pre.queued().contains_key(k));
        }
        assert forall|k: usize| #[trigger] q.contains_key(k) implies (states[i].queued().contains_key(k)
            <==> id < k) by {
            if pre.queued().contains_key(k) {
                assert(id <= k);
            }
        }
        assert(prev < id);
        assert forall|k: usize| #[trigger] q.contains_key(k) && prev < k implies id <= k by {
            assert(pre.queued().contains_key(k));
        }
    }
}

/// One poll of the ordered stream drains one queue: the first side, unless
/// it is empty, else the second. It hands out the tasks of that queue one
/// at a time in increasing id order, the first being the smallest, each
/// next one the smallest above the one before, so each at most once and
/// none skipped; nothing else is handed out (a future handed back pending is
/// parked, not polled again in the same poll), and the poll ends pending
/// only once that queue is exhausted.
pub proof fn lemma_poll_call_polls_round_in_order<F, T>(
    states: Seq<OrderedState<F, T>>,
    events: Seq<Option<Outcome<F, T>>>,
    steps: Seq<Step<F, T>>,
)
    requires
        is_poll_call(states, events, steps),
        states[0].inv(),
        !states[0].is_empty(),
    ensures
        ({
            let q = if !states[0].first.dom().is_empty() {
                states[0].first
            } else {
                states[0].second
            };
            &&& forall|m: int| 0 <= m < steps.len() - 1 ==> #[trigger] round_after(q, states[m + 1], steps[m])
            &&& steps.len() > 1 ==> is_min_key(q, states[1].in_flight->0)
            &&& forall|m: int|
                1 <= m < steps.len() - 1 ==> #[trigger] next_in_round(q, states[m], states[m + 1])
            &&& steps.last() is Pending ==> forall|k: usize| !#[trigger] states.last().queued().contains_key(k)
            &&& steps.last() is Pending && steps.len() == 1 ==> q.dom().is_empty()
        }),
{
    let n = steps.len() as int;
    let q = states[0].begin_round().queued();
    assert(q == if !states[0].first.dom().is_empty() {
        states[0].first
    } else {
        states[0].second
    });
    assert forall|m: int| 0 <= m < n - 1 implies #[trigger] round_after(q, states[m + 1], steps[m]) by {
        lemma_ordered_round_prefix(states, events, steps, m + 1);
    }
    if n > 1 {
        lemma_ordered_round_prefix(states, events, steps, 1);
    }
    assert forall|m: int| 1 <= m < n - 1 implies #[trigger] next_in_round(q, states[m], states[m + 1]) by {
        lemma_ordered_round_prefix(states, events, steps, m + 1);
    }
    lemma_run_yields_in_order(states, events, steps);
    assert(poll_step(states[n - 1], events[n - 1], states[n], steps[n - 1]));
    if steps.last() is Pending {
        if n == 1 {
            assert(q.dom().is_empty());
        } else {
            assert(run_facts(states, events, steps, n - 1));
            lemma_poll_call(states, events, steps);
            let pre = states[n - 1];
            let prev = pre.in_flight->0;
            let idle = OrderedState { in_flight: None, ..pre };
            let o = events[n - 1]->0;
            let mid = match o {
                Outcome::Ready(v) => OrderedState { results: pre.results.insert(prev, v), ..idle },
                Outcome::Closed => idle,
                Outcome::Pending(fut) => idle.with_parked(pre.parked().insert(prev, fut)),
            };
            assert(mid.queued() == pre.queued());
            assert(mid.advance(states[n], steps[n - 1]));
        }
    }
}

} // verus!
