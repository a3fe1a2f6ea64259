use vstd::prelude::*;

use vstd::multiset::Multiset;

use super::UnorderedState;
use crate::poll::{Outcome, Step};

verus! {

/// The futures a state holds, in either stack (the one in flight aside).
pub open spec fn pending<F>(s: UnorderedState<F>) -> Multiset<F> {
    s.first.to_multiset().add(s.second.to_multiset())
}

/// A decision hands out one queued future or none, and keeps every other
/// pending future; the count of held futures does not change.
pub proof fn lemma_unordered_advance_conserves<F, T>(
    pre: UnorderedState<F>,
    post: UnorderedState<F>,
    r: Step<F, T>,
)
    requires
        !pre.in_flight,
        pre.advance(post, r),
    ensures
        r is Poll ==> pending(pre) == pending(post).insert(r->Poll_0) && post.in_flight,
        !(r is Poll) ==> pending(pre) == pending(post) && r is Pending && !post.in_flight,
        post.count() == pre.count(),
{
    broadcast use vstd::seq_lib::group_to_multiset_ensures;

    if pre.queued().len() > 0 {
        let q = pre.queued();
        assert(q =~= q.drop_last().push(q.last()));
        assert(q.to_multiset() =~= q.drop_last().to_multiset().insert(q.last()));
        assert(pending(pre) =~= pending(post).insert(r->Poll_0));
    }
}

/// Reporting retires the in-flight future when it finished (its result is
/// yielded at once) or when its channel was closed (the stream ends), and
/// parks it again when it is still pending.
pub proof fn lemma_unordered_report<F, T>(
    pre: UnorderedState<F>,
    outcome: Outcome<F, T>,
    post: UnorderedState<F>,
    r: Step<F, T>,
)
    requires
        pre.in_flight,
        pre.report(outcome, post, r),
    ensures
        outcome is Ready ==> r == Step::<F, T>::Ready(outcome->Ready_0) && pending(post) == pending(pre)
            && post.count() + 1 == pre.count(),
        outcome is Closed ==> r is Finished && pending(post) == pending(pre) && post.count() + 1
            == pre.count(),
        outcome is Pending ==> post.count() == pre.count() && (r is Poll ==> pending(pre).insert(
            outcome->Pending_0,
        ) == pending(post).insert(r->Poll_0)) && (!(r is Poll) ==> pending(pre).insert(
            outcome->Pending_0,
        ) == pending(post)),
{
    broadcast use vstd::seq_lib::group_to_multiset_ensures;

    match outcome {
        Outcome::Pending(fut) => {
            let mid = (UnorderedState { in_flight: false, ..pre }).with_parked(pre.parked().push(fut));
            assert(pending(mid) =~= pending(pre).insert(fut));
            lemma_unordered_advance_conserves(mid, post, r);
        },
        _ => {},
    }
}

/// One driver call of an unordered stream: `poll_start` (no event) when no
/// future is in flight, `poll_report` with the outcome `event` when one is.
pub open spec fn unordered_poll_step<F, T>(
    pre: UnorderedState<F>,
    event: Option<Outcome<F, T>>,
    post: UnorderedState<F>,
    r: Step<F, T>,
) -> bool {
    match event {
        None => !pre.in_flight && if pre.len() == 0 {
            r == Step::<F, T>::Finished && post == pre
        } else {
            pre.begin_round().advance(post, r)
        },
        Some(o) => pre.in_flight && pre.report(o, post, r),
    }
}

/// `states[i + 1]` follows from `states[i]` by one driver call that was given
/// `events[i]` and answered `steps[i]`.
pub open spec fn is_unordered_run<F, T>(
    states: Seq<UnorderedState<F>>,
    events: Seq<Option<Outcome<F, T>>>,
    steps: Seq<Step<F, T>>,
) -> bool {
    &&& states.len() == steps.len() + 1
    &&& events.len() == steps.len()
    &&& forall|i: int|
        0 <= i < steps.len() ==> unordered_poll_step(
            states[i],
            events[i],
            states[i + 1],
            #[trigger] steps[i],
        )
}

/// How many of `steps` yield an item.
pub open spec fn count_ready<F, T>(steps: Seq<Step<F, T>>) -> nat
    decreases steps.len(),
{
    if steps.len() == 0 {
        0
    } else {
        count_ready(steps.drop_last()) + if steps.last() is Ready { 1nat } else { 0nat }
    }
}

/// The items that `steps` yield, in order.
pub open spec fn yielded<F, T>(steps: Seq<Step<F, T>>) -> Seq<T>
    decreases steps.len(),
{
    if steps.len() == 0 {
        Seq::empty()
    } else if steps.last() is Ready {
        yielded(steps.drop_last()).push(steps.last()->Ready_0)
    } else {
        yielded(steps.drop_last())
    }
}

/// The values that `events` report futures finished with, in order.
pub open spec fn ready_values<F, T>(events: Seq<Option<Outcome<F, T>>>) -> Seq<T>
    decreases events.len(),
{
    if events.len() == 0 {
        Seq::empty()
    } else if events.last() is Some && events.last()->0 is Ready {
        ready_values(events.drop_last()).push(events.last()->0->Ready_0)
    } else {
        ready_values(events.drop_last())
    }
}

/// How many of `events` report a closed channel.
pub open spec fn count_closed_events<F, T>(events: Seq<Option<Outcome<F, T>>>) -> nat
    decreases events.len(),
{
    if events.len() == 0 {
        0
    } else {
        count_closed_events(events.drop_last()) + if events.last() == Some(
            Outcome::<F, T>::Closed,
        ) {
            1nat
        } else {
            0nat
        }
    }
}

/// What one driver call does: it yields an item exactly when it is given the
/// value a future finished with, and then yields that value; it retires a
/// future exactly when it yields or its channel is closed; it ends the stream
/// only on a closed channel or when nothing is pending; and the futures it
/// keeps are those it had, less the one it hands out, plus the one handed
/// back pending.
pub proof fn lemma_unordered_poll_step<F, T>(
    pre: UnorderedState<F>,
    e: Option<Outcome<F, T>>,
    post: UnorderedState<F>,
    r: Step<F, T>,
)
    requires
        unordered_poll_step(pre, e, post, r),
    ensures
        r is Ready <==> (e is Some && e->0 is Ready),
        r is Ready ==> e == Some(Outcome::<F, T>::Ready(r->Ready_0)),
        r is Poll <==> post.in_flight,
        r is Finished ==> e == Some(Outcome::<F, T>::Closed) || (e is None && pre.len() == 0 && post
            == pre),
        post.count() + (if r is Ready { 1nat } else { 0nat }) + (if e == Some(
            Outcome::<F, T>::Closed,
        ) { 1nat } else { 0nat }) == pre.count(),
        (if r is Poll { pending(post).insert(r->Poll_0) } else { pending(post) }) == (if e is Some
            && e->0 is Pending { pending(pre).insert(e->0->Pending_0) } else { pending(pre) }),
{
    match e {
        None => {
            if pre.len() != 0 {
                let mid = pre.begin_round();
                assert(pending(mid) == pending(pre));
                lemma_unordered_advance_conserves(mid, post, r);
            }
        },
        Some(o) => {
            lemma_unordered_report(pre, o, post, r);
        },
    }
}

proof fn lemma_unordered_take<F, T>(
    steps: Seq<Step<F, T>>,
    events: Seq<Option<Outcome<F, T>>>,
    p: int,
)
    requires
        0 <= p < steps.len(),
        events.len() == steps.len(),
    ensures
        count_ready(steps.take(p + 1)) == count_ready(steps.take(p)) + if steps[p] is Ready {
            1nat
        } else {
            0nat
        },
        count_closed_events(events.take(p + 1)) == count_closed_events(events.take(p)) + if events[p]
            == Some(Outcome::<F, T>::Closed) {
            1nat
        } else {
            0nat
        },
        yielded(steps.take(p + 1)) == if steps[p] is Ready {
            yielded(steps.take(p)).push(steps[p]->Ready_0)
        } else {
            yielded(steps.take(p))
        },
        ready_values(events.take(p + 1)) == if events[p] is Some && events[p]->0 is Ready {
            ready_values(events.take(p)).push(events[p]->0->Ready_0)
        } else {
            ready_values(events.take(p))
        },
{
    assert(steps.take(p + 1).drop_last() =~= steps.take(p));
    assert(events.take(p + 1).drop_last() =~= events.take(p));
}

/// What holds of an unordered run after its first `i` calls.
pub open spec fn unordered_run_facts<F, T>(
    states: Seq<UnorderedState<F>>,
    events: Seq<Option<Outcome<F, T>>>,
    steps: Seq<Step<F, T>>,
    i: int,
) -> bool {
    // the items yielded are exactly the values the futures were reported to
    // finish with, in the order they were reported
    &&& yielded(steps.take(i)) == ready_values(events.take(i))
    // every future held at the start is still held, was yielded, or was
    // dropped on a closed channel
    &&& states[i].count() + count_ready(steps.take(i)) + count_closed_events(events.take(i))
        == states[0].count()
}

proof fn lemma_unordered_run_facts_upto<F, T>(
    states: Seq<UnorderedState<F>>,
    events: Seq<Option<Outcome<F, T>>>,
    steps: Seq<Step<F, T>>,
    i: int,
)
    requires
        is_unordered_run(states, events, steps),
        0 <= i <= steps.len(),
    ensures
        unordered_run_facts(states, events, steps, i),
    decreases i,
{
    if i == 0 {
        assert(steps.take(0) =~= Seq::<Step<F, T>>::empty());
        assert(events.take(0) =~= Seq::<Option<Outcome<F, T>>>::empty());
    } else {
        let p = i - 1;
        lemma_unordered_run_facts_upto(states, events, steps, p);
        assert(unordered_poll_step(states[p], events[p], states[i], steps[p]));
        lemma_unordered_poll_step(states[p], events[p], states[i], steps[p]);
        lemma_unordered_take(steps, events, p);
    }
}

/// The law of the unordered stream, over any run of driver calls: after
/// each call, the items yielded so far are exactly the values the futures
/// were reported to finish with, each once and in that order, and nothing
/// else; and the futures held plus the items yielded plus the futures
/// dropped on a closed channel make the starting count. So a stream given
/// `n` futures that all finish yields a permutation of their `n` values.
pub proof fn lemma_unordered_run_accounts_for_every_future<F, T>(
    states: Seq<UnorderedState<F>>,
    events: Seq<Option<Outcome<F, T>>>,
    steps: Seq<Step<F, T>>,
)
    requires
        is_unordered_run(states, events, steps),
    ensures
        forall|i: int|
            0 <= i <= steps.len() ==> #[trigger] unordered_run_facts(states, events, steps, i),
{
    assert forall|i: int| 0 <= i <= steps.len() implies #[trigger] unordered_run_facts(
        states,
        events,
        steps,
        i,
    ) by {
        lemma_unordered_run_facts_upto(states, events, steps, i);
    }
}

/// The calls of one poll of the stream: a `poll_start` followed by the
/// reports that its `Poll` steps ask for, up to the first step that is not a
/// `Poll`.
pub open spec fn is_unordered_poll_call<F, T>(
    states: Seq<UnorderedState<F>>,
    events: Seq<Option<Outcome<F, T>>>,
    steps: Seq<Step<F, T>>,
) -> bool {
    &&& is_unordered_run(states, events, steps)
    &&& steps.len() >= 1
    &&& !states[0].in_flight
    &&& forall|m: int| 0 <= m < steps.len() - 1 ==> #[trigger] steps[m] is Poll
    &&& !(steps.last() is Poll)
}

proof fn lemma_unordered_no_yield_prefix<F, T>(steps: Seq<Step<F, T>>, m: int)
    requires
        0 <= m < steps.len(),
        forall|k: int| 0 <= k < steps.len() - 1 ==> #[trigger] steps[k] is Poll,
    ensures
        count_ready(steps.take(m)) == 0,
    decreases m,
{
    if m > 0 {
        lemma_unordered_no_yield_prefix(steps, m - 1);
        assert(steps.take(m).drop_last() =~= steps.take(m - 1));
        assert(steps[m - 1] is Poll);
    }
}

/// One poll of the unordered stream ends with no future in flight and
/// yields at most one item. Unless a channel was closed, it ends the stream
/// exactly when no future was pending, and then changes nothing; it yields
/// an item exactly when the pending count drops by one, and otherwise
/// leaves that count as it was.
pub proof fn lemma_unordered_poll_call<F, T>(
    states: Seq<UnorderedState<F>>,
    events: Seq<Option<Outcome<F, T>>>,
    steps: Seq<Step<F, T>>,
)
    requires
        is_unordered_poll_call(states, events, steps),
    ensures
        !states.last().in_flight,
        count_ready(steps) <= 1,
        states.last().len() + count_ready(steps) + count_closed_events(events) == states[0].len(),
        steps.last() is Ready ==> count_ready(steps) == 1,
        !(steps.last() is Ready) ==> count_ready(steps) == 0,
        (forall|m: int| 0 <= m < events.len() ==> #[trigger] events[m] != Some(Outcome::<F, T>::Closed))
            ==> (steps.last() is Finished <==> states[0].len() == 0),
        steps.last() is Finished && states[0].len() == 0 ==> steps.len() == 1 && states[1]
            == states[0],
{
    let n = steps.len() as int;
    lemma_unordered_run_accounts_for_every_future(states, events, steps);
    assert(unordered_run_facts(states, events, steps, n));
    assert(steps.take(n) =~= steps);
    assert(events.take(n) =~= events);
    assert(unordered_poll_step(states[n - 1], events[n - 1], states[n], steps[n - 1]));
    lemma_unordered_poll_step(states[n - 1], events[n - 1], states[n], steps[n - 1]);
    assert forall|m: int| 1 <= m < n implies #[trigger] states[m].in_flight by {
        assert(unordered_poll_step(states[m - 1], events[m - 1], states[m], steps[m - 1]));
        lemma_unordered_poll_step(states[m - 1], events[m - 1], states[m], steps[m - 1]);
        assert(steps[m - 1] is Poll);
    }
    lemma_unordered_no_yield_prefix(steps, n - 1);
    lemma_unordered_take(steps, events, n - 1);
    assert(unordered_poll_step(states[0], events[0], states[1], steps[0]));
    lemma_unordered_poll_step(states[0], events[0], states[1], steps[0]);
    if steps.last() is Finished && n > 1 {
        assert(states[n - 1].in_flight);
    }
    if n > 1 {
        assert(steps[0] is Poll);
    }
}

/// The futures still queued after `i` calls of a poll whose round started
/// with queue `q` and condition `c`.
proof fn lemma_round_prefix<F, T>(
    states: Seq<UnorderedState<F>>,
    events: Seq<Option<Outcome<F, T>>>,
    steps: Seq<Step<F, T>>,
    i: int,
)
    requires
        is_unordered_poll_call(states, events, steps),
        states[0].len() != 0,
        1 <= i <= steps.len() - 1,
    ensures
        ({
            let q = states[0].begin_round().queued();
            &&& i <= q.len()
            &&& states[i].in_flight
            &&& states[i].cond == states[0].begin_round().cond
            &&& states[i].queued() == q.subrange(0, q.len() - i)
            &&& steps[i - 1] == Step::<F, T>::Poll(q[q.len() - i])
        }),
    decreases i,
{
    let b = states[0].begin_round();
    let q = b.queued();
    if i == 1 {
        assert(unordered_poll_step(states[0], events[0], states[1], steps[0]));
        assert(steps[0] is Poll);
        assert(q.drop_last() =~= q.subrange(0, q.len() - 1));
    } else {
        let p = i - 1;
        lemma_round_prefix(states, events, steps, p);
        assert(unordered_poll_step(states[p], events[p], states[i], steps[p]));
        assert(steps[p] is Poll);
        let pre = states[p];
        let o = events[p]->0;
        match o {
            Outcome::Pending(fut) => {
                let mid = (UnorderedState { in_flight: false, ..pre }).with_parked(
                    pre.parked().push(fut),
                );
                assert(mid.queued() == pre.queued());
                assert(mid.queued().drop_last() =~= q.subrange(0, q.len() - i));
            },
            _ => {},
        }
    }
}

/// One poll of the unordered stream drains one stack: the first, unless it
/// is empty, else the second. It polls each future of that stack at most
/// once, from the last to the first, and nothing else: a future handed back
/// pending is parked and not polled again in the same poll. The poll ends
/// pending only once the whole stack has been polled.
pub proof fn lemma_unordered_poll_call_polls_round_once<F, T>(
    states: Seq<UnorderedState<F>>,
    events: Seq<Option<Outcome<F, T>>>,
    steps: Seq<Step<F, T>>,
)
    requires
        is_unordered_poll_call(states, events, steps),
        states[0].len() != 0,
    ensures
        ({
            let q = if states[0].first.len() != 0 {
                states[0].first
            } else {
                states[0].second
            };
            &&& steps.len() - 1 <= q.len()
            &&& forall|m: int|
                0 <= m < steps.len() - 1 ==> #[trigger] steps[m] == Step::<F, T>::Poll(
                    q[q.len() - 1 - m],
                )
            &&& steps.last() is Pending ==> steps.len() - 1 == q.len()
        }),
{
    let n = steps.len() as int;
    let q = states[0].begin_round().queued();
    assert(q == if states[0].first.len() != 0 {
        states[0].first
    } else {
        states[0].second
    });
    assert forall|m: int| 0 <= m < n - 1 implies #[trigger] steps[m] == Step::<F, T>::Poll(
        q[q.len() - 1 - m],
    ) by {
        lemma_round_prefix(states, events, steps, m + 1);
    }
    assert(unordered_poll_step(states[n - 1], events[n - 1], states[n], steps[n - 1]));
    if n == 1 {
        assert(q.len() > 0);
    } else {
        lemma_round_prefix(states, events, steps, n - 1);
        let pre = states[n - 1];
        if steps.last() is Pending {
            let o = events[n - 1]->0;
            match o {
                Outcome::Pending(fut) => {
                    let mid = (UnorderedState { in_flight: false, ..pre }).with_parked(
                        pre.parked().push(fut),
                    );
                    assert(mid.queued() == pre.queued());
                },
                _ => {},
            }
        }
    }
}

} // verus!
