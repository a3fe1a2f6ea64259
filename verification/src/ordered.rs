mod laws;
mod queue;
mod stream;
mod task;

pub use laws::{
    lemma_advance_conserves_tasks, lemma_advance_keeps_inv, lemma_begin_round_keeps_inv,
    lemma_report_closed_keeps_inv, lemma_report_conserves_tasks, lemma_report_pending_keeps_inv,
    lemma_report_ready_keeps_inv, lemma_round_polls_in_id_order, lemma_yield_is_next_position,
    count_closed, count_yields, held_count, is_run, lemma_poll_step, pending_count, poll_step,
    ready_at, reported_before, retired, run_facts, lemma_run_yields_in_order, is_poll_call,
    lemma_poll_call, lemma_poll_call_polls_round_in_order, next_in_round, round_after,
};
pub use queue::is_min_key;
pub use task::{lemma_task_eq, lemma_task_partial_cmp, Task};

use vstd::prelude::*;

use crate::cond_pair::CondPair;
use crate::poll::{valid_limit, Step, Outcome};
use queue::TaskQueue;

verus! {

/// The map that sends each position `k` of `s` to `s[k]`.
pub open spec fn indexed<X>(s: Seq<X>) -> Map<usize, X> {
    Map::new(|k: usize| (k as int) < s.len(), |k: usize| s[k as int])
}

/// The abstract state of an ordered task stream.
///
/// Pending futures sit in two maps from task id to future: while `cond`
/// holds, `second` is the queue being drained this round and `first`
/// collects the futures that stay pending; otherwise the roles are swapped.
/// `results` holds finished items by task id, `ret_pos` is the id of the
/// next item to yield, and `in_flight` the id of the future being polled.
#[verifier::ext_equal]
pub struct OrderedState<F, T> {
    pub first: Map<usize, F>,
    pub second: Map<usize, F>,
    pub cond: bool,
    pub results: Map<usize, T>,
    pub ret_pos: usize,
    pub in_flight: Option<usize>,
    pub limit: usize,
}

impl<F, T> OrderedState<F, T> {
    /// The futures still to be polled in this round.
    pub open spec fn queued(self) -> Map<usize, F> {
        if self.cond {
            self.second
        } else {
            self.first
        }
    }

    /// The futures that stayed pending in this round.
    pub open spec fn parked(self) -> Map<usize, F> {
        if self.cond {
            self.first
        } else {
            self.second
        }
    }

    pub open spec fn with_queued(self, m: Map<usize, F>) -> Self {
        if self.cond {
            Self { second: m, ..self }
        } else {
            Self { first: m, ..self }
        }
    }

    pub open spec fn with_parked(self, m: Map<usize, F>) -> Self {
        if self.cond {
            Self { first: m, ..self }
        } else {
            Self { second: m, ..self }
        }
    }

    /// No pending future and no buffered result.
    pub open spec fn is_empty(self) -> bool {
        &&& self.first.dom().is_empty()
        &&& self.second.dom().is_empty()
        &&& self.results.dom().is_empty()
    }

    /// The ids of every task the stream still holds.
    pub open spec fn held(self) -> Set<usize> {
        let ids = self.first.dom() + self.second.dom() + self.results.dom();
        match self.in_flight {
            Some(id) => ids.insert(id),
            None => ids,
        }
    }

    /// The state invariant: ids are held at most once, none lies below the
    /// next position to yield, and the counts fit in a `usize`.
    pub open spec fn inv(self) -> bool {
        &&& self.first.dom().finite()
        &&& self.second.dom().finite()
        &&& self.results.dom().finite()
        &&& forall|k: usize| !(#[trigger] self.first.contains_key(k) && self.second.contains_key(k))
        &&& forall|k: usize| !(#[trigger] self.first.contains_key(k) && self.results.contains_key(k))
        &&& forall|k: usize| !(#[trigger] self.second.contains_key(k) && self.results.contains_key(k))
        &&& forall|k: usize| #[trigger] self.held().contains(k) ==> self.ret_pos <= k < usize::MAX
        &&& match self.in_flight {
            Some(id) => {
                &&& !self.first.contains_key(id)
                &&& !self.second.contains_key(id)
                &&& !self.results.contains_key(id)
            },
            None => true,
        }
        &&& self.first.len() + self.second.len() + (if self.in_flight is Some { 1int } else { 0int })
            <= usize::MAX
    }

    /// The start of a round: the condition becomes "`first` is empty".
    pub open spec fn begin_round(self) -> Self {
        Self { cond: self.first.dom().is_empty(), ..self }
    }

    /// One scheduling decision, taken with no future in flight: poll the
    /// queued future with the smallest id; when none is queued, yield the
    /// result for position `ret_pos` if it is there, or else wait.
    pub open spec fn advance(self, post: Self, r: Step<F, T>) -> bool {
        if !self.queued().dom().is_empty() {
            match post.in_flight {
                Some(id) => {
                    &&& is_min_key(self.queued(), id)
                    &&& r == Step::<F, T>::Poll(self.queued()[id])
                    &&& post == Self {
                        in_flight: Some(id),
                        ..self.with_queued(self.queued().remove(id))
                    }
                },
                None => false,
            }
        } else if self.results.contains_key(self.ret_pos) {
            &&& r == Step::<F, T>::Ready(self.results[self.ret_pos])
            &&& post == Self {
                results: self.results.remove(self.ret_pos),
                ret_pos: (self.ret_pos + 1) as usize,
                in_flight: None,
                ..self
            }
        } else {
            &&& r == Step::<F, T>::Pending
            &&& post == Self { in_flight: None, ..self }
        }
    }

    /// What reporting the outcome of the in-flight future does: a result is
    /// stored under its id, a pending future is parked under its id, and a
    /// closed channel ends the stream; then, but for the last, the next
    /// decision is taken.
    pub open spec fn report(self, outcome: Outcome<F, T>, post: Self, r: Step<F, T>) -> bool {
        let id = self.in_flight->0;
        let idle = Self { in_flight: None, ..self };
        match outcome {
            Outcome::Ready(v) => Self { results: self.results.insert(id, v), ..idle }.advance(
                post,
                r,
            ),
            Outcome::Closed => r == Step::<F, T>::Finished && post == idle,
            Outcome::Pending(fut) => idle.with_parked(self.parked().insert(id, fut)).advance(
                post,
                r,
            ),
        }
    }
}

/// The state of a stream of futures that yields their results in the order
/// in which the futures were given, whatever order they finish in.
pub struct OrderedTask<T, F> {
    futs: CondPair<TaskQueue<F>>,
    rets: TaskQueue<T>,
    ret_pos: usize,
    in_flight: Option<usize>,
    limit: usize,
}

impl<T, F> View for OrderedTask<T, F> {
    type V = OrderedState<F, T>;

    closed spec fn view(&self) -> OrderedState<F, T> {
        OrderedState {
            first: self.futs.first()@,
            second: self.futs.second()@,
            cond: self.futs.cond(),
            results: self.rets@,
            ret_pos: self.ret_pos,
            in_flight: self.in_flight,
            limit: self.limit,
        }
    }
}

impl<T, F> OrderedTask<T, F> {
    /// The queues are well formed and the abstract state keeps its invariant.
    pub closed spec fn wf(&self) -> bool {
        &&& self.futs.first().wf()
        &&& self.futs.second().wf()
        &&& self.rets.wf()
        &&& self@.inv()
    }

    /// A well-formed stream's abstract state keeps the invariant (which is
    /// what the laws over `OrderedState` require).
    pub proof fn lemma_wf_inv(&self)
        requires
            self.wf(),
        ensures
            self@.inv(),
    {
    }

    /// An empty stream whose permit channel will hold `limit` permits.
    pub fn new(limit: usize) -> (r: Self)
        requires
            valid_limit(limit),
        ensures
            r.wf(),
            r@ == (OrderedState::<F, T> {
                first: Map::empty(),
                second: Map::empty(),
                cond: true,
                results: Map::empty(),
                ret_pos: 0,
                in_flight: None,
                limit,
            }),
    {
        let r = Self {
            futs: CondPair::new(TaskQueue::new(), TaskQueue::new()),
            rets: TaskQueue::new(),
            ret_pos: 0,
            in_flight: None,
            limit,
        };
        proof {
            r.rets.lemma_finite();
            assert(r@.held() =~= Set::empty());
        }
        r
    }

    /// A stream over `futs`: the future at position `i` becomes task `i`,
    /// queued to be polled. (The futures are moved into the queue from the
    /// last one down; the queue hands tasks out by id, so that order does
    /// not show.)
    pub fn from_iter(futs: Vec<F>, limit: usize) -> (r: Self)
        requires
            valid_limit(limit),
        ensures
            r.wf(),
            r@ == (OrderedState::<F, T> {
                first: Map::empty(),
                second: indexed(futs@),
                cond: true,
                results: Map::empty(),
                ret_pos: 0,
                in_flight: None,
                limit,
            }),
    {
        let ghost orig = futs@;
        let n = futs.len();
        let mut futs = futs;
        let mut queue: TaskQueue<F> = TaskQueue::new();
        proof {
            assert(futs@ =~= orig.take(futs@.len() as int));
            assert(queue@ =~= Map::new(
                |k: usize| futs@.len() <= k && (k as int) < orig.len(),
                |k: usize| orig[k as int],
            ));
        }
        while futs.len() > 0
            invariant
                queue.wf(),
                n == orig.len(),
                futs@.len() <= orig.len(),
                futs@ == orig.take(futs@.len() as int),
                queue@ == Map::new(
                    |k: usize| futs@.len() <= k && (k as int) < orig.len(),
                    |k: usize| orig[k as int],
                ),
            decreases futs@.len(),
        {
            let id = futs.len() - 1;
            let ghost before = queue@;
            match futs.pop() {
                Some(fut) => {
                    assert(fut == orig[id as int]);
                    assert(!before.contains_key(id));
                    queue.push(Task::new(id, fut));
                    proof {
                        assert(futs@ =~= orig.take(futs@.len() as int));
                        assert(queue@ =~= Map::new(
                            |k: usize| futs@.len() <= k && (k as int) < orig.len(),
                            |k: usize| orig[k as int],
                        ));
                    }
                },
                None => {},
            }
        }
        let r = Self {
            futs: CondPair::new(TaskQueue::new(), queue),
            rets: TaskQueue::new(),
            ret_pos: 0,
            in_flight: None,
            limit,
        };
        proof {
            r.rets.lemma_finite();
            r.futs.second().lemma_finite();
            assert(r@.second =~= indexed(orig));
            lemma_indexed_len(orig);
            assert(r@.held() =~= r@.second.dom());
        }
        r
    }

    /// How many futures are pending (the one being polled, if any, aside).
    pub fn f_len(&self) -> (r: usize)
        requires
            self.wf(),
        ensures
            r == self@.first.len() + self@.second.len(),
    {
        let (t, f) = self.futs.get();
        t.len() + f.len()
    }

    /// How many finished results wait to be yielded.
    pub fn r_len(&self) -> (r: usize)
        requires
            self.wf(),
        ensures
            r == self@.results.len(),
    {
        self.rets.len()
    }

    /// No pending future and no waiting result.
    pub fn is_empty(&self) -> (r: bool)
        requires
            self.wf(),
        ensures
            r == self@.is_empty(),
            r == (self@.first.len() + self@.second.len() == 0 && self@.results.len() == 0),
    {
        proof {
            self.futs.first().lemma_finite();
            self.futs.second().lemma_finite();
            self.rets.lemma_finite();
        }
        let (t, f) = self.futs.get();
        t.is_empty() && f.is_empty() && self.rets.is_empty()
    }

    /// The capacity the permit channel is made with.
    pub fn limit(&self) -> (r: usize)
        ensures
            r == self@.limit,
    {
        self.limit
    }
}

proof fn lemma_indexed_len<X>(s: Seq<X>)
    requires
        s.len() <= usize::MAX,
    ensures
        indexed(s).dom().finite(),
        indexed(s).len() == s.len(),
        forall|k: usize| #[trigger] indexed(s).contains_key(k) ==> (k as int) < s.len(),
{
    let d = indexed(s).dom();
    let r = vstd::set_lib::set_int_range(0, s.len() as int);
    vstd::set_lib::lemma_int_range(0, s.len() as int);
    assert(d =~= r.map(|i: int| i as usize)) by {
        assert forall|k: usize| d.contains(k) implies r.map(|i: int| i as usize).contains(k) by {
            assert(r.contains(k as int));
        }
    }
    r.lemma_map_finite(|i: int| i as usize);
    assert(vstd::relations::injective_on(|i: int| i as usize, r));
    vstd::set_lib::lemma_map_size(r, d, |i: int| i as usize);
}

} // verus!
