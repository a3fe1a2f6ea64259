mod laws;
mod stream;
mod task;

pub use laws::{
    count_closed_events, count_ready, is_unordered_poll_call, is_unordered_run,
    lemma_unordered_advance_conserves, lemma_unordered_poll_call,
    lemma_unordered_poll_call_polls_round_once, lemma_unordered_poll_step,
    lemma_unordered_report, lemma_unordered_run_accounts_for_every_future, pending,
    ready_values, unordered_poll_step, unordered_run_facts, yielded,
};
pub use task::Task;

use vstd::prelude::*;

use crate::cond_pair::CondPair;
use crate::poll::{valid_limit, Outcome, Step};

verus! {

/// The items of a sequence of tasks.
pub open spec fn items<X>(s: Seq<Task<X>>) -> Seq<X> {
    s.map_values(|t: Task<X>| t.item)
}

/// The abstract state of an unordered task stream.
///
/// Pending futures sit in two stacks: while `cond` holds, `second` is the
/// stack being drained this round (from its end) and `first` collects the
/// futures that stay pending; otherwise the roles are swapped. `in_flight`
/// tells whether a future is out being polled.
#[verifier::ext_equal]
pub struct UnorderedState<F> {
    pub first: Seq<F>,
    pub second: Seq<F>,
    pub cond: bool,
    pub in_flight: bool,
    pub limit: usize,
}

impl<F> UnorderedState<F> {
    /// The futures still to be polled in this round.
    pub open spec fn queued(self) -> Seq<F> {
        if self.cond {
            self.second
        } else {
            self.first
        }
    }

    /// The futures that stayed pending in this round.
    pub open spec fn parked(self) -> Seq<F> {
        if self.cond {
            self.first
        } else {
            self.second
        }
    }

    pub open spec fn with_queued(self, s: Seq<F>) -> Self {
        if self.cond {
            Self { second: s, ..self }
        } else {
            Self { first: s, ..self }
        }
    }

    pub open spec fn with_parked(self, s: Seq<F>) -> Self {
        if self.cond {
            Self { first: s, ..self }
        } else {
            Self { second: s, ..self }
        }
    }

    /// How many futures are pending, the one in flight aside.
    pub open spec fn len(self) -> nat {
        self.first.len() + self.second.len()
    }

    /// How many futures the stream holds, the one in flight included.
    pub open spec fn count(self) -> nat {
        self.len() + if self.in_flight { 1nat } else { 0nat }
    }

    /// The state invariant: the count fits in a `usize`.
    pub open spec fn inv(self) -> bool {
        self.count() <= usize::MAX
    }

    /// The start of a round: the condition becomes "`first` is empty".
    pub open spec fn begin_round(self) -> Self {
        Self { cond: self.first.len() == 0, ..self }
    }

    /// One scheduling decision, taken with no future in flight: poll the
    /// last queued future, or wait when none is queued.
    pub open spec fn advance<T>(self, post: Self, r: Step<F, T>) -> bool {
        if self.queued().len() > 0 {
            &&& r == Step::<F, T>::Poll(self.queued().last())
            &&& post == Self { in_flight: true, ..self.with_queued(self.queued().drop_last()) }
        } else {
            &&& r == Step::<F, T>::Pending
            &&& post == Self { in_flight: false, ..self }
        }
    }

    /// What reporting the outcome of the in-flight future does: a result is
    /// yielded at once, a closed channel ends the stream, and a pending
    /// future is parked before the next decision is taken.
    pub open spec fn report<T>(self, outcome: Outcome<F, T>, post: Self, r: Step<F, T>) -> bool {
        let idle = Self { in_flight: false, ..self };
        match outcome {
            Outcome::Ready(v) => r == Step::<F, T>::Ready(v) && post == idle,
            Outcome::Closed => r == Step::<F, T>::Finished && post == idle,
            Outcome::Pending(fut) => idle.with_parked(self.parked().push(fut)).advance(post, r),
        }
    }
}

/// The state of a stream of futures that yields their results as they
/// finish.
pub struct UnorderedTask<F> {
    futs: CondPair<Vec<Task<F>>>,
    in_flight: bool,
    limit: usize,
}

impl<F> View for UnorderedTask<F> {
    type V = UnorderedState<F>;

    closed spec fn view(&self) -> UnorderedState<F> {
        UnorderedState {
            first: items(self.futs.first()@),
            second: items(self.futs.second()@),
            cond: self.futs.cond(),
            in_flight: self.in_flight,
            limit: self.limit,
        }
    }
}

/// An empty unordered stream whose permit channel will hold `limit` permits.
pub fn unordered_task<F>(limit: usize) -> (r: UnorderedTask<F>)
    requires
        valid_limit(limit),
    ensures
        r.wf(),
        r@ == (UnorderedState::<F> {
            first: Seq::empty(),
            second: Seq::empty(),
            cond: true,
            in_flight: false,
            limit,
        }),
{
    UnorderedTask::new(limit)
}

impl<F> UnorderedTask<F> {
    /// The abstract state keeps its invariant.
    pub closed spec fn wf(&self) -> bool {
        self@.inv()
    }

    /// A well-formed stream's abstract state keeps the invariant.
    pub proof fn lemma_wf_inv(&self)
        requires
            self.wf(),
        ensures
            self@.inv(),
    {
    }

    /// An empty stream whose permit channel will hold `limit` permits.
    pub fn new(limit: usize) -> (r: Self)
        requires
            valid_limit(limit),
        ensures
            r.wf(),
            r@ == (UnorderedState::<F> {
                first: Seq::empty(),
                second: Seq::empty(),
                cond: true,
                in_flight: false,
                limit,
            }),
    {
        let r = Self { futs: CondPair::new(Vec::new(), Vec::new()), in_flight: false, limit };
        proof {
            assert(r@.first =~= Seq::empty());
            assert(r@.second =~= Seq::empty());
        }
        r
    }

    /// A stream whose queue holds `futs`, pushed in order.
    pub fn from_iter(futs: Vec<F>, limit: usize) -> (r: Self)
        requires
            valid_limit(limit),
        ensures
            r.wf(),
            r@ == (UnorderedState::<F> {
                first: Seq::empty(),
                second: futs@,
                cond: true,
                in_flight: false,
                limit,
            }),
    {
        let ghost orig = futs@;
        let n = futs.len();
        let mut this = Self::new(limit);
        for fut in it: futs.into_iter()
            invariant
                this.wf(),
                n == orig.len(),
                it.seq() == orig,
                this@ == (UnorderedState::<F> {
                    first: Seq::empty(),
                    second: orig.take(it.index() as int),
                    cond: true,
                    in_flight: false,
                    limit,
                }),
        {
            this.push(fut);
            proof {
                assert(orig.take(it.index() as int).push(orig[it.index() as int]) =~= orig.take(
                    it.index() + 1,
                ));
            }
        }
        proof {
            assert(orig.take(orig.len() as int) =~= orig);
        }
        this
    }

    /// Queues `fut` to be polled.
    pub fn push(&mut self, fut: F)
        requires
            old(self).wf(),
            old(self)@.count() < usize::MAX,
        ensures
            final(self).wf(),
            final(self)@ == old(self)@.with_queued(old(self)@.queued().push(fut)),
    {
        let ghost pre = self@;
        self.futs.get_mut_false().push(Task::new(fut));
        proof {
            assert(items(self.futs.false_side()@) =~= pre.queued().push(fut));
            assert(self@ == pre.with_queued(pre.queued().push(fut)));
        }
    }

    /// How many futures are pending, the one being polled, if any, aside.
    pub fn len(&self) -> (r: usize)
        requires
            self.wf(),
        ensures
            r == self@.len(),
    {
        let (t, f) = self.futs.get();
        t.len() + f.len()
    }

    /// No future is pending (the one being polled, if any, aside).
    pub fn is_empty(&self) -> (r: bool)
        ensures
            r == (self@.len() == 0),
    {
        let (t, f) = self.futs.get();
        t.is_empty() && f.is_empty()
    }

    /// The capacity the permit channel is made with.
    pub fn limit(&self) -> (r: usize)
        ensures
            r == self@.limit,
    {
        self.limit
    }
}

} // verus!
