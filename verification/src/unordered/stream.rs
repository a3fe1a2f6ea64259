use vstd::prelude::*;

use super::task::Task;
use super::laws::unordered_poll_step;
use super::{items, UnorderedState, UnorderedTask};
use crate::poll::{Outcome, Step};

verus! {

/// Whether the first of the two stacks is empty.
fn first_is_empty<X>(first: &Vec<Task<X>>, _second: &Vec<Task<X>>) -> (r: bool)
    ensures
        r == (first@.len() == 0),
{
    first.is_empty()
}

impl<F> UnorderedTask<F> {
    /// Takes the next decision with no future in flight: hands out the last
    /// queued future, or waits when none is queued.
    fn advance<T>(&mut self) -> (r: Step<F, T>)
        requires
            old(self).wf(),
            !old(self)@.in_flight,
        ensures
            final(self).wf(),
            old(self)@.advance(final(self)@, r),
    {
        let ghost pre = self@;
        let ghost side = self.futs.false_side()@;
        match self.futs.get_mut_false().pop() {
            Some(task) => {
                self.in_flight = true;
                proof {
                    assert(items(side.drop_last()) =~= pre.queued().drop_last());
                    assert(side.drop_last() =~= side.subrange(0, side.len() - 1));
                }
                Step::Poll(task.item)
            },
            None => Step::Pending,
        }
    }

    /// Starts a poll of the stream: a stream with no pending future is
    /// finished; otherwise the round's stack is chosen (the first, unless it
    /// is empty) and the first decision is taken.
    pub fn poll_start<T>(&mut self) -> (r: Step<F, T>)
        requires
            old(self).wf(),
            !old(self)@.in_flight,
        ensures
            final(self).wf(),
            old(self)@.len() == 0 ==> r == Step::<F, T>::Finished && final(self)@ == old(self)@,
            old(self)@.len() != 0 ==> old(self)@.begin_round().advance(final(self)@, r),
            unordered_poll_step(old(self)@, None, final(self)@, r),
    {
        if self.is_empty() {
            return Step::Finished;
        }
        let ghost pre = self@;
        self.futs.update_cond(first_is_empty);
        proof {
            assert(self@ == pre.begin_round());
        }
        self.advance()
    }

    /// Reports what polling the in-flight future gave: a result is yielded,
    /// a closed channel ends the stream, and a pending future is parked
    /// before the next decision.
    pub fn poll_report<T>(&mut self, outcome: Outcome<F, T>) -> (r: Step<F, T>)
        requires
            old(self).wf(),
            old(self)@.in_flight,
        ensures
            final(self).wf(),
            old(self)@.report(outcome, final(self)@, r),
            unordered_poll_step(old(self)@, Some(outcome), final(self)@, r),
    {
        let ghost pre = self@;
        self.in_flight = false;
        match outcome {
            Outcome::Ready(v) => Step::Ready(v),
            Outcome::Closed => Step::Finished,
            Outcome::Pending(fut) => {
                let ghost gf = fut;
                let ghost side = self.futs.true_side()@;
                self.futs.get_mut_true().push(Task::new(fut));
                proof {
                    assert(items(side.push(Task { item: gf })) =~= pre.parked().push(gf));
                    assert(self@ == (UnorderedState { in_flight: false, ..pre }).with_parked(
                        pre.parked().push(gf),
                    ));
                }
                self.advance()
            },
        }
    }
}

} // verus!
