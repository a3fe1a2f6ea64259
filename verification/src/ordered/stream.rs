use vstd::prelude::*;

use super::laws::{
    poll_step,
    lemma_advance_keeps_inv, lemma_begin_round_keeps_inv, lemma_report_closed_keeps_inv,
    lemma_report_pending_keeps_inv, lemma_report_ready_keeps_inv,
};
use super::queue::TaskQueue;
use super::task::Task;
use super::{OrderedState, OrderedTask};
use crate::poll::{Outcome, Step};

verus! {

/// Whether the first of the two queues is empty.
fn first_is_empty<X>(first: &TaskQueue<X>, _second: &TaskQueue<X>) -> (r: bool)
    requires
        first.wf(),
    ensures
        r == first@.dom().is_empty(),
{
    first.is_empty()
}

impl<T, F> OrderedTask<T, F> {
    /// Takes the next decision with no future in flight: hands out the queued
    /// future with the smallest id, or else yields the result for the next
    /// position if it has arrived, or else waits.
    fn advance(&mut self) -> (r: Step<F, T>)
        requires
            old(self).wf(),
            old(self)@.in_flight is None,
        ensures
            final(self).wf(),
            old(self)@.advance(final(self)@, r),
    {
        let ghost pre = self@;
        let popped = self.futs.get_mut_false().pop_min();
        match popped {
            Some(task) => {
                self.in_flight = Some(task.id);
                let r = Step::Poll(task.item);
                proof {
                    assert(pre.advance(self@, r));
                    lemma_advance_keeps_inv(pre, self@, r);
                }
                r
            },
            None => {
                let r = match self.rets.peek_min() {
                    Some(id) => {
                        proof {
                            assert(pre.held().contains(id));
                        }
                        if id == self.ret_pos {
                            self.ret_pos = self.ret_pos + 1;
                            match self.rets.pop_min() {
                                Some(t) => Step::Ready(t.item),
                                None => Step::Pending,
                            }
                        } else {
                            proof {
                                if pre.results.contains_key(pre.ret_pos) {
                                    assert(pre.held().contains(pre.ret_pos));
                                }
                            }
                            Step::Pending
                        }
                    },
                    None => Step::Pending,
                };
                proof {
                    assert(pre.advance(self@, r));
                    lemma_advance_keeps_inv(pre, self@, r);
                }
                r
            },
        }
    }

    /// Starts a poll of the stream: an empty stream is finished; otherwise
    /// the round's queue is chosen (the first side, unless it is empty) and
    /// the first decision is taken.
    pub fn poll_start(&mut self) -> (r: Step<F, T>)
        requires
            old(self).wf(),
            old(self)@.in_flight is None,
        ensures
            final(self).wf(),
            old(self)@.is_empty() ==> r == Step::<F, T>::Finished && final(self)@ == old(self)@,
            !old(self)@.is_empty() ==> old(self)@.begin_round().advance(final(self)@, r),
            poll_step(old(self)@, None, final(self)@, r),
    {
        if self.is_empty() {
            return Step::Finished;
        }
        let ghost pre = self@;
        self.futs.update_cond(first_is_empty);
        proof {
            assert(self@ == pre.begin_round());
            lemma_begin_round_keeps_inv(pre);
        }
        self.advance()
    }

    /// Reports what polling the in-flight future gave, and takes the next
    /// decision (a closed channel ends the stream).
    pub fn poll_report(&mut self, outcome: Outcome<F, T>) -> (r: Step<F, T>)
        requires
            old(self).wf(),
            old(self)@.in_flight is Some,
        ensures
            final(self).wf(),
            old(self)@.report(outcome, final(self)@, r),
            poll_step(old(self)@, Some(outcome), final(self)@, r),
    {
        let ghost pre = self@;
        let id = match self.in_flight {
            Some(id) => id,
            None => 0,
        };
        self.in_flight = None;
        match outcome {
            Outcome::Ready(v) => {
                let ghost gv = v;
                self.rets.push(Task::new(id, v));
                proof {
                    lemma_report_ready_keeps_inv(pre, gv);
                    assert(self@ == (OrderedState {
                        results: pre.results.insert(id, gv),
                        in_flight: None,
                        ..pre
                    }));
                }
                self.advance()
            },
            Outcome::Closed => {
                proof {
                    lemma_report_closed_keeps_inv(pre);
                }
                Step::Finished
            },
            Outcome::Pending(fut) => {
                let ghost gf = fut;
                self.futs.get_mut_true().push(Task::new(id, fut));
                proof {
                    lemma_report_pending_keeps_inv(pre, gf);
                    assert(self@ == (OrderedState { in_flight: None, ..pre }).with_parked(
                        pre.parked().insert(id, gf),
                    ));
                }
                self.advance()
            },
        }
    }
}

} // verus!
