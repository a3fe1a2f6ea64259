mod cond_pair;
mod ordered;
mod poll;
mod unordered;

pub use cond_pair::{
    lemma_flip_swaps_roles, lemma_roles_cover_pair, lemma_updates_keep_values, CondPair,
};
pub use ordered::{
    count_closed, count_yields, held_count, indexed, is_min_key, is_poll_call, is_run,
    lemma_advance_conserves_tasks, lemma_advance_keeps_inv, lemma_begin_round_keeps_inv,
    lemma_poll_call, lemma_poll_call_polls_round_in_order, lemma_poll_step, lemma_task_eq,
    lemma_task_partial_cmp, next_in_round, round_after, lemma_report_closed_keeps_inv,
    lemma_report_conserves_tasks, lemma_report_pending_keeps_inv, lemma_report_ready_keeps_inv,
    lemma_round_polls_in_id_order, lemma_run_yields_in_order, lemma_yield_is_next_position,
    pending_count, poll_step, ready_at, reported_before, retired, run_facts, OrderedState,
    OrderedTask, Task,
};
pub use poll::{valid_limit, Outcome, Step};
pub use unordered::{
    count_closed_events, count_ready, is_unordered_poll_call, is_unordered_run, items,
    lemma_unordered_advance_conserves, lemma_unordered_poll_call,
    lemma_unordered_poll_call_polls_round_once, lemma_unordered_poll_step,
    lemma_unordered_report, lemma_unordered_run_accounts_for_every_future, pending,
    ready_values, unordered_poll_step, unordered_run_facts, unordered_task, yielded,
    UnorderedState, UnorderedTask,
};
