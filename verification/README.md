# task_stream

Schedulers for streams over many futures: an *ordered* one, which yields the
results in the order the futures were given whatever order they finish in,
and an *unordered* one, which yields them as they finish.

- `src/` is the verified library. `CondPair` holds two values whose roles
  ("true" / "false") a recomputable condition decides; the schedulers keep
  their pending futures in such a pair, draining one side per poll round and
  parking the still-pending futures on the other. `OrderedTask` and
  `UnorderedTask` are state machines: `poll_start` and `poll_report` take
  every decision of a poll (which future to poll next, where a pending one
  goes, what to yield, when the stream ends) and say what to do next as a
  `Step`. Their contracts are stated over the abstract states
  `OrderedState` and `UnorderedState`, and the laws of the schedulers (in
  `ordered/laws.rs` and `unordered/laws.rs`) are proved over them: per
  driver call, over whole runs of calls (`lemma_run_yields_in_order`,
  `lemma_unordered_run_accounts_for_every_future`) and over one poll of the
  stream (`lemma_poll_call`, `lemma_unordered_poll_call`).
- `app/` is the async side: it wraps each future so that it first takes a
  permit from a bounded `tokio` channel (at most `limit` futures run at
  once), polls the futures the schedulers hand out, and implements
  `futures::Stream` by running the schedulers' steps.
- `tests/` drive the schedulers with simulated futures.
