use task_stream::{unordered_task, Outcome, Step, UnorderedTask};

/// A stand-in for a future: it is pending `left` more times, then completes
/// with `value`.
#[derive(Debug, Clone, PartialEq)]
struct Sim {
    left: u32,
    value: usize,
}

/// Polls the stream once, as the stream's driver does: `None` when pending.
fn poll_once(task: &mut UnorderedTask<Sim>) -> Option<Option<usize>> {
    let mut step = task.poll_start();
    loop {
        match step {
            Step::Poll(mut fut) => {
                let outcome = if fut.left == 0 {
                    Outcome::Ready(fut.value)
                } else {
                    fut.left -= 1;
                    Outcome::Pending(fut)
                };
                step = task.poll_report(outcome);
            }
            Step::Ready(v) => return Some(Some(v)),
            Step::Pending => return None,
            Step::Finished => return Some(None),
        }
    }
}

/// Polls until the stream yields an item or ends.
fn pop(task: &mut UnorderedTask<Sim>) -> Option<usize> {
    loop {
        if let Some(r) = poll_once(task) {
            return r;
        }
    }
}

struct Lcg(u64);

impl Lcg {
    fn below(&mut self, n: u64) -> u64 {
        self.0 = self.0.wrapping_mul(6364136223846793005).wrapping_add(1442695040888963407);
        (self.0 >> 33) % n
    }
}

#[test]
fn unordered_base() {
    let mut rng = Lcg(3);
    let mut xs: Vec<usize> = (0..300).collect();
    // shuffle
    for i in (1..xs.len()).rev() {
        let j = rng.below(i as u64 + 1) as usize;
        xs.swap(i, j);
    }
    let futs: Vec<Sim> = xs.iter().map(|x| Sim { left: rng.below(10) as u32, value: *x }).collect();
    let mut task = UnorderedTask::from_iter(futs, 15);
    let mut actual = Vec::new();
    while let Some(x) = pop(&mut task) {
        actual.push(x);
    }
    let expected = (0..xs.len()).collect::<Vec<_>>();
    assert_ne!(actual, expected);
    actual.sort();
    assert_eq!(actual, expected);
}

#[test]
fn unordered_empty() {
    let mut rng = Lcg(5);
    let mut tasker = unordered_task(15);
    let xs = (0..50).collect::<Vec<usize>>();
    for x in xs.iter().map(|x| Sim { left: rng.below(10) as u32, value: *x }) {
        tasker.push(x);
    }
    let mut received = Vec::new();
    for _ in 0..xs.len() {
        let x = pop(&mut tasker).unwrap();
        received.push(x);
    }
    assert_eq!(received.len(), xs.len());
    let r = pop(&mut tasker);
    assert!(r.is_none());
}

#[test]
fn each_yield_retires_one_future() {
    let mut task = UnorderedTask::from_iter(vec![Sim { left: 0, value: 7 }, Sim { left: 1, value: 8 }], 2);
    assert_eq!(task.len(), 2);
    // the last queued future (8) is polled first and stays pending; then 7 is
    // polled and finishes
    assert_eq!(poll_once(&mut task), Some(Some(7)));
    assert_eq!(task.len(), 1);
    assert_eq!(poll_once(&mut task), Some(Some(8)));
    assert!(task.is_empty());
    assert_eq!(poll_once(&mut task), Some(None));
}

#[test]
fn a_round_polls_the_last_queued_first() {
    let futs: Vec<Sim> = (0..4).map(|x| Sim { left: 1, value: x }).collect();
    let mut task = UnorderedTask::from_iter(futs, 2);
    let mut order = Vec::new();
    let mut step: Step<Sim, usize> = task.poll_start();
    while let Step::Poll(mut fut) = step {
        order.push(fut.value);
        fut.left -= 1;
        step = task.poll_report(Outcome::Pending(fut));
    }
    assert_eq!(order, vec![3, 2, 1, 0]);
    assert!(matches!(step, Step::Pending));
    assert_eq!(task.len(), 4);
}

#[test]
fn closed_channel_ends_the_unordered_stream() {
    let mut task = UnorderedTask::new(3);
    task.push(Sim { left: 0, value: 1 });
    assert_eq!(task.limit(), 3);
    let step: Step<Sim, usize> = task.poll_start();
    assert!(matches!(step, Step::Poll(_)));
    assert!(matches!(task.poll_report(Outcome::<Sim, usize>::Closed), Step::Finished));
    assert!(task.is_empty());
}

#[test]
fn a_poll_lowers_the_count_exactly_when_it_yields() {
    let mut rng = Lcg(23);
    let futs: Vec<Sim> = (0..30).map(|x| Sim { left: rng.below(5) as u32, value: x }).collect();
    let mut task = UnorderedTask::from_iter(futs, 4);
    let mut seen = Vec::new();
    loop {
        let before = task.len();
        match poll_once(&mut task) {
            Some(Some(v)) => {
                assert_eq!(task.len(), before - 1);
                seen.push(v);
            }
            None => assert_eq!(task.len(), before),
            Some(None) => {
                assert_eq!(before, 0);
                assert_eq!(task.len(), 0);
                break;
            }
        }
    }
    seen.sort();
    assert_eq!(seen, (0..30).collect::<Vec<_>>());
}
