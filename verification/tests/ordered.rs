use task_stream::{OrderedTask, Outcome, Step, Task};

/// A stand-in for a future: it is pending `left` more times, then completes
/// with `value`.
#[derive(Debug, Clone, PartialEq)]
struct Sim<V> {
    left: u32,
    value: V,
}

fn sim<V>(left: u32, value: V) -> Sim<V> {
    Sim { left, value }
}

/// What one poll of a stream returned.
#[derive(Debug, PartialEq)]
enum Polled<V> {
    Item(V),
    Pending,
    End,
}

/// Polls the stream once, as the stream's driver does, counting completions.
fn poll_once<V>(task: &mut OrderedTask<V, Sim<V>>, completed: &mut usize) -> Polled<V> {
    let mut step = task.poll_start();
    loop {
        match step {
            Step::Poll(mut fut) => {
                let outcome = if fut.left == 0 {
                    *completed += 1;
                    Outcome::Ready(fut.value)
                } else {
                    fut.left -= 1;
                    Outcome::Pending(fut)
                };
                step = task.poll_report(outcome);
            }
            Step::Ready(v) => return Polled::Item(v),
            Step::Pending => return Polled::Pending,
            Step::Finished => return Polled::End,
        }
    }
}

/// Polls until the stream ends and collects what it yields.
fn collect<V>(task: &mut OrderedTask<V, Sim<V>>) -> Vec<V> {
    let mut out = Vec::new();
    let mut completed = 0;
    loop {
        match poll_once(task, &mut completed) {
            Polled::Item(v) => out.push(v),
            Polled::Pending => {}
            Polled::End => return out,
        }
    }
}

/// A small linear congruential generator, for repeatable "random" delays.
struct Lcg(u64);

impl Lcg {
    fn below(&mut self, n: u64) -> u64 {
        self.0 = self.0.wrapping_mul(6364136223846793005).wrapping_add(1442695040888963407);
        (self.0 >> 33) % n
    }
}

#[test]
fn ordered_base() {
    let mut rng = Lcg(7);
    let futs: Vec<Sim<i32>> = (0..300).map(|x| sim(rng.below(10) as u32, x)).collect();
    let mut task = OrderedTask::from_iter(futs, 15);
    let r = collect(&mut task);
    assert_eq!(r, (0..300).collect::<Vec<_>>());
}

#[test]
fn ordered_empty() {
    let futs: Vec<Sim<i32>> = Vec::new();
    let mut task = OrderedTask::from_iter(futs, 5);
    let r = collect(&mut task);
    assert!(r.is_empty());
}

#[test]
fn cancel() {
    // Tasks finish after a delay that grows with their position; from the
    // tenth on they fail. Collecting stops at the first failure.
    fn run(futs: Vec<Sim<Result<i32, ()>>>) -> (Result<Vec<i32>, ()>, usize) {
        let mut task = OrderedTask::from_iter(futs, 5);
        let mut completed = 0;
        let mut out = Vec::new();
        loop {
            match poll_once(&mut task, &mut completed) {
                Polled::Item(Ok(v)) => out.push(v),
                Polled::Item(Err(e)) => return (Err(e), completed),
                Polled::Pending => {}
                Polled::End => return (Ok(out), completed),
            }
        }
    }
    let value = |x: i32| if x >= 10 { Err(()) } else { Ok(x) };
    let sorted: Vec<_> = (0..15).map(|x| sim(x as u32, value(x))).collect();
    let mut rng = Lcg(11);
    let random: Vec<_> =
        (0..15).map(|x| sim(if x >= 14 { 1000 } else { rng.below(10) as u32 }, value(x))).collect();
    let (a, a_cnt) = run(sorted);
    let (b, b_cnt) = run(random);
    assert_eq!(a, Err(()));
    assert_eq!(a_cnt, 11);
    assert_eq!(b, Err(()));
    assert!(b_cnt <= 14, "b_cnt {b_cnt}");
}

#[test]
fn results_wait_for_earlier_positions() {
    // task 1 is ready at once, task 0 only on its third poll
    let mut task = OrderedTask::from_iter(vec![sim(2, 'a'), sim(0, 'b')], 1);
    let mut completed = 0;
    assert_eq!(poll_once(&mut task, &mut completed), Polled::Pending);
    assert_eq!((task.f_len(), task.r_len()), (1, 1));
    assert_eq!(poll_once(&mut task, &mut completed), Polled::Pending);
    assert_eq!(poll_once(&mut task, &mut completed), Polled::Item('a'));
    assert_eq!((task.f_len(), task.r_len()), (0, 1));
    assert_eq!(poll_once(&mut task, &mut completed), Polled::Item('b'));
    assert!(task.is_empty());
    assert_eq!(poll_once(&mut task, &mut completed), Polled::End);
}

#[test]
fn a_round_polls_queued_futures_by_increasing_id() {
    let futs: Vec<Sim<usize>> = (0..6).map(|x| sim(1, x)).collect();
    let mut task: OrderedTask<usize, Sim<usize>> = OrderedTask::from_iter(futs, 3);
    let mut order = Vec::new();
    let mut step = task.poll_start();
    while let Step::Poll(mut fut) = step {
        order.push(fut.value);
        fut.left -= 1;
        step = task.poll_report(Outcome::Pending(fut));
    }
    assert_eq!(order, vec![0, 1, 2, 3, 4, 5]);
    assert!(matches!(step, Step::Pending));
    assert_eq!(task.f_len(), 6);
}

#[test]
fn closed_channel_ends_the_stream() {
    let mut task: OrderedTask<i32, Sim<i32>> = OrderedTask::from_iter(vec![sim(0, 1), sim(0, 2)], 2);
    let step = task.poll_start();
    assert!(matches!(step, Step::Poll(_)));
    let step = task.poll_report(Outcome::Closed);
    assert!(matches!(step, Step::Finished));
    // the dropped task is gone; the other one is still queued
    assert_eq!(task.f_len(), 1);
}

#[test]
fn new_stream_is_empty_and_ends() {
    let mut task: OrderedTask<u8, Sim<u8>> = OrderedTask::new(4);
    assert!(task.is_empty());
    assert_eq!(task.limit(), 4);
    assert_eq!((task.f_len(), task.r_len()), (0, 0));
    assert!(matches!(task.poll_start(), Step::Finished));
}

#[test]
fn tasks_order_in_reverse_of_their_ids() {
    let a = Task::new(1, "x");
    let b = Task::new(2, "y");
    let c = Task::new(1, "z");
    assert!(a > b);
    assert!(b < a);
    assert!(a == c);
    assert_eq!(a.partial_cmp(&b), Some(std::cmp::Ordering::Greater));
    assert_eq!((a.id, a.item), (1, "x"));
}

#[test]
fn pending_and_stored_plus_yielded_make_the_input_count() {
    let mut rng = Lcg(19);
    let n = 40;
    let futs: Vec<Sim<usize>> = (0..n).map(|x| sim(rng.below(6) as u32, x)).collect();
    let mut task = OrderedTask::from_iter(futs, 8);
    let mut completed = 0;
    let mut yielded = Vec::new();
    let mut last_f_len = task.f_len();
    loop {
        let polled = poll_once(&mut task, &mut completed);
        assert_eq!(task.f_len() + task.r_len() + yielded.len() + matches!(polled, Polled::Item(_)) as usize, n);
        assert!(task.f_len() <= last_f_len);
        assert_eq!(task.r_len(), completed - yielded.len() - matches!(polled, Polled::Item(_)) as usize);
        last_f_len = task.f_len();
        match polled {
            Polled::Item(v) => yielded.push(v),
            Polled::Pending => {}
            Polled::End => break,
        }
    }
    assert_eq!(yielded, (0..n).collect::<Vec<_>>());
    assert!(task.is_empty());
    assert_eq!(poll_once(&mut task, &mut completed), Polled::End);
}
