use vstd::prelude::*;

use super::task::Task;

verus! {

/// The map from id to item that a sequence of tasks holds (a later task with
/// the same id would hide an earlier one; well-formed queues hold none).
pub open spec fn task_map<X>(s: Seq<Task<X>>) -> Map<usize, X>
    decreases s.len(),
{
    if s.len() == 0 {
        Map::empty()
    } else {
        task_map(s.drop_last()).insert(s.last().id, s.last().item)
    }
}

/// No two tasks of `s` share an id.
pub open spec fn distinct_ids<X>(s: Seq<Task<X>>) -> bool {
    forall|i: int, j: int| 0 <= i < s.len() && 0 <= j < s.len() && i != j ==> s[i].id != s[j].id
}

/// `k` is the smallest key of `m`.
pub open spec fn is_min_key<X>(m: Map<usize, X>, k: usize) -> bool {
    &&& m.contains_key(k)
    &&& forall|j: usize| m.contains_key(j) ==> k <= j
}

proof fn lemma_task_map_keys<X>(s: Seq<Task<X>>)
    ensures
        forall|k: usize|
            task_map(s).contains_key(k) <==> exists|i: int| 0 <= i < s.len() && s[i].id == k,
        task_map(s).dom().finite(),
    decreases s.len(),
{
    if s.len() > 0 {
        let p = s.drop_last();
        lemma_task_map_keys(p);
        assert forall|k: usize|
            task_map(s).contains_key(k) <==> exists|i: int| 0 <= i < s.len() && s[i].id == k by {
            if task_map(s).contains_key(k) {
                if k == s.last().id {
                    assert(s[s.len() - 1].id == k);
                } else {
                    let i = choose|i: int| 0 <= i < p.len() && p[i].id == k;
                    assert(s[i].id == k);
                }
            }
            if exists|i: int| 0 <= i < s.len() && s[i].id == k {
                let i = choose|i: int| 0 <= i < s.len() && s[i].id == k;
                if i < s.len() - 1 {
                    assert(p[i].id == k);
                }
            }
        }
    }
}

proof fn lemma_task_map_value<X>(s: Seq<Task<X>>, i: int)
    requires
        distinct_ids(s),
        0 <= i < s.len(),
    ensures
        task_map(s).contains_key(s[i].id),
        task_map(s)[s[i].id] == s[i].item,
    decreases s.len(),
{
    if i < s.len() - 1 {
        let p = s.drop_last();
        assert(p[i] == s[i]);
        assert(distinct_ids(p));
        lemma_task_map_value(p, i);
        assert(s.last().id != s[i].id);
    }
}

proof fn lemma_task_map_len<X>(s: Seq<Task<X>>)
    requires
        distinct_ids(s),
    ensures
        task_map(s).dom().finite(),
        task_map(s).len() == s.len(),
    decreases s.len(),
{
    lemma_task_map_keys(s);
    if s.len() > 0 {
        let p = s.drop_last();
        assert(distinct_ids(p));
        lemma_task_map_len(p);
        lemma_task_map_keys(p);
        if task_map(p).contains_key(s.last().id) {
            let i = choose|i: int| 0 <= i < p.len() && p[i].id == s.last().id;
            assert(s[i].id == s[s.len() - 1].id);
        }
    }
}

/// Characterises a map by its keys and values, for a sequence of distinct ids.
proof fn lemma_task_map_char<X>(s: Seq<Task<X>>)
    requires
        distinct_ids(s),
    ensures
        task_map(s).dom().finite(),
        forall|k: usize|
            task_map(s).contains_key(k) <==> exists|i: int| 0 <= i < s.len() && s[i].id == k,
        forall|i: int|
            #![trigger s[i]]
            0 <= i < s.len() ==> task_map(s).contains_key(s[i].id) && task_map(s)[s[i].id]
                == s[i].item,
{
    lemma_task_map_keys(s);
    assert forall|i: int| #![trigger s[i]] 0 <= i < s.len() implies task_map(s).contains_key(
        s[i].id,
    ) && task_map(s)[s[i].id] == s[i].item by {
        lemma_task_map_value(s, i);
    }
}

/// A collection of tasks, at most one per id, that hands out its task with the
/// smallest id first.
pub struct TaskQueue<X> {
    tasks: Vec<Task<X>>,
}

impl<X> View for TaskQueue<X> {
    type V = Map<usize, X>;

    closed spec fn view(&self) -> Map<usize, X> {
        task_map(self.tasks@)
    }
}

impl<X> TaskQueue<X> {
    /// No two stored tasks share an id.
    pub closed spec fn wf(&self) -> bool {
        distinct_ids(self.tasks@)
    }

    pub proof fn lemma_finite(&self)
        requires
            self.wf(),
        ensures
            self@.dom().finite(),
    {
        lemma_task_map_keys(self.tasks@);
    }

    pub fn new() -> (r: Self)
        ensures
            r.wf(),
            r@ == Map::<usize, X>::empty(),
    {
        Self { tasks: Vec::new() }
    }

    pub fn len(&self) -> (r: usize)
        requires
            self.wf(),
        ensures
            r == self@.len(),
            self@.dom().finite(),
    {
        proof {
            lemma_task_map_len(self.tasks@);
        }
        self.tasks.len()
    }

    pub fn is_empty(&self) -> (r: bool)
        requires
            self.wf(),
        ensures
            r == self@.dom().is_empty(),
    {
        proof {
            lemma_task_map_len(self.tasks@);
        }
        self.tasks.len() == 0
    }

    /// Adds `task`, whose id the queue does not hold yet.
    pub fn push(&mut self, task: Task<X>)
        requires
            old(self).wf(),
            !old(self)@.contains_key(task.id),
        ensures
            final(self).wf(),
            final(self)@ == old(self)@.insert(task.id, task.item),
    {
        proof {
            lemma_task_map_keys(self.tasks@);
        }
        let ghost prev = self.tasks@;
        self.tasks.push(task);
        proof {
            assert(self.tasks@.drop_last() =~= prev);
            assert forall|i: int, j: int|
                0 <= i < self.tasks@.len() && 0 <= j < self.tasks@.len() && i != j implies
                self.tasks@[i].id != self.tasks@[j].id by {
                if i == prev.len() {
                    assert(prev[j].id == self.tasks@[j].id);
                } else if j == prev.len() {
                    assert(prev[i].id == self.tasks@[i].id);
                }
            }
        }
    }

    /// The index of the task with the smallest id, if any.
    fn min_index(&self) -> (r: Option<usize>)
        requires
            self.wf(),
        ensures
            match r {
                None => self.tasks@.len() == 0,
                Some(i) => i < self.tasks@.len() && forall|j: int|
                    0 <= j < self.tasks@.len() ==> self.tasks@[i as int].id <= #[trigger] self.tasks@[j].id,
            },
    {
        let n = self.tasks.len();
        if n == 0 {
            return None;
        }
        let mut best: usize = 0;
        let mut i: usize = 1;
        while i < n
            invariant
                n == self.tasks@.len(),
                1 <= i <= n,
                best < n,
                forall|j: int| 0 <= j < i ==> self.tasks@[best as int].id <= #[trigger] self.tasks@[j].id,
            decreases n - i,
        {
            if self.tasks[i].id < self.tasks[best].id {
                best = i;
            }
            i = i + 1;
        }
        Some(best)
    }

    proof fn lemma_min_key(&self, i: int)
        requires
            self.wf(),
            0 <= i < self.tasks@.len(),
            forall|j: int| 0 <= j < self.tasks@.len() ==> self.tasks@[i].id <= #[trigger] self.tasks@[j].id,
        ensures
            is_min_key(self@, self.tasks@[i].id),
            self@[self.tasks@[i].id] == self.tasks@[i].item,
    {
        let s = self.tasks@;
        lemma_task_map_char(s);
        lemma_task_map_value(s, i);
        assert forall|k: usize| self@.contains_key(k) implies s[i].id <= k by {
            let j = choose|j: int| 0 <= j < s.len() && s[j].id == k;
            assert(s[i].id <= s[j].id);
        }
    }

    /// The smallest id held, if any.
    pub fn peek_min(&self) -> (r: Option<usize>)
        requires
            self.wf(),
        ensures
            match r {
                None => self@.dom().is_empty(),
                Some(k) => is_min_key(self@, k),
            },
    {
        match self.min_index() {
            None => {
                proof {
                    lemma_task_map_len(self.tasks@);
                }
                None
            },
            Some(i) => {
                proof {
                    self.lemma_min_key(i as int);
                }
                Some(self.tasks[i].id)
            },
        }
    }

    /// Takes out the task with the smallest id, if any.
    pub fn pop_min(&mut self) -> (r: Option<Task<X>>)
        requires
            old(self).wf(),
        ensures
            final(self).wf(),
            match r {
                None => old(self)@.dom().is_empty() && final(self)@ == old(self)@,
                Some(t) => {
                    &&& is_min_key(old(self)@, t.id)
                    &&& t.item == old(self)@[t.id]
                    &&& final(self)@ == old(self)@.remove(t.id)
                },
            },
    {
        match self.min_index() {
            None => {
                proof {
                    lemma_task_map_len(self.tasks@);
                }
                None
            },
            Some(i) => {
                proof {
                    self.lemma_min_key(i as int);
                }
                let ghost s = self.tasks@;
                let t = self.tasks.swap_remove(i);
                proof {
                    lemma_swap_remove(s, i as int);
                }
                Some(t)
            },
        }
    }
}

proof fn lemma_swap_remove<X>(s: Seq<Task<X>>, i: int)
    requires
        distinct_ids(s),
        0 <= i < s.len(),
    ensures
        distinct_ids(s.update(i, s.last()).drop_last()),
        task_map(s.update(i, s.last()).drop_last()) == task_map(s).remove(s[i].id),
{
    let n = s.len();
    let r = s.update(i, s.last()).drop_last();
    // position in `s` of the element at position `j` in `r`
    assert forall|a: int, b: int| 0 <= a < r.len() && 0 <= b < r.len() && a != b implies r[a].id
        != r[b].id by {
        let sa = if a == i { n - 1 } else { a };
        let sb = if b == i { n - 1 } else { b };
        assert(r[a] == s[sa]);
        assert(r[b] == s[sb]);
    }
    lemma_task_map_keys(s);
    lemma_task_map_keys(r);
    let m = task_map(s).remove(s[i].id);
    assert forall|k: usize| task_map(r).contains_key(k) <==> m.contains_key(k) by {
        if task_map(r).contains_key(k) {
            let a = choose|a: int| 0 <= a < r.len() && r[a].id == k;
            let sa = if a == i { n - 1 } else { a };
            assert(r[a] == s[sa]);
            lemma_task_map_value(s, sa);
        }
        if m.contains_key(k) {
            let a = choose|a: int| 0 <= a < s.len() && s[a].id == k;
            assert(a != i);
            let ra = if a == n - 1 { i } else { a };
            assert(r[ra] == s[a]);
            lemma_task_map_value(r, ra);
        }
    }
    assert forall|k: usize| #[trigger] task_map(r).contains_key(k) implies task_map(r)[k] == m[k] by {
        let a = choose|a: int| 0 <= a < r.len() && r[a].id == k;
        let sa = if a == i { n - 1 } else { a };
        assert(r[a] == s[sa]);
        lemma_task_map_value(r, a);
        lemma_task_map_value(s, sa);
    }
    assert(task_map(r) =~= m);
}

} // verus!
