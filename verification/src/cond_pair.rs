use vstd::prelude::*;

verus! {

/// Two values of one type, of which one plays the "true" role and the other
/// the "false" role, as a stored condition decides.
///
/// While the condition holds, the first value is the true one and the second
/// the false one; otherwise the roles are swapped.
pub struct CondPair<T> {
    t: T,
    f: T,
    cond: bool,
}

impl<T> CondPair<T> {
    /// The first value, as it was given to `new`.
    pub closed spec fn first(&self) -> T {
        self.t
    }

    /// The second value, as it was given to `new`.
    pub closed spec fn second(&self) -> T {
        self.f
    }

    /// The stored condition.
    pub closed spec fn cond(&self) -> bool {
        self.cond
    }

    /// The value that currently plays the true role.
    pub open spec fn true_side(&self) -> T {
        if self.cond() {
            self.first()
        } else {
            self.second()
        }
    }

    /// The value that currently plays the false role.
    pub open spec fn false_side(&self) -> T {
        if self.cond() {
            self.second()
        } else {
            self.first()
        }
    }

    /// Pairs `a` (first) with `b` (second); the condition starts out true.
    pub fn new(a: T, b: T) -> (r: Self)
        ensures
            r.first() == a,
            r.second() == b,
            r.cond(),
    {
        Self { t: a, f: b, cond: true }
    }

    /// Both values, first then second, whatever the condition.
    pub fn get(&self) -> (r: (&T, &T))
        ensures
            *r.0 == self.first(),
            *r.1 == self.second(),
    {
        (&self.t, &self.f)
    }

    /// The value that plays the true role.
    pub fn get_true(&self) -> (r: &T)
        ensures
            *r == self.true_side(),
    {
        if self.cond {
            &self.t
        } else {
            &self.f
        }
    }

    /// The value that plays the false role.
    pub fn get_false(&self) -> (r: &T)
        ensures
            *r == self.false_side(),
    {
        if self.cond {
            &self.f
        } else {
            &self.t
        }
    }

    /// A mutable borrow of the value that plays the true role; the other
    /// value and the condition stay as they were.
    pub fn get_mut_true(&mut self) -> (r: &mut T)
        ensures
            *r == old(self).true_side(),
            final(self).cond() == old(self).cond(),
            final(self).true_side() == *final(r),
            final(self).false_side() == old(self).false_side(),
    {
        if self.cond {
            &mut self.t
        } else {
            &mut self.f
        }
    }

    /// A mutable borrow of the value that plays the false role; the other
    /// value and the condition stay as they were.
    pub fn get_mut_false(&mut self) -> (r: &mut T)
        ensures
            *r == old(self).false_side(),
            final(self).cond() == old(self).cond(),
            final(self).false_side() == *final(r),
            final(self).true_side() == old(self).true_side(),
    {
        if self.cond {
            &mut self.f
        } else {
            &mut self.t
        }
    }

    /// Recomputes the condition as `f(first, second)`; the values stay.
    pub fn update_cond<F: FnOnce(&T, &T) -> bool>(&mut self, f: F)
        requires
            f.requires((&old(self).first(), &old(self).second())),
        ensures
            final(self).first() == old(self).first(),
            final(self).second() == old(self).second(),
            f.ensures((&old(self).first(), &old(self).second()), final(self).cond()),
    {
        self.cond = f(&self.t, &self.f);
    }
}

/// Whatever the condition, the true and the false value are the two values
/// of the pair, one each: the first is the true one exactly while the
/// condition holds.
pub proof fn lemma_roles_cover_pair<T>(p: CondPair<T>)
    ensures
        p.cond() ==> p.true_side() == p.first() && p.false_side() == p.second(),
        !p.cond() ==> p.true_side() == p.second() && p.false_side() == p.first(),
{
}

/// Recomputing the condition to its opposite swaps the two roles and keeps
/// the values.
pub proof fn lemma_flip_swaps_roles<T>(p: CondPair<T>, q: CondPair<T>)
    requires
        q.first() == p.first(),
        q.second() == p.second(),
        q.cond() != p.cond(),
    ensures
        q.true_side() == p.false_side(),
        q.false_side() == p.true_side(),
{
}

/// Through any sequence of pairs each of which keeps the values of the one
/// before (as `update_cond` and the getters do), the values stay those of the
/// first, in the same order, whatever the condition becomes.
pub proof fn lemma_updates_keep_values<T>(pairs: Seq<CondPair<T>>)
    requires
        pairs.len() > 0,
        forall|i: int|
            0 < i < pairs.len() ==> #[trigger] pairs[i].first() == pairs[i - 1].first()
                && pairs[i].second() == pairs[i - 1].second(),
    ensures
        forall|i: int|
            0 <= i < pairs.len() ==> #[trigger] pairs[i].first() == pairs[0].first()
                && pairs[i].second() == pairs[0].second(),
    decreases pairs.len(),
{
    if pairs.len() > 1 {
        let p = pairs.drop_last();
        assert forall|i: int| 0 < i < p.len() implies #[trigger] p[i].first() == p[i - 1].first()
            && p[i].second() == p[i - 1].second() by {
            assert(pairs[i].first() == pairs[i - 1].first());
        }
        lemma_updates_keep_values(p);
        assert forall|i: int| 0 <= i < pairs.len() implies #[trigger] pairs[i].first()
            == pairs[0].first() && pairs[i].second() == pairs[0].second() by {
            if i < p.len() {
                assert(p[i].first() == p[0].first());
            } else {
                assert(p[i - 1].first() == p[0].first());
                assert(pairs[i].first() == pairs[i - 1].first());
            }
        }
    }
}

} // verus!
