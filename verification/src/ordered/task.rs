use vstd::prelude::*;

use core::cmp::Ordering;
use vstd::std_specs::cmp::{PartialEqSpec, PartialEqSpecImpl, PartialOrdSpec, PartialOrdSpecImpl};

verus! {

/// A value tagged with the position of the task it belongs to.
///
/// Tasks compare by id alone, and in reverse: the task with the smaller id
/// is the greater one, so that a max-first queue hands out the smallest id.
pub struct Task<T> {
    pub id: usize,
    pub item: T,
}

impl<T> Task<T> {
    pub fn new(id: usize, item: T) -> (r: Self)
        ensures
            r.id == id,
            r.item == item,
    {
        Self { id, item }
    }
}

impl<T> PartialEq for Task<T> {
    fn eq(&self, other: &Self) -> (r: bool) {
        self.id == other.id
    }
}

impl<T> PartialEqSpecImpl for Task<T> {
    open spec fn obeys_eq_spec() -> bool {
        true
    }

    open spec fn eq_spec(&self, other: &Self) -> bool {
        self.id == other.id
    }
}

impl<T> Eq for Task<T> {

}

impl<T> PartialOrd for Task<T> {
    fn partial_cmp(&self, other: &Self) -> (r: Option<Ordering>) {
        if other.id < self.id {
            Some(Ordering::Less)
        } else if other.id == self.id {
            Some(Ordering::Equal)
        } else {
            Some(Ordering::Greater)
        }
    }
}

impl<T> PartialOrdSpecImpl for Task<T> {
    open spec fn obeys_partial_cmp_spec() -> bool {
        true
    }

    open spec fn partial_cmp_spec(&self, other: &Self) -> Option<Ordering> {
        if other.id < self.id {
            Some(Ordering::Less)
        } else if other.id == self.id {
            Some(Ordering::Equal)
        } else {
            Some(Ordering::Greater)
        }
    }
}

/// Two tasks are equal exactly when their ids are, whatever they carry: a
/// call of `==` on two tasks returns whether their ids are equal (so it is
/// symmetric, and tasks with different ids differ).
pub proof fn lemma_task_eq<T>(a: Task<T>, b: Task<T>)
    ensures
        forall|r: bool| #[trigger] call_ensures(Task::<T>::eq, (&a, &b), r) ==> (r <==> a.id == b.id),
        PartialEqSpec::eq_spec(&a, &b) <==> a.id == b.id,
        PartialEqSpec::eq_spec(&a, &b) == PartialEqSpec::eq_spec(&b, &a),
{
}

/// Tasks compare by id alone and in reverse: `a.partial_cmp(&b)` is
/// `Some(Equal)` exactly when the ids are equal, `Some(Greater)` exactly when
/// `a`'s id is the smaller, and `Some(Less)` exactly when it is the larger;
/// it never answers `None`, and it agrees with `==`.
pub proof fn lemma_task_partial_cmp<T>(a: Task<T>, b: Task<T>)
    ensures
        forall|r: Option<Ordering>| #[trigger] call_ensures(Task::<T>::partial_cmp, (&a, &b), r) ==> {
            &&& r == Some(Ordering::Equal) <==> a.id == b.id
            &&& r == Some(Ordering::Greater) <==> a.id < b.id
            &&& r == Some(Ordering::Less) <==> a.id > b.id
        },
        PartialOrdSpec::partial_cmp_spec(&a, &b) == Some(Ordering::Equal) <==> a.id == b.id,
        PartialOrdSpec::partial_cmp_spec(&a, &b) == Some(Ordering::Greater) <==> a.id < b.id,
        PartialOrdSpec::partial_cmp_spec(&a, &b) == Some(Ordering::Less) <==> a.id > b.id,
        PartialOrdSpec::partial_cmp_spec(&a, &b) == Some(Ordering::Equal) <==> PartialEqSpec::eq_spec(&a, &b),
{
}

} // verus!
