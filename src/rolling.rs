use vstd::prelude::*;

use crate::history::{trailing, History};
use crate::series::{deref_slot, last_present, Series};
use crate::Indicator;

verus! {

/// A windowed statistic: an aggregate applied, on every observation, to the
/// trailing window of `freq` observations. The aggregate is also handed the
/// number of observations recorded so far, which some statistics divide by.
pub struct Rolling<T, U, F> {
    history: History<T>,
    values: Series<U>,
    aggregate: F,
}

/// Whether `v` is a value that `f` may return for the window `w` after `n`
/// observations.
pub open spec fn aggregates_to<T, U, F: Fn(&[T], usize) -> U>(
    f: F,
    w: Seq<T>,
    n: nat,
    v: U,
) -> bool {
    exists|s: &[T]| #[trigger] s@ == w && call_ensures(f, (s, n as usize), v)
}

impl<T, U, F: Fn(&[T], usize) -> U> Rolling<T, U, F> {
    pub closed spec fn observations(&self) -> Seq<T> {
        self.history.observations()
    }

    pub closed spec fn window_len(&self) -> nat {
        self.history.window_len()
    }

    pub closed spec fn aggregate(&self) -> F {
        self.aggregate
    }

    pub closed spec fn values(&self) -> Seq<Option<U>> {
        self.values@
    }

    /// The slot produced by the `i`-th observation (counted from 0): absent
    /// before the window first fills, then what the aggregate gave for the
    /// window that ends at that observation.
    pub open spec fn slot_ok(&self, i: int) -> bool {
        match self.values()[i] {
            None => i + 1 < self.window_len(),
            Some(v) => i + 1 >= self.window_len() && aggregates_to(
                self.aggregate(),
                trailing(self.observations().subrange(0, i + 1), self.window_len()),
                (i + 1) as nat,
                v,
            ),
        }
    }

    pub open spec fn wf(&self) -> bool {
        &&& self.window_len() > 0
        &&& self.values().len() == self.observations().len()
        &&& forall|s: &[T], n: usize| #[trigger] self.aggregate().requires((s, n))
        &&& forall|i: int| 0 <= i < self.values().len() ==> #[trigger] self.slot_ok(i)
    }

    pub fn new(freq: usize, aggregate: F) -> (r: Self)
        requires
            freq > 0,
            forall|s: &[T], n: usize| #[trigger] aggregate.requires((s, n)),
        ensures
            r.wf(),
            r.window_len() == freq,
            r.aggregate() == aggregate,
            r.observations() == Seq::<T>::empty(),
            r.values() == Seq::<Option<U>>::empty(),
    {
        Rolling { history: History::new(freq), values: Series::new(), aggregate }
    }

    pub fn freq(&self) -> (r: usize)
        ensures
            r == self.window_len(),
    {
        self.history.freq()
    }

    /// The observations recorded so far, oldest first.
    pub fn history(&self) -> (r: &History<T>)
        ensures
            r.observations() == self.observations(),
            r.window_len() == self.window_len(),
    {
        &self.history
    }

    /// The most recent slot's value, or absence.
    pub fn last(&self) -> (r: Option<&U>)
        ensures
            deref_slot(r) == last_present(self.values()),
    {
        self.values.last()
    }

    /// Every slot so far, oldest first.
    pub fn iter(&self) -> (r: &[Option<U>])
        ensures
            r@ == self.values(),
    {
        self.values.iter()
    }

    /// Records `x`; appends the aggregate of the new trailing window once a
    /// full window exists, and an absence before.
    pub fn push(&mut self, x: T)
        requires
            old(self).wf(),
        ensures
            final(self).wf(),
            final(self).window_len() == old(self).window_len(),
            final(self).aggregate() == old(self).aggregate(),
            final(self).observations() == old(self).observations().push(x),
            final(self).values().subrange(0, old(self).values().len() as int) == old(
                self,
            ).values(),
            final(self).values().len() == old(self).values().len() + 1,
            final(self).values().last() is Some <==> final(self).observations().len()
                >= final(self).window_len(),
            final(self).values().last() matches Some(v) ==> aggregates_to(
                final(self).aggregate(),
                trailing(final(self).observations(), final(self).window_len()),
                final(self).observations().len(),
                v,
            ),
    {
        let ghost old_obs = self.observations();
        let ghost old_vals = self.values();
        self.history.record(x);
        let slot = if self.history.is_full() {
            let w = self.history.window();
            let n = self.history.len();
            proof {
                assert(old(self).aggregate().requires((w, n)));
            }
            let v = (self.aggregate)(w, n);
            proof {
                assert(aggregates_to(
                    self.aggregate,
                    trailing(self.observations(), self.window_len()),
                    n as nat,
                    v,
                ));
            }
            Some(v)
        } else {
            None
        };
        self.values.push(slot);
        proof {
            let obs = self.observations();
            assert(obs.subrange(0, obs.len() as int) =~= obs);
            assert forall|i: int| 0 <= i < self.values().len() implies #[trigger] self.slot_ok(
                i,
            ) by {
                if i < old_vals.len() {
                    assert(old(self).slot_ok(i));
                    assert(obs.subrange(0, i + 1) =~= old_obs.subrange(0, i + 1));
                    assert(self.values()[i] == old_vals[i]);
                }
            }
            assert(self.values().subrange(0, old_vals.len() as int) =~= old_vals);
            assert forall|s: &[T], n: usize| #[trigger] self.aggregate().requires((s, n)) by {
                assert(old(self).aggregate().requires((s, n)));
            }
        }
    }
}

impl<T, U, F: Fn(&[T], usize) -> U> Indicator for Rolling<T, U, F> {
    type Input = T;
    type Output = U;

    open spec fn inv(&self) -> bool {
        self.wf()
    }

    open spec fn inputs(&self) -> Seq<T> {
        self.observations()
    }

    open spec fn same_setup(&self, other: &Self) -> bool {
        self.window_len() == other.window_len() && self.aggregate() == other.aggregate()
    }

    open spec fn slots(&self) -> Seq<Option<U>> {
        self.values()
    }

    proof fn lemma_slot_per_feed(&self) {
    }

    proof fn lemma_same_setup_refl(&self) {
    }

    proof fn lemma_same_setup_trans(&self, b: &Self, c: &Self) {
    }

    fn feed(&mut self, input: T) {
        self.push(input);
    }

    fn last(&self) -> (r: Option<&U>) {
        self.values.last()
    }

    fn iter(&self) -> (r: &[Option<U>]) {
        self.values.iter()
    }
}


/// The first `freq - 1` slots of a windowed statistic are absences, and every
/// slot from the `freq`-th on holds a value.
pub proof fn lemma_warmup_then_present<T, U, F: Fn(&[T], usize) -> U>(
    r: &Rolling<T, U, F>,
    i: int,
)
    requires
        r.wf(),
        0 <= i < r.values().len(),
    ensures
        r.values()[i] is None <==> i < r.window_len() - 1,
{
    assert(r.slot_ok(i));
}

} // verus!
