use vstd::prelude::*;

use crate::series::{deref_slot, last_present, Series};
use crate::Indicator;

verus! {

/// An indicator that owns another and, on every observation, feeds it and
/// turns its newest slot into one of its own: a value through `map` where the
/// inner indicator gave one, an absence where it did not.
pub struct Mapped<I, U, G> {
    inner: I,
    values: Series<U>,
    map: G,
}

impl<I: Indicator, U, G: Fn(&I::Output) -> U> Mapped<I, U, G> {
    pub closed spec fn inner(&self) -> I {
        self.inner
    }

    pub closed spec fn map(&self) -> G {
        self.map
    }

    pub closed spec fn values(&self) -> Seq<Option<U>> {
        self.values@
    }

    pub open spec fn slot_ok(&self, i: int) -> bool {
        match self.inner().slots()[i] {
            None => self.values()[i] is None,
            Some(o) => self.values()[i] matches Some(v) && call_ensures(self.map(), (&o,), v),
        }
    }

    pub open spec fn wf(&self) -> bool {
        &&& self.inner().inv()
        &&& self.values().len() == self.inner().slots().len()
        &&& forall|o: &I::Output| #[trigger] self.map().requires((o,))
        &&& forall|i: int| 0 <= i < self.values().len() ==> #[trigger] self.slot_ok(i)
    }

    /// Wraps `inner`, which must not have been fed yet.
    pub fn new(inner: I, map: G) -> (r: Self)
        requires
            inner.inv(),
            inner.slots().len() == 0,
            forall|o: &I::Output| #[trigger] map.requires((o,)),
        ensures
            r.wf(),
            r.inner() == inner,
            r.map() == map,
            r.values().len() == 0,
    {
        Mapped { inner, values: Series::new(), map }
    }

    /// The owned indicator.
    pub fn inner_ref(&self) -> (r: &I)
        ensures
            *r == self.inner(),
    {
        &self.inner
    }
}

impl<I: Indicator, U, G: Fn(&I::Output) -> U> Indicator for Mapped<I, U, G> {
    type Input = I::Input;
    type Output = U;

    open spec fn inv(&self) -> bool {
        self.wf()
    }

    open spec fn inputs(&self) -> Seq<I::Input> {
        self.inner().inputs()
    }

    open spec fn same_setup(&self, other: &Self) -> bool {
        self.inner().same_setup(&other.inner()) && self.map() == other.map()
    }

    open spec fn slots(&self) -> Seq<Option<U>> {
        self.values()
    }

    proof fn lemma_slot_per_feed(&self) {
        self.inner().lemma_slot_per_feed();
    }

    proof fn lemma_same_setup_refl(&self) {
        self.inner().lemma_same_setup_refl();
    }

    proof fn lemma_same_setup_trans(&self, b: &Self, c: &Self) {
        self.inner().lemma_same_setup_trans(&b.inner(), &c.inner());
    }

    fn feed(&mut self, input: I::Input) {
        let ghost old_vals = self.values@;
        let ghost old_inner = self.inner;
        self.inner.feed(input);
        let slot = match self.inner.last() {
            Some(o) => {
                proof {
                    assert(old(self).map().requires((o,)));
                }
                Some((self.map)(o))
            },
            None => None,
        };
        self.values.push(slot);
        proof {
            let n = old_vals.len() as int;
            assert forall|i: int| 0 <= i < self.values().len() implies #[trigger] self.slot_ok(
                i,
            ) by {
                if i < n {
                    assert(old(self).slot_ok(i));
                    assert(self.inner.slots()[i] == old_inner.slots().subrange(0, n)[i]);
                    assert(self.values@[i] == old_vals[i]);
                }
            }
            assert forall|o: &I::Output| #[trigger] self.map().requires((o,)) by {
                assert(old(self).map().requires((o,)));
            }
            assert(self.values@.subrange(0, n) =~= old_vals);
        }
    }

    fn last(&self) -> (r: Option<&U>) {
        self.values.last()
    }

    fn iter(&self) -> (r: &[Option<U>]) {
        self.values.iter()
    }
}

/// The pairs of the `i`-th observations of `a` and of `b`.
pub open spec fn zip_inputs<X, Y>(a: Seq<X>, b: Seq<Y>) -> Seq<(X, Y)> {
    Seq::new(a.len(), |i: int| (a[i], b[i]))
}

/// An indicator that owns two others, feeds each its half of every paired
/// observation in lockstep, and combines their newest slots: a value through
/// `combine` where both gave one, an absence otherwise.
pub struct Paired<A, B, U, G> {
    first: A,
    second: B,
    values: Series<U>,
    combine: G,
}

impl<A: Indicator, B: Indicator, U, G: Fn(&A::Output, &B::Output) -> U> Paired<A, B, U, G> {
    pub closed spec fn first(&self) -> A {
        self.first
    }

    pub closed spec fn second(&self) -> B {
        self.second
    }

    pub closed spec fn combine(&self) -> G {
        self.combine
    }

    pub closed spec fn values(&self) -> Seq<Option<U>> {
        self.values@
    }

    pub open spec fn slot_ok(&self, i: int) -> bool {
        match (self.first().slots()[i], self.second().slots()[i]) {
            (Some(a), Some(b)) => self.values()[i] matches Some(v) && call_ensures(
                self.combine(),
                (&a, &b),
                v,
            ),
            _ => self.values()[i] is None,
        }
    }

    pub open spec fn wf(&self) -> bool {
        &&& self.first().inv()
        &&& self.second().inv()
        &&& self.values().len() == self.first().slots().len()
        &&& self.values().len() == self.second().slots().len()
        &&& self.first().inputs().len() == self.second().inputs().len()
        &&& forall|a: &A::Output, b: &B::Output| #[trigger] self.combine().requires((a, b))
        &&& forall|i: int| 0 <= i < self.values().len() ==> #[trigger] self.slot_ok(i)
    }

    /// Pairs `first` and `second`, neither of which may have been fed yet.
    pub fn new(first: A, second: B, combine: G) -> (r: Self)
        requires
            first.inv(),
            second.inv(),
            first.slots().len() == 0,
            second.slots().len() == 0,
            forall|a: &A::Output, b: &B::Output| #[trigger] combine.requires((a, b)),
        ensures
            r.wf(),
            r.first() == first,
            r.second() == second,
            r.combine() == combine,
            r.values().len() == 0,
    {
        proof {
            first.lemma_slot_per_feed();
            second.lemma_slot_per_feed();
        }
        Paired { first, second, values: Series::new(), combine }
    }
}

impl<A: Indicator, B: Indicator, U, G: Fn(&A::Output, &B::Output) -> U> Indicator for Paired<
    A,
    B,
    U,
    G,
> {
    type Input = (A::Input, B::Input);
    type Output = U;

    open spec fn inv(&self) -> bool {
        self.wf()
    }

    open spec fn inputs(&self) -> Seq<(A::Input, B::Input)> {
        zip_inputs(self.first().inputs(), self.second().inputs())
    }

    open spec fn same_setup(&self, other: &Self) -> bool {
        &&& self.first().same_setup(&other.first())
        &&& self.second().same_setup(&other.second())
        &&& self.combine() == other.combine()
    }

    open spec fn slots(&self) -> Seq<Option<U>> {
        self.values()
    }

    proof fn lemma_slot_per_feed(&self) {
        self.first().lemma_slot_per_feed();
    }

    proof fn lemma_same_setup_refl(&self) {
        self.first().lemma_same_setup_refl();
        self.second().lemma_same_setup_refl();
    }

    proof fn lemma_same_setup_trans(&self, b: &Self, c: &Self) {
        self.first().lemma_same_setup_trans(&b.first(), &c.first());
        self.second().lemma_same_setup_trans(&b.second(), &c.second());
    }

    fn feed(&mut self, input: (A::Input, B::Input)) {
        let ghost old_vals = self.values@;
        let ghost old_first = self.first;
        let ghost old_second = self.second;
        let (x, y) = input;
        self.first.feed(x);
        self.second.feed(y);
        let slot = match (self.first.last(), self.second.last()) {
            (Some(a), Some(b)) => {
                proof {
                    assert(old(self).combine().requires((a, b)));
                }
                Some((self.combine)(a, b))
            },
            _ => None,
        };
        self.values.push(slot);
        proof {
            let n = old_vals.len() as int;
            assert forall|i: int| 0 <= i < self.values().len() implies #[trigger] self.slot_ok(
                i,
            ) by {
                if i < n {
                    assert(old(self).slot_ok(i));
                    assert(self.first.slots()[i] == old_first.slots().subrange(0, n)[i]);
                    assert(self.second.slots()[i] == old_second.slots().subrange(0, n)[i]);
                    assert(self.values@[i] == old_vals[i]);
                }
            }
            assert forall|a: &A::Output, b: &B::Output| #[trigger] self.combine().requires(
                (a, b),
            ) by {
                assert(old(self).combine().requires((a, b)));
            }
            assert(self.values@.subrange(0, n) =~= old_vals);
            assert(zip_inputs(self.first.inputs(), self.second.inputs()) =~= zip_inputs(
                old_first.inputs(),
                old_second.inputs(),
            ).push((x, y)));
        }
    }

    fn last(&self) -> (r: Option<&U>) {
        self.values.last()
    }

    fn iter(&self) -> (r: &[Option<U>]) {
        self.values.iter()
    }
}

/// An indicator that owns two others over the same observations: every
/// observation goes to both, and their newest slots are combined as in
/// `Paired`.
pub struct Shared<A, B, U, G> {
    pair: Paired<A, B, U, G>,
}

impl<
    X: Copy,
    A: Indicator<Input = X>,
    B: Indicator<Input = X>,
    U,
    G: Fn(&A::Output, &B::Output) -> U,
> Shared<A, B, U, G> {
    pub closed spec fn pair(&self) -> Paired<A, B, U, G> {
        self.pair
    }

    pub open spec fn wf(&self) -> bool {
        &&& self.pair().wf()
        &&& self.pair().first().inputs() == self.pair().second().inputs()
    }

    /// Pairs `first` and `second`, neither of which may have been fed yet.
    pub fn new(first: A, second: B, combine: G) -> (r: Self)
        requires
            first.inv(),
            second.inv(),
            first.slots().len() == 0,
            second.slots().len() == 0,
            forall|a: &A::Output, b: &B::Output| #[trigger] combine.requires((a, b)),
        ensures
            r.wf(),
            r.pair().first() == first,
            r.pair().second() == second,
            r.pair().combine() == combine,
            r.pair().values().len() == 0,
    {
        proof {
            first.lemma_slot_per_feed();
            second.lemma_slot_per_feed();
        }
        let pair = Paired::new(first, second, combine);
        proof {
            assert(pair.first().inputs() =~= pair.second().inputs());
        }
        Shared { pair }
    }
}

impl<
    X: Copy,
    A: Indicator<Input = X>,
    B: Indicator<Input = X>,
    U,
    G: Fn(&A::Output, &B::Output) -> U,
> Indicator for Shared<A, B, U, G> {
    type Input = X;
    type Output = U;

    open spec fn inv(&self) -> bool {
        self.wf()
    }

    open spec fn inputs(&self) -> Seq<X> {
        self.pair().first().inputs()
    }

    open spec fn same_setup(&self, other: &Self) -> bool {
        self.pair().same_setup(&other.pair())
    }

    open spec fn slots(&self) -> Seq<Option<U>> {
        self.pair().values()
    }

    proof fn lemma_slot_per_feed(&self) {
        self.pair().first().lemma_slot_per_feed();
    }

    proof fn lemma_same_setup_refl(&self) {
        self.pair().lemma_same_setup_refl();
    }

    proof fn lemma_same_setup_trans(&self, b: &Self, c: &Self) {
        self.pair().lemma_same_setup_trans(&b.pair(), &c.pair());
    }

    fn feed(&mut self, input: X) {
        let ghost before = self.pair().first().inputs();
        self.pair.feed((input, input));
        proof {
            let a = self.pair().first().inputs();
            let b = self.pair().second().inputs();
            let z = zip_inputs(before, before).push((input, input));
            assert(self.pair.inputs() == zip_inputs(a, b));
            assert(old(self).pair.inputs() == zip_inputs(before, before));
            assert(zip_inputs(a, b) == z);
            assert(zip_inputs(a, b).len() == a.len());
            assert(z.len() == before.len() + 1);
            assert(a.len() == before.len() + 1);
            assert forall|i: int| 0 <= i < a.len() implies a[i] == before.push(input)[i] && b[i]
                == before.push(input)[i] by {
                assert(zip_inputs(a, b)[i] == (a[i], b[i]));
                if i < before.len() {
                    assert(z[i] == zip_inputs(before, before)[i]);
                    assert(zip_inputs(before, before)[i] == (before[i], before[i]));
                } else {
                    assert(z[i] == (input, input));
                }
            }
            assert(a =~= before.push(input));
            assert(b =~= before.push(input));
        }
    }

    fn last(&self) -> (r: Option<&U>) {
        self.pair.last()
    }

    fn iter(&self) -> (r: &[Option<U>]) {
        self.pair.iter()
    }
}

/// The observation before the `i`-th one of `s`, none for the first.
pub open spec fn previous_of<'a, T>(s: &'a Seq<T>, i: int) -> Option<&'a T> {
    if i == 0 {
        None
    } else {
        Some(&s[i - 1])
    }
}

/// An indicator over the steps between consecutive observations: each
/// observation, with the one before it (none for the first), is turned by
/// `step` into the observation its owned indicator is fed.
pub struct Stepped<T, I, D> {
    previous: Option<T>,
    inner: I,
    step: D,
    seen: Ghost<Seq<T>>,
}

impl<T: Copy, I: Indicator, D: Fn(Option<&T>, &T) -> I::Input> Stepped<T, I, D> {
    pub closed spec fn inner(&self) -> I {
        self.inner
    }

    pub closed spec fn step(&self) -> D {
        self.step
    }

    /// The observations fed so far, oldest first.
    pub closed spec fn seen(&self) -> Seq<T> {
        self.seen@
    }

    pub open spec fn wf(&self) -> bool {
        &&& self.inner().inv()
        &&& self.seen().len() == self.inner().inputs().len()
        &&& self.previous_kept()
        &&& forall|p: Option<&T>, x: &T| #[trigger] self.step().requires((p, x))
        &&& forall|i: int|
            0 <= i < self.seen().len() ==> call_ensures(
                self.step(),
                (previous_of(&self.seen(), i), &self.seen()[i]),
                #[trigger] self.inner().inputs()[i],
            )
    }

    pub closed spec fn previous_kept(&self) -> bool {
        self.previous == (if self.seen@.len() == 0 {
            None
        } else {
            Some(self.seen@.last())
        })
    }

    /// Wraps `inner`, which must not have been fed yet.
    pub fn new(inner: I, step: D) -> (r: Self)
        requires
            inner.inv(),
            inner.inputs().len() == 0,
            forall|p: Option<&T>, x: &T| #[trigger] step.requires((p, x)),
        ensures
            r.wf(),
            r.inner() == inner,
            r.step() == step,
            r.seen().len() == 0,
    {
        Stepped { previous: None, inner, step, seen: Ghost(Seq::empty()) }
    }
}

impl<T: Copy, I: Indicator, D: Fn(Option<&T>, &T) -> I::Input> Indicator for Stepped<T, I, D> {
    type Input = T;
    type Output = I::Output;

    open spec fn inv(&self) -> bool {
        self.wf()
    }

    open spec fn inputs(&self) -> Seq<T> {
        self.seen()
    }

    open spec fn same_setup(&self, other: &Self) -> bool {
        self.inner().same_setup(&other.inner()) && self.step() == other.step()
    }

    open spec fn slots(&self) -> Seq<Option<I::Output>> {
        self.inner().slots()
    }

    proof fn lemma_slot_per_feed(&self) {
        self.inner().lemma_slot_per_feed();
    }

    proof fn lemma_same_setup_refl(&self) {
        self.inner().lemma_same_setup_refl();
    }

    proof fn lemma_same_setup_trans(&self, b: &Self, c: &Self) {
        self.inner().lemma_same_setup_trans(&b.inner(), &c.inner());
    }

    fn feed(&mut self, input: T) {
        let ghost old_seen = self.seen@;
        let ghost old_inner = self.inner;
        let p: Option<&T> = match &self.previous {
            Some(v) => Some(v),
            None => None,
        };
        proof {
            assert(old(self).step().requires((p, &input)));
            assert(p == previous_of(&old_seen.push(input), old_seen.len() as int));
        }
        let s = (self.step)(p, &input);
        self.inner.feed(s);
        self.previous = Some(input);
        self.seen = Ghost(old_seen.push(input));
        proof {
            let n = old_seen.len() as int;
            assert forall|i: int| 0 <= i < self.seen().len() implies call_ensures(
                self.step(),
                (previous_of(&self.seen(), i), &self.seen()[i]),
                #[trigger] self.inner().inputs()[i],
            ) by {
                if i < n {
                    assert(previous_of(&self.seen(), i) == previous_of(&old_seen, i));
                    assert(self.inner().inputs()[i] == old_inner.inputs()[i]);
                }
            }
            assert forall|q: Option<&T>, x: &T| #[trigger] self.step().requires((q, x)) by {
                assert(old(self).step().requires((q, x)));
            }
        }
    }

    fn last(&self) -> (r: Option<&I::Output>) {
        self.inner.last()
    }

    fn iter(&self) -> (r: &[Option<I::Output>]) {
        self.inner.iter()
    }
}

/// A composite holds a value exactly where its inner indicator does.
pub proof fn lemma_mapped_presence<I: Indicator, U, G: Fn(&I::Output) -> U>(
    m: &Mapped<I, U, G>,
    i: int,
)
    requires
        m.wf(),
        0 <= i < m.values().len(),
    ensures
        m.values()[i] is Some <==> m.inner().slots()[i] is Some,
{
    assert(m.slot_ok(i));
}

/// A pair holds a value exactly where both of its indicators do.
pub proof fn lemma_paired_presence<A: Indicator, B: Indicator, U, G: Fn(&A::Output, &B::Output) -> U>(
    p: &Paired<A, B, U, G>,
    i: int,
)
    requires
        p.wf(),
        0 <= i < p.values().len(),
    ensures
        p.values()[i] is Some <==> (p.first().slots()[i] is Some && p.second().slots()[i] is Some),
{
    assert(p.slot_ok(i));
}

} // verus!
