use vstd::prelude::*;

pub mod composite;
pub mod drawdown;
pub mod history;
pub mod mode;
pub mod rolling;
pub mod series;

use crate::series::{deref_slot, last_present};

verus! {

/// A streaming transform: observations go in one at a time, and each one
/// produces exactly one slot of output, a value or an absence.
pub trait Indicator {
    type Input;
    type Output;

    /// What the indicator keeps true between calls.
    spec fn inv(&self) -> bool;

    /// The observations fed so far, oldest first.
    spec fn inputs(&self) -> Seq<Self::Input>;

    /// `self` was built with the same configuration as `other`: the same
    /// window lengths, statistics and owned indicators' configurations.
    spec fn same_setup(&self, other: &Self) -> bool;

    /// The derived value sequence, oldest slot first.
    spec fn slots(&self) -> Seq<Option<Self::Output>>;

    /// There is one slot per observation fed.
    proof fn lemma_slot_per_feed(&self)
        requires
            self.inv(),
        ensures
            self.slots().len() == self.inputs().len(),
    ;

    proof fn lemma_same_setup_refl(&self)
        ensures
            self.same_setup(self),
    ;

    proof fn lemma_same_setup_trans(&self, b: &Self, c: &Self)
        requires
            self.same_setup(b),
            b.same_setup(c),
        ensures
            self.same_setup(c),
    ;

    /// Records one observation and appends one slot; the earlier slots and
    /// the configuration stay as they were.
    fn feed(&mut self, input: Self::Input)
        requires
            old(self).inv(),
        ensures
            final(self).inv(),
            final(self).inputs() == old(self).inputs().push(input),
            final(self).same_setup(old(self)),
            final(self).slots().len() == old(self).slots().len() + 1,
            final(self).slots().subrange(0, old(self).slots().len() as int) == old(self).slots(),
    ;

    /// The most recent slot's value, or absence.
    fn last(&self) -> (r: Option<&Self::Output>)
        requires
            self.inv(),
        ensures
            deref_slot(r) == last_present(self.slots()),
    ;

    /// Every slot so far, oldest first.
    fn iter(&self) -> (r: &[Option<Self::Output>])
        requires
            self.inv(),
        ensures
            r@ == self.slots(),
    ;
}

/// Feeds every observation of `xs` to `indicator`, oldest first.
pub fn feed_all<I: Indicator>(indicator: &mut I, xs: &[I::Input])
    where
        I::Input: Copy,
    requires
        old(indicator).inv(),
    ensures
        final(indicator).inv(),
        final(indicator).inputs() == old(indicator).inputs() + xs@,
        final(indicator).same_setup(old(indicator)),
        final(indicator).slots().len() == old(indicator).slots().len() + xs@.len(),
        final(indicator).slots().subrange(0, old(indicator).slots().len() as int) == old(
            indicator,
        ).slots(),
{
    let ghost start = *indicator;
    proof {
        start.lemma_same_setup_refl();
    }
    let mut k: usize = 0;
    while k < xs.len()
        invariant
            k <= xs@.len(),
            indicator.inv(),
            indicator.inputs() == start.inputs() + xs@.subrange(0, k as int),
            indicator.same_setup(&start),
            indicator.slots().len() == start.slots().len() + k,
            indicator.slots().subrange(0, start.slots().len() as int) == start.slots(),
        decreases xs@.len() - k,
    {
        let ghost before = *indicator;
        let x = xs[k];
        indicator.feed(x);
        proof {
            indicator.lemma_same_setup_trans(&before, &start);
            assert(xs@.subrange(0, k + 1) =~= xs@.subrange(0, k as int).push(x));
            assert(indicator.inputs() =~= start.inputs() + xs@.subrange(0, k + 1));
            assert(indicator.slots().subrange(0, start.slots().len() as int) =~= before.slots().subrange(
                0,
                start.slots().len() as int,
            ));
        }
        k = k + 1;
    }
    proof {
        assert(xs@.subrange(0, xs@.len() as int) =~= xs@);
    }
}

/// Something that yields a value when borrowed.
pub trait Value<'a> {
    type Output;

    fn value(&'a self) -> Self::Output;
}

} // verus!
