use vstd::prelude::*;

verus! {

/// The derived value sequence of an indicator: one slot per observation fed,
/// each slot a value or an explicit absence.
pub struct Series<U> {
    slots: Vec<Option<U>>,
}

impl<U> View for Series<U> {
    type V = Seq<Option<U>>;

    closed spec fn view(&self) -> Seq<Option<U>> {
        self.slots@
    }
}

/// The value of the last slot, if there is one and it is present.
pub open spec fn last_present<U>(s: Seq<Option<U>>) -> Option<U> {
    if s.len() == 0 {
        None
    } else {
        s.last()
    }
}

/// The value a borrowed slot refers to.
pub open spec fn deref_slot<U>(r: Option<&U>) -> Option<U> {
    match r {
        Some(v) => Some(*v),
        None => None,
    }
}

impl<U> Series<U> {
    pub fn new() -> (r: Self)
        ensures
            r@ == Seq::<Option<U>>::empty(),
    {
        Series { slots: Vec::new() }
    }

    pub fn len(&self) -> (r: usize)
        ensures
            r == self@.len(),
    {
        self.slots.len()
    }

    /// Appends one slot.
    pub fn push(&mut self, slot: Option<U>)
        ensures
            final(self)@ == old(self)@.push(slot),
    {
        self.slots.push(slot);
    }

    /// The most recent slot's value; absence when nothing was fed yet or the
    /// most recent slot is itself an absence.
    pub fn last(&self) -> (r: Option<&U>)
        ensures
            deref_slot(r) == last_present(self@),
    {
        let n = self.slots.len();
        if n == 0 {
            None
        } else {
            self.slots[n - 1].as_ref()
        }
    }

    /// Every slot, in the order in which they were produced.
    pub fn iter(&self) -> (r: &[Option<U>])
        ensures
            r@ == self@,
    {
        self.slots.as_slice()
    }
}

} // verus!
