use vstd::prelude::*;
use vstd::slice::slice_subrange;

verus! {

/// The observations fed to one indicator, in the order in which they came,
/// with the length of the trailing window the indicator reads.
pub struct History<T> {
    freq: usize,
    input: Vec<T>,
}

/// The trailing window of `freq` observations of `s`.
pub open spec fn trailing<T>(s: Seq<T>, freq: nat) -> Seq<T> {
    s.subrange(s.len() - freq, s.len() as int)
}

impl<T> History<T> {
    /// The observations recorded so far, oldest first.
    pub closed spec fn observations(&self) -> Seq<T> {
        self.input@
    }

    /// The window length this history was made with.
    pub closed spec fn window_len(&self) -> nat {
        self.freq as nat
    }

    pub open spec fn inv(&self) -> bool {
        self.window_len() > 0
    }

    pub open spec fn spec_is_full(&self) -> bool {
        self.observations().len() >= self.window_len()
    }

    pub fn new(freq: usize) -> (r: Self)
        requires
            freq > 0,
        ensures
            r.inv(),
            r.window_len() == freq,
            r.observations() == Seq::<T>::empty(),
    {
        History { freq, input: Vec::new() }
    }

    pub fn freq(&self) -> (r: usize)
        ensures
            r == self.window_len(),
    {
        self.freq
    }

    pub fn len(&self) -> (r: usize)
        ensures
            r == self.observations().len(),
    {
        self.input.len()
    }

    /// Appends one observation; earlier ones are kept as they were.
    pub fn record(&mut self, x: T)
        ensures
            final(self).observations() == old(self).observations().push(x),
            final(self).window_len() == old(self).window_len(),
    {
        self.input.push(x);
    }

    /// Whether at least a full window of observations has been recorded.
    pub fn is_full(&self) -> (r: bool)
        ensures
            r == self.spec_is_full(),
    {
        self.input.len() >= self.freq
    }

    /// The trailing window: the last `freq` observations, oldest first.
    pub fn window(&self) -> (r: &[T])
        requires
            self.spec_is_full(),
        ensures
            r@ == trailing(self.observations(), self.window_len()),
    {
        let n = self.input.len();
        slice_subrange(self.input.as_slice(), n - self.freq, n)
    }
}

} // verus!
