use vstd::prelude::*;

verus! {

/// Returns compound: a window's returns are multiplied.
#[derive(Clone, Copy, Debug)]
pub struct Geometric;

/// Returns add up: a window's returns are averaged.
#[derive(Clone, Copy, Debug)]
pub struct Simple;

/// The compounding mode an annualized return is computed in.
#[derive(Clone, Copy, Debug, PartialEq, Eq, Structural)]
pub enum Mode {
    Geometric,
    Simple,
}

impl Geometric {
    pub fn mode(&self) -> (r: Mode)
        ensures
            r == Mode::Geometric,
    {
        Mode::Geometric
    }
}

impl Simple {
    pub fn mode(&self) -> (r: Mode)
        ensures
            r == Mode::Simple,
    {
        Mode::Simple
    }
}

} // verus!
