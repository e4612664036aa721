//! What the solvers return: why they stopped.
use vstd::prelude::*;

verus! {

/// How a solver came to stop.
#[derive(Debug, Clone, Copy, PartialEq, Eq, Structural, Hash)]
pub enum Stop {
    /// A tolerance of the options was met.
    Converged,
    /// It took the most iterations allowed.
    Iterations,
    /// The observer asked it to.
    Observer,
    /// The subgradient method's direction vanished.
    Stationary,
}

impl Stop {
    /// Whether a tolerance stopped the solver.
    pub fn converged(self) -> (converged: bool)
        ensures
            converged == (self == Stop::Converged),
    {
        self == Stop::Converged
    }

    /// The name of the reason, as a report gives it.
    pub fn name(self) -> (name: &'static str)
        ensures
            name@ == stop_name(self),
    {
        match self {
            Stop::Converged => "converged",
            Stop::Iterations => "iterations",
            Stop::Observer => "observer",
            Stop::Stationary => "stationary",
        }
    }
}

/// The name of a reason to stop, as a report gives it.
pub open spec fn stop_name(stop: Stop) -> Seq<char> {
    match stop {
        Stop::Converged => "converged"@,
        Stop::Iterations => "iterations"@,
        Stop::Observer => "observer"@,
        Stop::Stationary => "stationary"@,
    }
}

} // verus!
