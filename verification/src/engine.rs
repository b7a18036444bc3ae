//! The interface every model checking engine offers.
use vstd::prelude::*;

verus! {

/// A model checking engine.
pub trait Engine {
    /// Runs the engine: `Some(true)` when the model is safe, `Some(false)`
    /// when it is not, `None` when the engine could not tell.
    fn check(&mut self) -> Option<bool>;

    /// Prints the engine's statistics.
    fn statistic(&mut self) {
    }
}

} // verus!
