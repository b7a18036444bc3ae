//! Command-line arguments of the parallel PDR front end.
use vstd::prelude::*;

verus! {

/// The arguments of the parallel PDR front end.
#[derive(Clone, Debug)]
pub struct Args {
    /// input aiger file
    pub model: Option<String>,
    /// verbose
    pub verbose: bool,
    /// number of workers
    pub parallel: usize,
    /// counterexample to propagation
    pub ctp: bool,
    /// the CAV'23 variant
    pub cav23: bool,
}

impl Args {
    /// The arguments when none is given: one worker, everything off.
    pub fn new() -> (a: Args)
        ensures
            a.model is None,
            !a.verbose && !a.ctp && !a.cav23,
            a.parallel == 1,
    {
        Args { model: None, verbose: false, parallel: 1, ctp: false, cav23: false }
    }
}

} // verus!
