//! Command-line arguments of the IC3 front end.
use vstd::prelude::*;

verus! {

/// The arguments of the IC3 front end.
#[derive(Clone, Debug)]
pub struct Args {
    /// input aiger file
    pub model: Option<String>,
    /// verbose
    pub verbose: bool,
    /// verbose all
    pub verbose_all: bool,
    /// random seed
    pub random: Option<usize>,
    /// print witness
    pub witness: bool,
    /// verify
    pub verify: bool,
    /// save frames
    pub save_frames: bool,
}

impl Args {
    /// The arguments when none is given.
    pub fn new() -> (a: Args)
        ensures
            a.model is None,
            !a.verbose && !a.verbose_all && !a.witness && !a.verify && !a.save_frames,
            a.random is None,
    {
        Args {
            model: None,
            verbose: false,
            verbose_all: false,
            random: None,
            witness: false,
            verify: false,
            save_frames: false,
        }
    }
}

} // verus!
