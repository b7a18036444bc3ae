//! The schedule of bounded model checking: which bounded check comes next,
//! and what an answer of the SAT solver means. The caller builds each
//! check over the unrolled transition system, runs the solver and hands
//! the answer back.
use crate::options::Options;
use vstd::prelude::*;

verus! {

/// A bounded check for the SAT solver.
#[derive(Clone, Copy, Debug, PartialEq, Eq, Structural)]
pub enum BmcQuery {
    /// On the one incremental solver: load the transition relation of the
    /// steps `from..=depth`, then solve assuming the initial states and
    /// the bad state at `depth`.
    Incremental { from: usize, depth: usize },
    /// On a fresh solver: load the initial states, the transition relation
    /// of the steps `0..=depth` and the bad state at `depth`, then solve,
    /// within `time_limit` seconds when one is given.
    Fresh { depth: usize, time_limit: Option<u64> },
}

/// What the SAT solver answered.
#[derive(Clone, Copy, Debug, PartialEq, Eq, Structural)]
pub enum BmcAnswer {
    /// A path to a bad state exists.
    Sat,
    /// No path of this length reaches a bad state.
    Unsat,
    /// The time limit ran out.
    Timeout,
}

/// Bounded model checking.
pub struct BMC {
    pub options: Options,
    /// The depth of the next check.
    pub depth: usize,
}

impl BMC {
    /// The first depth: `step` on fresh solvers, `step - 1` on the
    /// incremental one.
    pub open spec fn first_depth(options: Options) -> int {
        if options.bmc.bmc_kissat {
            options.step as int
        } else {
            options.step - 1
        }
    }

    /// The checker for `options`, at its first depth.
    pub fn new(options: Options) -> (b: BMC)
        requires
            options.step >= 1,
        ensures
            b.options == options,
            b.depth == Self::first_depth(options),
    {
        let depth = if options.bmc.bmc_kissat {
            options.step as usize
        } else {
            (options.step - 1) as usize
        };
        BMC { options, depth }
    }

    /// The check at the current depth: on the incremental solver, the
    /// steps since the last check; on a fresh one, all of them.
    pub fn query(&self) -> (q: BmcQuery)
        requires
            self.options.step >= 1,
            self.depth + 1 >= self.options.step,
        ensures
            self.options.bmc.bmc_kissat ==> q == (BmcQuery::Fresh {
                depth: self.depth,
                time_limit: self.options.bmc.time_limit,
            }),
            !self.options.bmc.bmc_kissat ==> q == (BmcQuery::Incremental {
                from: (self.depth + 1 - self.options.step) as usize,
                depth: self.depth,
            }),
    {
        if self.options.bmc.bmc_kissat {
            BmcQuery::Fresh { depth: self.depth, time_limit: self.options.bmc.time_limit }
        } else {
            BmcQuery::Incremental { from: self.depth - (self.options.step as usize - 1), depth: self.depth }
        }
    }

    /// Takes the solver's answer to the current check: a satisfiable check
    /// is a counterexample, so the model is unsafe (`Some(false)`); after
    /// any other answer the next check is `step` deeper and there is no
    /// verdict yet.
    pub fn answer(&mut self, a: BmcAnswer) -> (r: Option<bool>)
        requires
            old(self).depth + old(self).options.step <= usize::MAX,
        ensures
            final(self).options == old(self).options,
            a == BmcAnswer::Sat ==> r == Some(false) && final(self).depth == old(self).depth,
            a != BmcAnswer::Sat ==> r is None && final(self).depth == old(self).depth + old(self).options.step,
    {
        if a == BmcAnswer::Sat {
            Some(false)
        } else {
            self.depth = self.depth + self.options.step as usize;
            None
        }
    }
}

} // verus!
