//! The schedule of k-induction: at each depth `k` a bounded check of depth
//! `k - 1` and an induction check of depth `k`. The caller loads the
//! unrolled transition system into the SAT solver as each round says, runs
//! the solver and hands the answers back.
use crate::options::Options;
use vstd::prelude::*;

verus! {

/// The work of one round of k-induction at depth `k`, with `step` the
/// step length and `b = k - 1` the depth of the bounded check.
#[derive(Clone, Copy, Debug, PartialEq, Eq, Structural)]
pub struct KindRound {
    /// Start from a fresh solver (kissat), which first gets the transition
    /// relation of steps `0..load_from` and, when `block_to` is given, the
    /// negated bad state of steps `0..=block_to`.
    pub fresh_solver: bool,
    pub block_to: Option<usize>,
    /// Load the transition relation of steps `load_from..=load_to` (`b`).
    pub load_from: usize,
    pub load_to: usize,
    /// Unless checks are off, solve the initial states with the bad state
    /// at this depth (`b`) assumed: a solution is a counterexample.
    pub bmc_depth: Option<usize>,
    /// Then add the negated bad state of steps `assume_from..=load_to`,
    /// load the transition relation of step `depth`, and solve with the bad
    /// state at `depth`: as unit clauses on a fresh solver, else as
    /// assumptions. No solution proves the property.
    pub assume_from: usize,
    pub depth: usize,
    pub bad_as_units: bool,
}

/// k-induction.
pub struct Kind {
    pub options: Options,
    /// The depth of the current round.
    pub k: usize,
}

impl Kind {
    /// The engine for `options`, at depth `step`.
    pub fn new(options: Options) -> (r: Kind)
        requires
            options.step >= 1,
        ensures
            r.options == options,
            r.k == options.step,
    {
        let k = options.step as usize;
        Kind { options, k }
    }

    /// The round at the current depth.
    pub fn round(&self) -> (r: KindRound)
        requires
            self.options.step >= 1,
            self.k >= self.options.step,
        ensures
            r.fresh_solver == self.options.kind.kind_kissat,
            r.bad_as_units == self.options.kind.kind_kissat,
            r.load_to == self.k - 1,
            r.load_from == self.k + 1 - self.options.step,
            r.assume_from == self.k - self.options.step,
            r.depth == self.k,
            r.bmc_depth == if self.options.kind.no_bmc {
                None
            } else {
                Some((self.k - 1) as usize)
            },
            r.block_to == if self.options.kind.kind_kissat && self.k - 1 >= self.options.step {
                Some((self.k - 1 - self.options.step) as usize)
            } else {
                None
            },
    {
        let step = self.options.step as usize;
        let k = self.k;
        let bmc_k = k - 1;
        let start = k - (step - 1);
        let fresh = self.options.kind.kind_kissat;
        let block_to = if fresh && bmc_k >= step {
            Some(bmc_k - step)
        } else {
            None
        };
        let bmc_depth = if self.options.kind.no_bmc {
            None
        } else {
            Some(bmc_k)
        };
        KindRound {
            fresh_solver: fresh,
            block_to,
            load_from: start,
            load_to: bmc_k,
            bmc_depth,
            assume_from: k - step,
            depth: k,
            bad_as_units: fresh,
        }
    }

    /// The answer of the bounded check: a solution is a counterexample,
    /// so the model is unsafe.
    pub fn bmc_answer(&self, sat: bool) -> (r: Option<bool>)
        ensures
            sat ==> r == Some(false),
            !sat ==> r is None,
    {
        if sat {
            Some(false)
        } else {
            None
        }
    }

    /// The answer of the induction check: no solution proves the
    /// property; otherwise the next round is `step` deeper.
    pub fn induction_answer(&mut self, sat: bool) -> (r: Option<bool>)
        requires
            old(self).k + old(self).options.step <= usize::MAX,
        ensures
            final(self).options == old(self).options,
            !sat ==> r == Some(true) && final(self).k == old(self).k,
            sat ==> r is None && final(self).k == old(self).k + old(self).options.step,
    {
        if !sat {
            Some(true)
        } else {
            self.k = self.k + self.options.step as usize;
            None
        }
    }
}

} // verus!
