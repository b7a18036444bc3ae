//! The schedule of interpolation-based model checking: at each depth the
//! bounded problem is split into an `A` part (the initial states and the
//! steps before the last) and a `B` part (the last step and the bad
//! state), whose interpolant the engine computes when the problem has no
//! solution.
use crate::args::Args;
use vstd::prelude::*;

verus! {

/// The part of an interpolation problem a clause belongs to.
#[derive(Clone, Copy, Debug, PartialEq, Eq, Structural)]
pub enum ClauseLabel {
    A,
    B,
}

/// Interpolation-based model checking.
pub struct IMC {
    pub args: Args,
    /// The depth of the next bounded problem.
    pub depth: usize,
}

impl IMC {
    /// The checker for `args`, at depth zero.
    pub fn new(args: Args) -> (m: IMC)
        ensures
            m.args == args,
            m.depth == 0,
    {
        IMC { args, depth: 0 }
    }

    /// The part of the current problem that the clauses of step `u` of
    /// the unrolling belong to: the steps before the current depth go to
    /// `A`, the last one to `B`.
    pub fn step_label(&self, u: usize) -> (l: ClauseLabel)
        ensures
            u < self.depth ==> l == ClauseLabel::A,
            u >= self.depth ==> l == ClauseLabel::B,
    {
        if u < self.depth {
            ClauseLabel::A
        } else {
            ClauseLabel::B
        }
    }

    /// Takes whether the current problem has a solution: one that has is a
    /// counterexample (`Some(true)`); otherwise the next problem is one
    /// step deeper.
    pub fn answer(&mut self, sat: bool) -> (r: Option<bool>)
        requires
            old(self).depth < usize::MAX,
        ensures
            final(self).args == old(self).args,
            sat ==> r == Some(true) && final(self).depth == old(self).depth,
            !sat ==> r is None && final(self).depth == old(self).depth + 1,
    {
        if sat {
            Some(true)
        } else {
            self.depth = self.depth + 1;
            None
        }
    }
}

} // verus!
