//! Watch lists: for each literal, the clauses that watch its negation.
//!
//! A clause of two or more literals is watched by its first two literals.
//! The list of literal `q` holds one watcher for each clause that has the
//! negation of `q` in one of its two first positions, with a blocker: a
//! literal of the clause that, when true, spares the visit.
use crate::cdb::{Allocator, CRef};
use crate::lit::{lemma_negated, neg_code, Lit, Var, MAX_VAR};
use vstd::prelude::*;

verus! {

/// A watcher: the watching clause and its blocking literal.
#[derive(Clone, Copy, Debug, PartialEq, Eq, Structural)]
pub struct Watcher {
    pub clause: CRef,
    pub blocker: Lit,
}

impl Watcher {
    pub fn new(clause: CRef, blocker: Lit) -> (w: Watcher)
        ensures
            w.clause == clause,
            w.blocker == blocker,
    {
        Watcher { clause, blocker }
    }
}

/// A clause fit to be watched: it lies in the arena, has at least two
/// literals, all of them below `n` and pairwise distinct.
pub open spec fn watchable(a: &Allocator, c: CRef, n: nat) -> bool {
    &&& a.valid(c)
    &&& a.clause_len(c) >= 2
    &&& forall|k: int| 0 <= k < a.clause_len(c) ==> (#[trigger] a.lits(c)[k]).0 < n
    &&& forall|i: int, j: int|
        0 <= i < j < a.clause_len(c) ==> #[trigger] a.lits(c)[i] != #[trigger] a.lits(c)[j]
}

/// The watch lists, one per literal code.
pub struct Watchers {
    pub wtrs: Vec<Vec<Watcher>>,
}

impl Watchers {
    /// Every watcher in list `q` names a watchable clause whose first or
    /// second literal is the negation of `q`, and has a blocker below `n`;
    /// no list names a clause twice.
    pub open spec fn wf(&self, a: &Allocator) -> bool {
        &&& self.wtrs.len() % 2 == 0
        &&& self.wtrs.len() <= 2 * (MAX_VAR as int + 1)
        &&& forall|q: int, i: int|
            0 <= q < self.wtrs.len() && 0 <= i < self.wtrs@[q].len() ==> {
                let w = #[trigger] self.wtrs@[q]@[i];
                &&& watchable(a, w.clause, self.wtrs.len() as nat)
                &&& (a.lits(w.clause)[0].0 == neg_code(q as u32) || a.lits(w.clause)[1].0 == neg_code(
                    q as u32,
                ))
                &&& (w.blocker.0 as int) < self.wtrs.len()
            }
        &&& forall|q: int, i: int, j: int|
            0 <= q < self.wtrs.len() && 0 <= i < j < self.wtrs@[q].len() ==> (#[trigger] self.wtrs@[q]@[i]).clause
                != (#[trigger] self.wtrs@[q]@[j]).clause
    }

    /// `c` is watched nowhere.
    pub open spec fn unwatched(&self, c: CRef) -> bool {
        forall|q: int, i: int|
            0 <= q < self.wtrs.len() && 0 <= i < self.wtrs@[q].len() ==> (#[trigger] self.wtrs@[q]@[i]).clause != c
    }

    /// No watch lists.
    pub fn new() -> (w: Watchers)
        ensures
            w.wtrs.len() == 0,
    {
        Watchers { wtrs: Vec::new() }
    }

    /// Adds empty lists so that both literals of `var` have one.
    pub fn reserve(&mut self, var: Var)
        requires
            var.0 < MAX_VAR,
            old(self).wtrs.len() % 2 == 0,
            old(self).wtrs.len() <= 2 * (MAX_VAR as int + 1),
        ensures
            final(self).wtrs.len() == if old(self).wtrs.len() > 2 * (var.0 + 1) {
                old(self).wtrs.len() as int
            } else {
                2 * (var.0 + 1)
            },
            forall|q: int| 0 <= q < old(self).wtrs.len() ==> final(self).wtrs@[q] == old(self).wtrs@[q],
            forall|q: int| old(self).wtrs.len() <= q < final(self).wtrs.len() ==> final(self).wtrs@[q]@.len() == 0,
    {
        let len = (var.0 as usize + 1) * 2;
        while self.wtrs.len() < len
            invariant
                len == 2 * (var.0 + 1),
                old(self).wtrs.len() % 2 == 0,
                old(self).wtrs.len() <= self.wtrs.len(),
                self.wtrs.len() <= len || self.wtrs.len() == old(self).wtrs.len(),
                forall|q: int| 0 <= q < old(self).wtrs.len() ==> self.wtrs@[q] == old(self).wtrs@[q],
                forall|q: int| old(self).wtrs.len() <= q < self.wtrs.len() ==> self.wtrs@[q]@.len() == 0,
            decreases len - self.wtrs.len(),
        {
            self.wtrs.push(Vec::new());
        }
    }

    /// Watches the clause at `cref` by its first two literals.
    pub fn attach(&mut self, cref: CRef, a: &Allocator)
        requires
            old(self).wf(a),
            watchable(a, cref, old(self).wtrs.len() as nat),
            old(self).unwatched(cref),
        ensures
            final(self).wf(a),
            final(self).wtrs.len() == old(self).wtrs.len(),
            ({
                let q0 = neg_code(a.lits(cref)[0].0) as int;
                let q1 = neg_code(a.lits(cref)[1].0) as int;
                &&& final(self).wtrs@[q0]@ == old(self).wtrs@[q0]@.push(Watcher { clause: cref, blocker: a.lits(cref)[1] })
                &&& final(self).wtrs@[q1]@ == old(self).wtrs@[q1]@.push(Watcher { clause: cref, blocker: a.lits(cref)[0] })
                &&& forall|q: int| 0 <= q < old(self).wtrs.len() && q != q0 && q != q1 ==> final(self).wtrs@[q] == old(self).wtrs@[q]
            }),
    {
        let l0 = a.lit(cref, 0);
        let l1 = a.lit(cref, 1);
        let n0 = l0.not();
        let n1 = l1.not();
        proof {
            lemma_negated(l0);
            lemma_negated(l1);
            assert(neg_code(n0.0) == l0.0);
            assert(neg_code(n1.0) == l1.0);
            assert(n0.0 / 2 == l0.0 / 2);
            assert(n1.0 != n0.0);
        }
        let ghost old_w = self.wtrs@;
        self.wtrs[n0.0 as usize].push(Watcher::new(cref, l1));
        self.wtrs[n1.0 as usize].push(Watcher::new(cref, l0));
        proof {
            let w = self.wtrs@;
            assert(forall|q: int| 0 <= q < w.len() && q != n0.0 && q != n1.0 ==> w[q] == old_w[q]);
            assert forall|q: int, i: int| 0 <= q < w.len() && 0 <= i < w[q].len() implies {
                let x = #[trigger] w[q]@[i];
                &&& watchable(a, x.clause, w.len() as nat)
                &&& (a.lits(x.clause)[0].0 == neg_code(q as u32) || a.lits(x.clause)[1].0 == neg_code(q as u32))
                &&& (x.blocker.0 as int) < w.len()
            } by {
                if (q == n0.0 || q == n1.0) && i == w[q].len() - 1 {
                } else {
                    assert(w[q]@[i] == old_w[q]@[i]);
                }
            }
            assert forall|q: int, i: int, j: int|
                0 <= q < w.len() && 0 <= i < j < w[q].len() implies (#[trigger] w[q]@[i]).clause
                    != (#[trigger] w[q]@[j]).clause by {
                if (q == n0.0 || q == n1.0) && j == w[q].len() - 1 {
                    assert(w[q]@[i] == old_w[q]@[i]);
                } else {
                    assert(w[q]@[i] == old_w[q]@[i]);
                    assert(w[q]@[j] == old_w[q]@[j]);
                }
            }
        }
    }

    /// Removes, from the list of literal `q`, the last watcher of `cref`.
    fn detach_from(&mut self, q: usize, cref: CRef, a: &Allocator)
        requires
            old(self).wf(a),
            q < old(self).wtrs.len(),
        ensures
            final(self).wf(a),
            final(self).wtrs.len() == old(self).wtrs.len(),
            forall|p: int| 0 <= p < old(self).wtrs.len() && p != q ==> final(self).wtrs@[p] == old(self).wtrs@[p],
            forall|i: int| 0 <= i < final(self).wtrs@[q as int].len() ==> (#[trigger] final(self).wtrs@[q as int]@[i]).clause != cref,
            forall|w: Watcher| old(self).wtrs@[q as int]@.contains(w) && w.clause != cref ==> final(self).wtrs@[q as int]@.contains(w),
            forall|w: Watcher| #[trigger] final(self).wtrs@[q as int]@.contains(w) ==> old(self).wtrs@[q as int]@.contains(w),
    {
        let n = self.wtrs[q].len();
        let mut i = n;
        while i > 0
            invariant
                self.wtrs@ == old(self).wtrs@,
                old(self).wf(a),
                0 <= i <= n,
                n == self.wtrs@[q as int].len(),
                q < self.wtrs.len(),
                forall|k: int| i <= k < n ==> (#[trigger] self.wtrs@[q as int]@[k]).clause != cref,
            decreases i,
        {
            i = i - 1;
            if self.wtrs[q][i].clause == cref {
                let ghost old_w = self.wtrs@;
                self.wtrs[q].swap_remove(i);
                proof {
                    let w = self.wtrs@;
                    let lq = old_w[q as int]@;
                    assert(w[q as int]@ == lq.update(i as int, lq.last()).drop_last());
                    assert(forall|p: int| 0 <= p < w.len() && p != q ==> w[p] == old_w[p]);
                    assert forall|k: int| 0 <= k < w[q as int].len() implies (#[trigger] w[q as int]@[k]).clause != cref by {
                        if k != i {
                            assert(w[q as int]@[k] == lq[k]);
                            assert(lq[k].clause != lq[i as int].clause);
                        } else {
                            assert(w[q as int]@[k] == lq.last());
                            if lq.len() - 1 != i as int {
                                assert(lq[lq.len() - 1].clause != lq[i as int].clause);
                            }
                        }
                    }
                    assert forall|p: int, k: int| 0 <= p < w.len() && 0 <= k < w[p].len() implies {
                        let x = #[trigger] w[p]@[k];
                        &&& watchable(a, x.clause, w.len() as nat)
                        &&& (a.lits(x.clause)[0].0 == neg_code(p as u32) || a.lits(x.clause)[1].0 == neg_code(p as u32))
                        &&& (x.blocker.0 as int) < w.len()
                    } by {
                        if p != q {
                            assert(w[p]@[k] == old_w[p]@[k]);
                        } else if k != i {
                            assert(w[p]@[k] == lq[k]);
                        } else {
                            assert(w[p]@[k] == lq[lq.len() - 1]);
                        }
                    }
                    assert forall|p: int, k: int, j: int|
                        0 <= p < w.len() && 0 <= k < j < w[p].len() implies (#[trigger] w[p]@[k]).clause
                            != (#[trigger] w[p]@[j]).clause by {
                        if p != q {
                            assert(w[p]@[k] == old_w[p]@[k]);
                            assert(w[p]@[j] == old_w[p]@[j]);
                        } else {
                            let kk = if k == i { lq.len() - 1 } else { k };
                            let jj = if j == i { lq.len() - 1 } else { j };
                            assert(w[p]@[k] == lq[kk]);
                            assert(w[p]@[j] == lq[jj]);
                            assert(kk != jj);
                        }
                    }
                    assert forall|x: Watcher| lq.contains(x) && x.clause != cref implies w[q as int]@.contains(x) by {
                        let k = choose|k: int| 0 <= k < lq.len() && lq[k] == x;
                        if k == lq.len() - 1 {
                            if k != i {
                                assert(w[q as int]@[i as int] == x);
                            }
                        } else {
                            assert(k != i);
                            assert(w[q as int]@[k] == x);
                        }
                    }
                    assert forall|x: Watcher| #[trigger] w[q as int]@.contains(x) implies lq.contains(x) by {
                        let k = choose|k: int| 0 <= k < w[q as int].len() && w[q as int]@[k] == x;
                        if k == i {
                            assert(lq[lq.len() - 1] == x);
                        } else {
                            assert(lq[k] == x);
                        }
                    }
                }
                return ;
            }
        }
        proof {
            assert forall|x: Watcher| #[trigger] self.wtrs@[q as int]@.contains(x) implies old(self).wtrs@[q as int]@.contains(x) by {
            }
        }
    }

    /// Stops watching the clause at `cref` from the lists of its first two
    /// literals' negations.
    pub fn detach(&mut self, cref: CRef, a: &Allocator)
        requires
            old(self).wf(a),
            a.valid(cref),
            a.clause_len(cref) >= 2,
            forall|k: int| 0 <= k < 2 ==> (#[trigger] a.lits(cref)[k]).0 < old(self).wtrs.len(),
        ensures
            final(self).wf(a),
            final(self).wtrs.len() == old(self).wtrs.len(),
            ({
                let q0 = neg_code(a.lits(cref)[0].0) as int;
                let q1 = neg_code(a.lits(cref)[1].0) as int;
                &&& forall|q: int| 0 <= q < old(self).wtrs.len() && q != q0 && q != q1 ==> final(self).wtrs@[q] == old(self).wtrs@[q]
                &&& forall|i: int| 0 <= i < final(self).wtrs@[q0].len() ==> (#[trigger] final(self).wtrs@[q0]@[i]).clause != cref
                &&& forall|i: int| 0 <= i < final(self).wtrs@[q1].len() ==> (#[trigger] final(self).wtrs@[q1]@[i]).clause != cref
            }),
            forall|q: int, x: Watcher| 0 <= q < final(self).wtrs.len() && #[trigger] final(self).wtrs@[q]@.contains(x) ==> old(self).wtrs@[q]@.contains(x),
            forall|q: int, x: Watcher| 0 <= q < final(self).wtrs.len() && #[trigger] old(self).wtrs@[q]@.contains(x) && x.clause != cref ==> final(self).wtrs@[q]@.contains(x),
    {
        let l0 = a.lit(cref, 0);
        let l1 = a.lit(cref, 1);
        let n0 = l0.not();
        let n1 = l1.not();
        proof {
            lemma_negated(l0);
            lemma_negated(l1);
            assert(n0.0 / 2 == l0.0 / 2);
            assert(n1.0 / 2 == l1.0 / 2);
        }
        let ghost w0 = self.wtrs@;
        self.detach_from(n0.0 as usize, cref, a);
        let ghost w1 = self.wtrs@;
        self.detach_from(n1.0 as usize, cref, a);
        proof {
            assert forall|q: int, x: Watcher| 0 <= q < self.wtrs.len() && #[trigger] self.wtrs@[q]@.contains(x) implies w0[q]@.contains(x) by {
                if q != n1.0 {
                    assert(self.wtrs@[q] == w1[q]);
                } else {
                    assert(w1[q]@.contains(x));
                }
                if q != n0.0 {
                    assert(w1[q] == w0[q]);
                }
            }
            assert forall|q: int, x: Watcher| 0 <= q < self.wtrs.len() && #[trigger] w0[q]@.contains(x) && x.clause != cref implies self.wtrs@[q]@.contains(x) by {
                if q != n0.0 {
                    assert(w1[q] == w0[q]);
                }
                assert(w1[q]@.contains(x));
                if q != n1.0 {
                    assert(self.wtrs@[q] == w1[q]);
                }
            }
        }
    }
}

} // verus!
