//! The SAT solver's assignment state: the clause store, watch lists, trail
//! of assigned literals with their reasons, and the decision queue.
use crate::cdb::{h_size, lemma_extend_keeps, spec_cref_none, Allocator, CRef, ClauseDB};
use crate::domain::Domain;
use crate::lit::{lemma_negated, neg_code, Lbool, Lit, Var};
use crate::simplify::Simplify;
use crate::value::{lemma_value_negated, Value};
use crate::vsids::Vsids;
use crate::watch::{watchable, Watcher, Watchers};
use rand::rngs::StdRng;
use vstd::prelude::*;

verus! {

/// Two clauses occupy disjoint words of the arena.
pub open spec fn apart(a: &Allocator, c1: CRef, c2: CRef) -> bool {
    ||| c1.0 + h_size(a.header(c1)) <= c2.0
    ||| c2.0 + h_size(a.header(c2)) <= c1.0
}

/// Changing only the literal words of clause `c` keeps every clause apart
/// from it as it was.
pub proof fn lemma_frame(a1: &Allocator, a2: &Allocator, c: CRef, d: CRef)
    requires
        a1.valid(c),
        a1.valid(d),
        apart(a1, c, d),
        a1.data.len() == a2.data.len(),
        forall|k: int|
            0 <= k < a1.data.len() && !(c.0 + 1 <= k < c.0 + 1 + a1.clause_len(c)) ==> a2.data@[k]
                == a1.data@[k],
    ensures
        a2.valid(d),
        a2.header(d) == a1.header(d),
        a2.lits(d) == a1.lits(d),
{
    assert(a2.data@[d.0 as int] == a1.data@[d.0 as int]);
    assert(a2.lits(d) =~= a1.lits(d)) by {
        assert forall|k: int| 0 <= k < a1.clause_len(d) implies #[trigger] a2.lits(d)[k] == a1.lits(d)[k] by {
            assert(a2.data@[d.0 + 1 + k] == a1.data@[d.0 + 1 + k]);
        }
    }
}

/// The solver state.
pub struct Solver {
    pub cdb: ClauseDB,
    pub watchers: Watchers,
    pub value: Value,
    pub trail: Vec<Lit>,
    pub pos_in_trail: Vec<u32>,
    pub level: Vec<u32>,
    pub reason: Vec<CRef>,
    pub propagated: u32,
    pub vsids: Vsids,
    pub phase_saving: Vec<Lbool>,
    pub domain: Domain,
    pub temporary_domain: bool,
    pub prepared_vsids: bool,
    pub constrain_act: Var,
    pub trivial_unsat: bool,
    pub rng: StdRng,
    pub simplify: Simplify,
}

/// Changing the literal words of one watched clause that explains no
/// literal, and rearranging the watch lists over the same watched clauses,
/// keeps the invariant of unit propagation, given that the watch lists are
/// well formed afterwards.
pub proof fn lemma_inv_kept(o: &Solver, s: &Solver, cid: CRef, q0: int, i0: int)
    requires
        o.inv(),
        s.sizes_ok(),
        s.watchers.wf(s.arena()),
        s.value == o.value,
        s.trail == o.trail,
        s.reason == o.reason,
        s.propagated == o.propagated,
        s.watchers.wtrs.len() == o.watchers.wtrs.len(),
        o.is_watch(q0, i0),
        o.wclause(q0, i0) == cid,
        !o.value.is_true(o.arena().lits(cid)[0]),
        s.arena().data.len() == o.arena().data.len(),
        s.arena().header(cid) == o.arena().header(cid),
        forall|k: int|
            0 <= k < o.arena().data.len() && !(cid.0 + 1 <= k < cid.0 + 1 + o.arena().clause_len(cid))
                ==> s.arena().data@[k] == o.arena().data@[k],
        forall|q: int, i: int|
            #[trigger] s.is_watch(q, i) ==> exists|q2: int, i2: int|
                #[trigger] o.is_watch(q2, i2) && o.wclause(q2, i2) == s.wclause(q, i),
    ensures
        s.inv(),
{
    let oa = o.arena();
    let sa = s.arena();
    assert forall|d: CRef| oa.valid(d) && apart(oa, cid, d) implies sa.valid(d) && sa.header(d) == oa.header(d) && sa.lits(d) == oa.lits(d) by {
        lemma_frame(oa, sa, cid, d);
    }
    assert(sa.valid(cid));
    assert(s.trail_ok());
    assert forall|q1: int, i1: int, q2: int, i2: int|
        s.is_watch(q1, i1) && s.is_watch(q2, i2) implies #[trigger] s.wclause(q1, i1)
            == #[trigger] s.wclause(q2, i2) || apart(sa, s.wclause(q1, i1), s.wclause(q2, i2)) by {
        let (a1, b1) = choose|a1: int, b1: int| #[trigger] o.is_watch(a1, b1) && o.wclause(a1, b1) == s.wclause(q1, i1);
        let (a2, b2) = choose|a2: int, b2: int| #[trigger] o.is_watch(a2, b2) && o.wclause(a2, b2) == s.wclause(q2, i2);
        let c1 = s.wclause(q1, i1);
        let c2 = s.wclause(q2, i2);
        if c1 != c2 {
            assert(apart(oa, c1, c2));
            if c1 != cid {
                assert(o.wclause(q0, i0) == cid);
                assert(c1 == cid || apart(oa, cid, c1));
                assert(sa.header(c1) == oa.header(c1));
            }
            if c2 != cid {
                assert(c2 == cid || apart(oa, cid, c2));
                assert(sa.header(c2) == oa.header(c2));
            }
        }
    }
    assert forall|t: int|
        0 <= t < s.trail.len() && s.reason_of(#[trigger] s.trail@[t]) != spec_cref_none()
            implies s.explains(s.reason_of(s.trail@[t]), s.trail@[t]) by {
        let x = s.trail@[t];
        let r = s.reason_of(x);
        assert(o.explains(r, x));
        assert(o.trail@[t] == x);
        assert(r != cid) by {
            if r == cid {
                assert(oa.lits(r)[0] == x);
                assert(o.value.is_true(x));
            }
        }
        assert(apart(oa, cid, r)) by {
            assert(o.is_watch(q0, i0));
            assert(o.wclause(q0, i0) == r || apart(oa, r, o.wclause(q0, i0)));
        }
        assert(sa.lits(r) == oa.lits(r));
        assert forall|q: int, i: int| #[trigger] s.is_watch(q, i) implies s.wclause(q, i) == r || apart(sa, r, s.wclause(q, i)) by {
            let (a1, b1) = choose|a1: int, b1: int| #[trigger] o.is_watch(a1, b1) && o.wclause(a1, b1) == s.wclause(q, i);
            let c = s.wclause(q, i);
            if c != r {
                assert(apart(oa, r, c));
                if c != cid {
                    assert(c == cid || apart(oa, cid, c));
                    assert(sa.header(c) == oa.header(c));
                }
            }
        }
        assert forall|k: int| 1 <= k < sa.clause_len(r) implies s.value.is_false(#[trigger] sa.lits(r)[k]) by {
            assert(oa.lits(r)[k] == sa.lits(r)[k]);
        }
    }
}

/// Moving one watcher from the list of `p` to the end of the list of `n`
/// keeps the set of watched clauses, given that every watcher now in a
/// list was one before.
proof fn lemma_move_keeps_watched(o: Solver, s: Solver, p: int, w: int, n: int)
    requires
        o.is_watch(p, w),
        0 <= n < o.watchers.wtrs.len(),
        n != p,
        s.watchers.wtrs.len() == o.watchers.wtrs.len(),
        s.watchers.wtrs@[p]@ == o.watchers.wtrs@[p]@.update(w, o.watchers.wtrs@[p]@.last()).drop_last(),
        s.watchers.wtrs@[n]@.len() == o.watchers.wtrs@[n]@.len() + 1,
        forall|j: int| 0 <= j < o.watchers.wtrs@[n]@.len() ==> s.watchers.wtrs@[n]@[j] == #[trigger] o.watchers.wtrs@[n]@[j],
        s.watchers.wtrs@[n]@.last().clause == o.wclause(p, w),
        forall|q: int| 0 <= q < o.watchers.wtrs.len() && q != p && q != n ==> #[trigger] s.watchers.wtrs@[q] == o.watchers.wtrs@[q],
        forall|q: int, j: int| #[trigger] s.is_watch(q, j) ==> exists|q2: int, i2: int|
            #[trigger] o.is_watch(q2, i2) && o.wclause(q2, i2) == s.wclause(q, j),
    ensures
        forall|d: CRef| #[trigger] s.watched(d) == o.watched(d),
{
    let ow = o.watchers.wtrs@;
    let nw = s.watchers.wtrs@;
    assert forall|d: CRef| #[trigger] s.watched(d) == o.watched(d) by {
        if s.watched(d) {
            let (q, j) = choose|q: int, j: int| #[trigger] s.is_watch(q, j) && s.wclause(q, j) == d;
            assert(exists|q2: int, i2: int| #[trigger] o.is_watch(q2, i2) && o.wclause(q2, i2) == s.wclause(q, j));
        }
        if o.watched(d) {
            let (q2, i2) = choose|q: int, i: int| #[trigger] o.is_watch(q, i) && o.wclause(q, i) == d;
            if q2 == p && i2 == w {
                assert(s.is_watch(n, nw[n].len() - 1));
            } else if q2 == p {
                let j = if i2 == ow[q2].len() - 1 { w } else { i2 };
                assert(nw[q2]@[j] == ow[q2]@[i2]);
                assert(s.is_watch(q2, j));
            } else if q2 == n {
                assert(nw[q2]@[i2] == ow[q2]@[i2]);
                assert(s.is_watch(q2, i2));
            } else {
                assert(nw[q2] == ow[q2]);
                assert(s.is_watch(q2, i2));
            }
        }
    }
}

/// Every clause watched in `o` holds in `s` the same literals, perhaps in
/// another order.
pub open spec fn lits_kept(o: Solver, s: Solver) -> bool {
    forall|d: CRef, l: Lit|
        #![trigger o.watched(d), s.arena().lits(d).contains(l)]
        #![trigger o.watched(d), o.arena().lits(d).contains(l)]
        o.watched(d) ==> (s.arena().lits(d).contains(l) == o.arena().lits(d).contains(l))
}

/// Every literal of `a` that is true, or false, stays so in `b`.
pub open spec fn value_grows(a: Value, b: Value) -> bool {
    &&& forall|l: Lit| a.covers(l) && #[trigger] a.is_true(l) ==> b.is_true(l)
    &&& forall|l: Lit| a.covers(l) && #[trigger] a.is_false(l) ==> b.is_false(l)
    &&& b.data.len() >= a.data.len()
}

/// Two steps that each keep the literals of the watched clauses and the
/// assigned values keep them together.
pub proof fn lemma_kept_trans(a: Solver, b: Solver, c: Solver)
    requires
        lits_kept(a, b),
        lits_kept(b, c),
        forall|d: CRef| #[trigger] a.watched(d) ==> b.watched(d),
        value_grows(a.value, b.value),
        value_grows(b.value, c.value),
    ensures
        lits_kept(a, c),
        value_grows(a.value, c.value),
{
    assert forall|d: CRef, l: Lit| a.watched(d) implies (#[trigger] c.arena().lits(d).contains(l)) == a.arena().lits(d).contains(l) by {
        assert(b.watched(d));
        assert(b.arena().lits(d).contains(l) == a.arena().lits(d).contains(l));
        assert(c.arena().lits(d).contains(l) == b.arena().lits(d).contains(l));
    }
    assert forall|l: Lit| a.value.covers(l) && #[trigger] a.value.is_true(l) implies c.value.is_true(l) by {
        assert(b.value.is_true(l));
    }
    assert forall|l: Lit| a.value.covers(l) && #[trigger] a.value.is_false(l) implies c.value.is_false(l) by {
        assert(b.value.is_false(l));
    }
}

/// Making the unassigned `lit` true keeps every other assigned literal.
pub proof fn lemma_set_grows(a: Value, b: Value, lit: Lit)
    requires
        a.wf(),
        a.covers(lit),
        a.is_unassigned(lit),
        b.data.len() == a.data.len(),
        forall|l: Lit| a.covers(l) && l.var() != lit.var() ==> #[trigger] b.val(l) == a.val(l),
    ensures
        value_grows(a, b),
{
    lemma_value_negated(&a, lit);
    assert forall|l: Lit| a.covers(l) && #[trigger] a.is_true(l) implies b.is_true(l) by {
        if l.var() == lit.var() {
            crate::lit::lemma_same_var(l, lit);
        } else {
            assert(b.val(l) == a.val(l));
        }
    }
    assert forall|l: Lit| a.covers(l) && #[trigger] a.is_false(l) implies b.is_false(l) by {
        if l.var() == lit.var() {
            crate::lit::lemma_same_var(l, lit);
        } else {
            assert(b.val(l) == a.val(l));
        }
    }
}

/// Exchanging two literals of a clause keeps which literals it holds.
pub proof fn lemma_swap_contains(ol: Seq<Lit>, nl: Seq<Lit>, i: int, j: int)
    requires
        0 <= i < ol.len(),
        0 <= j < ol.len(),
        nl == ol.update(i, ol[j]).update(j, ol[i]),
    ensures
        forall|l: Lit| #[trigger] nl.contains(l) == ol.contains(l),
{
    assert forall|l: Lit| #[trigger] nl.contains(l) == ol.contains(l) by {
        if nl.contains(l) {
            let k = choose|k: int| 0 <= k < nl.len() && nl[k] == l;
            let kk = if k == i { j } else if k == j { i } else { k };
            assert(ol[kk] == l);
        }
        if ol.contains(l) {
            let k = choose|k: int| 0 <= k < ol.len() && ol[k] == l;
            let kk = if k == i { j } else if k == j { i } else { k };
            assert(nl[kk] == l);
        }
    }
}

/// When only the clause at `c`, watched, changes the order of its
/// literals, and every clause apart from it is left as it was, the
/// literals of the watched clauses are kept.
pub proof fn lemma_lits_kept_one(o: Solver, s: Solver, c: CRef)
    requires
        o.inv(),
        o.watched(c),
        forall|l: Lit| #[trigger] s.arena().lits(c).contains(l) == o.arena().lits(c).contains(l),
        forall|d: CRef| o.arena().valid(d) && apart(o.arena(), c, d) ==> #[trigger] s.arena().lits(d) == o.arena().lits(d),
    ensures
        lits_kept(o, s),
{
    assert forall|d: CRef, l: Lit| o.watched(d) implies (#[trigger] s.arena().lits(d).contains(l)) == o.arena().lits(d).contains(l) by {
        if d != c {
            let (q1, i1) = choose|q: int, i: int| #[trigger] o.is_watch(q, i) && o.wclause(q, i) == c;
            let (q2, i2) = choose|q: int, i: int| #[trigger] o.is_watch(q, i) && o.wclause(q, i) == d;
            assert(o.wclause(q1, i1) == o.wclause(q2, i2) || apart(o.arena(), o.wclause(q1, i1), o.wclause(q2, i2)));
            assert(watchable(o.arena(), o.watchers.wtrs@[q2]@[i2].clause, o.watchers.wtrs.len() as nat));
            assert(s.arena().lits(d) == o.arena().lits(d));
        }
    }
}

/// Two states with the same watch lists watch the same clauses.
pub proof fn lemma_watched_same(a: Solver, b: Solver)
    requires
        a.watchers == b.watchers,
    ensures
        forall|d: CRef| #[trigger] a.watched(d) == b.watched(d),
{
    assert forall|d: CRef| #[trigger] a.watched(d) == b.watched(d) by {
        if a.watched(d) {
            let (q, i) = choose|q: int, i: int| #[trigger] a.is_watch(q, i) && a.wclause(q, i) == d;
            assert(b.is_watch(q, i));
        }
        if b.watched(d) {
            let (q, i) = choose|q: int, i: int| #[trigger] b.is_watch(q, i) && b.wclause(q, i) == d;
            assert(a.is_watch(q, i));
        }
    }
}

/// Two states whose watch lists name the same clause at every position
/// watch the same clauses.
pub proof fn lemma_watched_positions(a: Solver, b: Solver)
    requires
        a.watchers.wtrs.len() == b.watchers.wtrs.len(),
        forall|p: int| 0 <= p < a.watchers.wtrs.len() ==> (#[trigger] b.watchers.wtrs@[p]).len() == a.watchers.wtrs@[p].len(),
        forall|p: int, i: int| #[trigger] a.is_watch(p, i) ==> b.wclause(p, i) == a.wclause(p, i),
    ensures
        forall|d: CRef| #[trigger] a.watched(d) == b.watched(d),
{
    assert forall|d: CRef| #[trigger] a.watched(d) == b.watched(d) by {
        if a.watched(d) {
            let (q, i) = choose|q: int, i: int| #[trigger] a.is_watch(q, i) && a.wclause(q, i) == d;
            assert(b.is_watch(q, i));
        }
        if b.watched(d) {
            let (q, i) = choose|q: int, i: int| #[trigger] b.is_watch(q, i) && b.wclause(q, i) == d;
            assert(a.is_watch(q, i));
        }
    }
}

impl Solver {
    /// The number of variables.
    pub open spec fn nv(&self) -> nat {
        self.value.num_var()
    }

    pub open spec fn arena(&self) -> &Allocator {
        &self.cdb.allocator
    }

    pub open spec fn wclause(&self, q: int, i: int) -> CRef {
        self.watchers.wtrs@[q]@[i].clause
    }

    pub open spec fn is_watch(&self, q: int, i: int) -> bool {
        0 <= q < self.watchers.wtrs.len() && 0 <= i < self.watchers.wtrs@[q].len()
    }

    /// The reason recorded for the variable of `l`.
    pub open spec fn reason_of(&self, l: Lit) -> CRef {
        self.reason@[l.var().0 as int]
    }

    /// The tables have one entry per variable, or per literal.
    pub open spec fn sizes_ok(&self) -> bool {
        &&& self.value.wf()
        &&& self.level.len() == self.nv()
        &&& self.reason.len() == self.nv()
        &&& self.watchers.wtrs.len() == 2 * self.nv()
        &&& self.domain.wf()
        &&& self.domain.domain.has.len() == self.nv()
        &&& self.trail.len() < u32::MAX
        &&& self.pos_in_trail.len() < u32::MAX
        &&& self.propagated <= self.trail.len()
        &&& self.cdb.allocator.data.len() < u32::MAX
    }

    /// The trail lists true literals of distinct variables.
    pub open spec fn trail_ok(&self) -> bool {
        &&& forall|t: int|
            0 <= t < self.trail.len() ==> (#[trigger] self.trail@[t]).0 < 2 * self.nv()
                && self.value.is_true(self.trail@[t])
        &&& forall|t1: int, t2: int|
            0 <= t1 < t2 < self.trail.len() ==> (#[trigger] self.trail@[t1]).var() != (
            #[trigger] self.trail@[t2]).var()
    }

    /// Distinct watched clauses occupy disjoint words.
    pub open spec fn disjoint_ok(&self) -> bool {
        forall|q1: int, i1: int, q2: int, i2: int|
            self.is_watch(q1, i1) && self.is_watch(q2, i2) ==> #[trigger] self.wclause(q1, i1)
                == #[trigger] self.wclause(q2, i2) || apart(
                self.arena(),
                self.wclause(q1, i1),
                self.wclause(q2, i2),
            )
    }

    /// The clause `r` explains literal `x`: it is a watchable clause whose
    /// first literal is `x` and whose other literals are all false, and it
    /// is apart from every other watched clause.
    pub open spec fn explains(&self, r: CRef, x: Lit) -> bool {
        &&& watchable(self.arena(), r, 2 * self.nv())
        &&& self.arena().lits(r)[0] == x
        &&& forall|k: int| 1 <= k < self.arena().clause_len(r) ==> self.value.is_false(#[trigger] self.arena().lits(r)[k])
        &&& forall|q: int, i: int| #[trigger] self.is_watch(q, i) ==> self.wclause(q, i) == r || apart(self.arena(), r, self.wclause(q, i))
    }

    /// Every trail literal with a reason is explained by it.
    pub open spec fn reason_ok(&self) -> bool {
        forall|t: int|
            0 <= t < self.trail.len() && self.reason_of(#[trigger] self.trail@[t]) != spec_cref_none()
                ==> self.explains(self.reason_of(self.trail@[t]), self.trail@[t])
    }

    /// The flags and the lists of clauses agree with those of `o`.
    pub open spec fn keeps_extras(&self, o: &Solver) -> bool {
        &&& self.constrain_act == o.constrain_act
        &&& self.trivial_unsat == o.trivial_unsat
        &&& self.temporary_domain == o.temporary_domain
        &&& self.prepared_vsids == o.prepared_vsids
        &&& self.simplify == o.simplify
        &&& self.cdb.lemmas == o.cdb.lemmas
        &&& self.cdb.trans == o.cdb.trans
        &&& self.cdb.learnt == o.cdb.learnt
        &&& self.cdb.temporary == o.cdb.temporary
        &&& self.cdb.allocator.data@.len() == o.cdb.allocator.data@.len()
        &&& self.cdb.allocator.wasted == o.cdb.allocator.wasted
    }

    /// The invariant of unit propagation.
    pub open spec fn inv(&self) -> bool {
        &&& self.sizes_ok()
        &&& self.watchers.wf(self.arena())
        &&& self.trail_ok()
        &&& self.disjoint_ok()
        &&& self.reason_ok()
    }

    /// The current decision level.
    pub fn highest_level(&self) -> (l: usize)
        ensures
            l == self.pos_in_trail.len(),
    {
        self.pos_in_trail.len()
    }

    /// Assigns `lit` true at the current level with the given reason.
    pub fn assign(&mut self, lit: Lit, reason: CRef)
        requires
            old(self).inv(),
            (lit.0 as int) < 2 * old(self).nv(),
            old(self).value.is_unassigned(lit),
            old(self).trail.len() + 1 < u32::MAX,
            reason != spec_cref_none() ==> old(self).explains(reason, lit),
        ensures
            final(self).inv(),
            final(self).trail@ == old(self).trail@.push(lit),
            final(self).reason_of(lit) == reason,
            final(self).reason@ == old(self).reason@.update(lit.var().0 as int, reason),
            final(self).value.is_true(lit),
            final(self).cdb == old(self).cdb,
            final(self).watchers == old(self).watchers,
            final(self).propagated == old(self).propagated,
            final(self).domain == old(self).domain,
            final(self).pos_in_trail == old(self).pos_in_trail,
            final(self).vsids == old(self).vsids,
            final(self).phase_saving == old(self).phase_saving,
            final(self).keeps_extras(old(self)),
            forall|d: CRef| #[trigger] final(self).watched(d) == old(self).watched(d),
            final(self).nv() == old(self).nv(),
            forall|l: Lit| (l.0 as int) < 2 * old(self).nv() && l.var() != lit.var() ==> #[trigger] final(self).value.val(l) == old(self).value.val(l),
            lits_kept(*old(self), *final(self)),
            value_grows(old(self).value, final(self).value),
    {
        let v = lit.var_of();
        proof {
            lemma_value_negated(&self.value, lit);
            lemma_negated(lit);
        }
        self.value.set(lit);
        let lv = self.highest_level() as u32;
        self.level.set(v.0 as usize, lv);
        self.reason.set(v.0 as usize, reason);
        self.trail.push(lit);
        proof {
            let o = old(self);
            assert forall|t: int| 0 <= t < o.trail.len() implies (#[trigger] o.trail@[t]).var() != lit.var() by {
                let x = o.trail@[t];
                if x.var() == lit.var() {
                    crate::lit::lemma_same_var(x, lit);
                    lemma_value_negated(&o.value, lit);
                }
            }
            assert forall|t: int|
                0 <= t < self.trail.len() implies (#[trigger] self.trail@[t]).0 < 2 * self.nv()
                    && self.value.is_true(self.trail@[t]) by {
                if t < o.trail.len() {
                    assert(self.trail@[t] == o.trail@[t]);
                }
            }
            assert forall|t1: int, t2: int|
                0 <= t1 < t2 < self.trail.len() implies (#[trigger] self.trail@[t1]).var() != (
                #[trigger] self.trail@[t2]).var() by {
                assert(self.trail@[t1] == o.trail@[t1]);
                if t2 < o.trail.len() {
                    assert(self.trail@[t2] == o.trail@[t2]);
                }
            }
            assert forall|t: int|
                0 <= t < self.trail.len() && self.reason_of(#[trigger] self.trail@[t]) != spec_cref_none()
                    implies self.explains(self.reason_of(self.trail@[t]), self.trail@[t]) by {
                let x = self.trail@[t];
                if t < o.trail.len() {
                    assert(x == o.trail@[t]);
                    assert(x.var() != lit.var());
                    assert(self.reason_of(x) == o.reason_of(x));
                    let r = o.reason_of(x);
                    assert(o.explains(r, x));
                    assert(self.watchers == o.watchers);
                    assert(self.cdb == o.cdb);
                    assert forall|k: int| 1 <= k < self.arena().clause_len(r) implies self.value.is_false(#[trigger] self.arena().lits(r)[k]) by {
                        let y = self.arena().lits(r)[k];
                        assert(o.value.is_false(y));
                        if y.var() == lit.var() {
                            crate::lit::lemma_same_var(y, lit);
                            lemma_value_negated(&o.value, lit);
                        }
                    }
                    assert forall|q: int, i: int| #[trigger] self.is_watch(q, i) implies self.wclause(q, i) == r || apart(self.arena(), r, self.wclause(q, i)) by {
                        assert(o.is_watch(q, i));
                    }
                } else {
                    let r = reason;
                    assert(o.explains(r, lit));
                    assert forall|q: int, i: int| #[trigger] self.is_watch(q, i) implies self.wclause(q, i) == r || apart(self.arena(), r, self.wclause(q, i)) by {
                        assert(o.is_watch(q, i));
                    }
                    assert forall|k: int| 1 <= k < self.arena().clause_len(r) implies self.value.is_false(#[trigger] self.arena().lits(r)[k]) by {
                        let y = self.arena().lits(r)[k];
                        assert(o.value.is_false(y));
                        if y.var() == lit.var() {
                            crate::lit::lemma_same_var(y, lit);
                            lemma_value_negated(&o.value, lit);
                        }
                    }
                }
            }
            assert(self.sizes_ok());
            assert(self.watchers.wf(self.arena()));
            assert(self.trail_ok());
            assert(self.disjoint_ok()) by {
                assert forall|q1: int, i1: int, q2: int, i2: int|
                    self.is_watch(q1, i1) && self.is_watch(q2, i2) implies #[trigger] self.wclause(q1, i1)
                        == #[trigger] self.wclause(q2, i2) || apart(
                        self.arena(),
                        self.wclause(q1, i1),
                        self.wclause(q2, i2),
                    ) by {
                    assert(o.is_watch(q1, i1) && o.is_watch(q2, i2));
                    assert(o.wclause(q1, i1) == self.wclause(q1, i1));
                    assert(o.wclause(q2, i2) == self.wclause(q2, i2));
                }
            }
            assert(self.reason_ok());
        }
        proof {
            lemma_watched_same(*self, *old(self));
        }
        proof {
            lemma_set_grows(old(self).value, self.value, lit);
        }
    }

    /// Replaces the blocker of watcher `w` in the list of `q`.
    fn set_blocker(&mut self, q: usize, w: usize, b: Lit)
        requires
            old(self).inv(),
            old(self).is_watch(q as int, w as int),
            (b.0 as int) < 2 * old(self).nv(),
        ensures
            final(self).inv(),
            final(self).watchers.wtrs.len() == old(self).watchers.wtrs.len(),
            forall|p: int| 0 <= p < old(self).watchers.wtrs.len() ==> (#[trigger] final(self).watchers.wtrs@[p]).len() == old(self).watchers.wtrs@[p].len(),
            forall|p: int, i: int| #[trigger] old(self).is_watch(p, i) ==> final(self).wclause(p, i) == old(self).wclause(p, i),
            final(self).watchers.wtrs@[q as int]@[w as int].blocker == b,
            forall|p: int, i: int| #[trigger] old(self).is_watch(p, i) && !(p == q && i == w)
                ==> final(self).watchers.wtrs@[p]@[i] == old(self).watchers.wtrs@[p]@[i],
            final(self).cdb == old(self).cdb,
            final(self).value == old(self).value,
            final(self).trail == old(self).trail,
            final(self).reason == old(self).reason,
            final(self).propagated == old(self).propagated,
            final(self).domain == old(self).domain,
            final(self).pos_in_trail == old(self).pos_in_trail,
            final(self).vsids == old(self).vsids,
            final(self).phase_saving == old(self).phase_saving,
            final(self).keeps_extras(old(self)),
            forall|d: CRef| #[trigger] final(self).watched(d) == old(self).watched(d),
            lits_kept(*old(self), *final(self)),
            value_grows(old(self).value, final(self).value),
    {
        let ghost ow = self.watchers.wtrs@;
        let c = self.watchers.wtrs[q][w].clause;
        self.watchers.wtrs[q].set(w, Watcher::new(c, b));
        proof {
            let nw = self.watchers.wtrs@;
            let o = old(self);
            assert(forall|p: int| 0 <= p < nw.len() && p != q ==> nw[p] == ow[p]);
            assert forall|p: int, i: int| 0 <= p < nw.len() && 0 <= i < nw[p].len() implies {
                let x = #[trigger] nw[p]@[i];
                &&& watchable(self.arena(), x.clause, nw.len() as nat)
                &&& (self.arena().lits(x.clause)[0].0 == neg_code(p as u32) || self.arena().lits(x.clause)[1].0 == neg_code(p as u32))
                &&& (x.blocker.0 as int) < nw.len()
            } by {
                assert(nw[p]@[i].clause == ow[p]@[i].clause);
            }
            assert forall|p: int, i: int, j: int|
                0 <= p < nw.len() && 0 <= i < j < nw[p].len() implies (#[trigger] nw[p]@[i]).clause
                    != (#[trigger] nw[p]@[j]).clause by {
                assert(nw[p]@[i].clause == ow[p]@[i].clause);
                assert(nw[p]@[j].clause == ow[p]@[j].clause);
            }
            assert forall|p: int, i: int| #[trigger] self.is_watch(p, i) implies exists|q2: int, i2: int|
                #[trigger] o.is_watch(q2, i2) && o.wclause(q2, i2) == self.wclause(p, i) by {
                assert(o.is_watch(p, i));
            }
            assert(o.arena().lits(c)[0] == o.arena().lits(c)[0]);
            if o.value.is_true(o.arena().lits(c)[0]) {
                assert(self.inv()) by {
                    assert(self.disjoint_ok()) by {
                        assert forall|q1: int, i1: int, q2: int, i2: int|
                            self.is_watch(q1, i1) && self.is_watch(q2, i2) implies #[trigger] self.wclause(q1, i1)
                                == #[trigger] self.wclause(q2, i2) || apart(self.arena(), self.wclause(q1, i1), self.wclause(q2, i2)) by {
                            assert(o.is_watch(q1, i1) && o.is_watch(q2, i2));
                        }
                    }
                    assert(self.reason_ok()) by {
                        assert forall|t: int|
                            0 <= t < self.trail.len() && self.reason_of(#[trigger] self.trail@[t]) != spec_cref_none()
                                implies self.explains(self.reason_of(self.trail@[t]), self.trail@[t]) by {
                            let r = self.reason_of(self.trail@[t]);
                            assert(o.explains(r, o.trail@[t]));
                            assert forall|p: int, i: int| #[trigger] self.is_watch(p, i) implies self.wclause(p, i) == r || apart(self.arena(), r, self.wclause(p, i)) by {
                                assert(o.is_watch(p, i));
                            }
                        }
                    }
                }
            } else {
                lemma_inv_kept(o, self, c, q as int, w as int);
            }
        }
        proof {
            lemma_watched_positions(*old(self), *self);
        }
    }

    /// Exchanges the two watched literals of the clause of watcher `w` in
    /// the list of `q`, whose first literal is the negation of `q` and not
    /// true.
    fn swap_watched(&mut self, q: usize, w: usize)
        requires
            old(self).inv(),
            old(self).is_watch(q as int, w as int),
            !old(self).value.is_true(old(self).arena().lits(old(self).wclause(q as int, w as int))[0]),
        ensures
            final(self).inv(),
            ({
                let c = old(self).wclause(q as int, w as int);
                &&& final(self).arena().lits(c) == old(self).arena().lits(c).update(0, old(self).arena().lits(c)[1]).update(1, old(self).arena().lits(c)[0])
                &&& final(self).arena().header(c) == old(self).arena().header(c)
            }),
            final(self).watchers == old(self).watchers,
            final(self).value == old(self).value,
            final(self).trail == old(self).trail,
            final(self).reason == old(self).reason,
            final(self).propagated == old(self).propagated,
            final(self).domain == old(self).domain,
            final(self).pos_in_trail == old(self).pos_in_trail,
            final(self).vsids == old(self).vsids,
            final(self).phase_saving == old(self).phase_saving,
            final(self).keeps_extras(old(self)),
            forall|d: CRef| #[trigger] final(self).watched(d) == old(self).watched(d),
            final(self).cdb.allocator.data.len() == old(self).cdb.allocator.data.len(),
            lits_kept(*old(self), *final(self)),
            value_grows(old(self).value, final(self).value),
            forall|d: CRef| old(self).arena().valid(d) && apart(old(self).arena(), old(self).wclause(q as int, w as int), d)
                ==> #[trigger] final(self).arena().lits(d) == old(self).arena().lits(d),
    {
        let c = self.watchers.wtrs[q][w].clause;
        self.cdb.allocator.swap(c, 0, 1);
        proof {
            let o = old(self);
            let oa = o.arena();
            let sa = self.arena();
            let ol = oa.lits(c);
            let nl = sa.lits(c);
            assert forall|d: CRef| oa.valid(d) && apart(oa, c, d) implies sa.valid(d) && sa.header(d) == oa.header(d) && sa.lits(d) == oa.lits(d) by {
                lemma_frame(oa, sa, c, d);
            }
            assert(watchable(sa, c, 2 * self.nv())) by {
                assert forall|i: int, j: int| 0 <= i < j < sa.clause_len(c) implies #[trigger] nl[i] != #[trigger] nl[j] by {
                    let ii = if i == 0 { 1int } else if i == 1 { 0int } else { i };
                    let jj = if j == 0 { 1int } else if j == 1 { 0int } else { j };
                    assert(nl[i] == ol[ii]);
                    assert(nl[j] == ol[jj]);
                    if ii < jj {
                        assert(ol[ii] != ol[jj]);
                    } else {
                        assert(ol[jj] != ol[ii]);
                    }
                }
                assert forall|k: int| 0 <= k < sa.clause_len(c) implies (#[trigger] nl[k]).0 < 2 * self.nv() by {
                    let kk = if k == 0 { 1int } else if k == 1 { 0int } else { k };
                    assert(nl[k] == ol[kk]);
                }
            }
            let ww = self.watchers.wtrs@;
            assert forall|p: int, i: int| 0 <= p < ww.len() && 0 <= i < ww[p].len() implies {
                let x = #[trigger] ww[p]@[i];
                &&& watchable(sa, x.clause, ww.len() as nat)
                &&& (sa.lits(x.clause)[0].0 == neg_code(p as u32) || sa.lits(x.clause)[1].0 == neg_code(p as u32))
                &&& (x.blocker.0 as int) < ww.len()
            } by {
                let x = ww[p]@[i];
                assert(o.is_watch(p, i));
                if x.clause != c {
                    assert(apart(oa, o.wclause(p, i), o.wclause(q as int, w as int)));
                }
            }
            assert forall|p: int, j: int| #[trigger] self.is_watch(p, j) implies exists|q2: int, i2: int|
                #[trigger] o.is_watch(q2, i2) && o.wclause(q2, i2) == self.wclause(p, j) by {
                assert(o.is_watch(p, j));
            }
            lemma_inv_kept(o, self, c, q as int, w as int);
            lemma_swap_contains(ol, nl, 0, 1);
            assert(o.is_watch(q as int, w as int));
            lemma_lits_kept_one(*o, *self, c);
        }
        proof {
            lemma_watched_same(*self, *old(self));
        }
    }

    /// Moves the watch of the clause of watcher `w` in the list of `p` from
    /// its second literal, the negation of `p`, to its literal at position
    /// `i`, which is not false.
    #[verifier::rlimit(100)]
    #[verifier::spinoff_prover]
    fn move_watch(&mut self, p: usize, w: usize, i: usize)
        requires
            old(self).inv(),
            old(self).is_watch(p as int, w as int),
            old(self).arena().lits(old(self).wclause(p as int, w as int))[1].0 == neg_code(p as u32),
            !old(self).value.is_true(old(self).arena().lits(old(self).wclause(p as int, w as int))[0]),
            2 <= i < old(self).arena().clause_len(old(self).wclause(p as int, w as int)),
            !old(self).value.is_false(old(self).arena().lits(old(self).wclause(p as int, w as int))[i as int]),
        ensures
            crate::prop::move_step(*old(self), *final(self), p as int, w as int, i as int,
                neg_code(old(self).arena().lits(old(self).wclause(p as int, w as int))[i as int].0) as int),
            final(self).inv(),
            final(self).watchers.wtrs@[p as int].len() == old(self).watchers.wtrs@[p as int].len() - 1,
            final(self).watchers.wtrs.len() == old(self).watchers.wtrs.len(),
            final(self).value == old(self).value,
            final(self).trail == old(self).trail,
            final(self).reason == old(self).reason,
            final(self).propagated == old(self).propagated,
            final(self).domain == old(self).domain,
            final(self).pos_in_trail == old(self).pos_in_trail,
            final(self).vsids == old(self).vsids,
            final(self).phase_saving == old(self).phase_saving,
            final(self).keeps_extras(old(self)),
            final(self).cdb.allocator.data.len() == old(self).cdb.allocator.data.len(),
            forall|d: CRef| #[trigger] final(self).watched(d) == old(self).watched(d),
            lits_kept(*old(self), *final(self)),
            value_grows(old(self).value, final(self).value),
    {
        let c = self.watchers.wtrs[p][w].clause;
        let c0 = self.cdb.allocator.lit(c, 0);
        let ghost ow = self.watchers.wtrs@;
        self.cdb.allocator.swap(c, 1, i);
        self.watchers.wtrs[p].swap_remove(w);
        let c1 = self.cdb.allocator.lit(c, 1);
        let n1 = c1.not();
        let ghost mw = self.watchers.wtrs@;
        proof {
            let o = old(self);
            let oa = o.arena();
            let ol = oa.lits(c);
            lemma_negated(c1);
            lemma_negated(ol[1]);
            lemma_negated(ol[0]);
            assert(ol[i as int] != ol[1] && ol[i as int] != ol[0]);
            assert(c1 == ol[i as int]);
            assert(n1.0 < ow.len()) by {
                assert(ol[i as int].0 < 2 * o.nv());
            }
            assert(n1.0 != p as u32) by {
                assert(neg_code(p as u32) / 2 == (p as u32) / 2);
                if n1.0 == p as u32 {
                    assert(c1.0 == neg_code(p as u32));
                }
            }
        }
        self.watchers.wtrs[n1.0 as usize].push(Watcher::new(c, c0));
        proof {
            let o = old(self);
            let oa = o.arena();
            let sa = self.arena();
            let ol = oa.lits(c);
            let nl = sa.lits(c);
            let nw = self.watchers.wtrs@;
            let q0 = neg_code(ol[0].0) as int;
            assert forall|d: CRef| oa.valid(d) && apart(oa, c, d) implies sa.valid(d) && sa.header(d) == oa.header(d) && sa.lits(d) == oa.lits(d) by {
                lemma_frame(oa, sa, c, d);
            }
            assert(nl[0] == ol[0] && nl[1] == ol[i as int]);
            assert(watchable(sa, c, 2 * self.nv())) by {
                assert forall|a: int, b: int| 0 <= a < b < sa.clause_len(c) implies #[trigger] nl[a] != #[trigger] nl[b] by {
                    let aa = if a == 1 { i as int } else if a == i { 1int } else { a };
                    let bb = if b == 1 { i as int } else if b == i { 1int } else { b };
                    assert(nl[a] == ol[aa]);
                    assert(nl[b] == ol[bb]);
                    if aa < bb {
                        assert(ol[aa] != ol[bb]);
                    } else {
                        assert(ol[bb] != ol[aa]);
                    }
                }
                assert forall|k: int| 0 <= k < sa.clause_len(c) implies (#[trigger] nl[k]).0 < 2 * self.nv() by {
                    let kk = if k == 1 { i as int } else if k == i { 1int } else { k };
                    assert(nl[k] == ol[kk]);
                }
            }
            // every watcher now in a list is an old watcher of that list, or the moved one
            assert forall|q: int, j: int| 0 <= q < nw.len() && 0 <= j < nw[q].len() implies
                (q == n1.0 && j == nw[q].len() - 1) || exists|j2: int| 0 <= j2 < ow[q].len() && ow[q]@[j2] == #[trigger] nw[q]@[j] && !(q == p && j2 == w) by {
                if q == p {
                    if j == w {
                        assert(ow[q]@[ow[q].len() - 1] == nw[q]@[j]);
                        assert(ow[q].len() - 1 != w);
                    } else {
                        assert(ow[q]@[j] == nw[q]@[j]);
                    }
                } else if q == n1.0 {
                    if j < ow[q].len() {
                        assert(ow[q]@[j] == nw[q]@[j]);
                    }
                } else {
                    assert(ow[q]@[j] == nw[q]@[j]);
                }
            }
            // the moved clause was watched only in the lists of p and q0
            assert forall|q: int, j: int| 0 <= q < ow.len() && 0 <= j < ow[q].len() && ow[q]@[j].clause == c implies q == p || q == q0 by {
                assert(o.is_watch(q, j));
                lemma_negated(ol[0]);
                lemma_negated(ol[1]);
            }
            assert(q0 != p as int) by {
                lemma_negated(ol[0]);
                lemma_negated(ol[1]);
            }
            assert forall|q: int, j: int| 0 <= q < nw.len() && 0 <= j < nw[q].len() implies {
                let x = #[trigger] nw[q]@[j];
                &&& watchable(sa, x.clause, nw.len() as nat)
                &&& (sa.lits(x.clause)[0].0 == neg_code(q as u32) || sa.lits(x.clause)[1].0 == neg_code(q as u32))
                &&& (x.blocker.0 as int) < nw.len()
            } by {
                let x = nw[q]@[j];
                if q == n1.0 && j == nw[q].len() - 1 {
                    lemma_negated(c1);
                } else {
                    let j2 = choose|j2: int| 0 <= j2 < ow[q].len() && ow[q]@[j2] == nw[q]@[j] && !(q == p && j2 == w);
                    assert(o.is_watch(q, j2));
                    if x.clause != c {
                        assert(apart(oa, o.wclause(q, j2), o.wclause(p as int, w as int)));
                    } else {
                        if q == p {
                            assert(ow[p as int]@[j2].clause == ow[p as int]@[w as int].clause);
                            if j2 < w {
                                assert(ow[p as int]@[j2].clause != ow[p as int]@[w as int].clause);
                            } else {
                                assert(ow[p as int]@[w as int].clause != ow[p as int]@[j2].clause);
                            }
                        }
                        assert(q == q0);
                        lemma_negated(ol[0]);
                    }
                }
            }
            assert forall|q: int, a: int, b: int|
                0 <= q < nw.len() && 0 <= a < b < nw[q].len() implies (#[trigger] nw[q]@[a]).clause
                    != (#[trigger] nw[q]@[b]).clause by {
                let new_a = q == n1.0 && a == nw[q].len() - 1;
                let new_b = q == n1.0 && b == nw[q].len() - 1;
                if new_b {
                    let a2 = choose|j2: int| 0 <= j2 < ow[q].len() && ow[q]@[j2] == nw[q]@[a] && !(q == p && j2 == w);
                    if nw[q]@[a].clause == c {
                        assert(o.is_watch(q, a2));
                        assert(q == p || q == q0);
                        lemma_negated(c1);
                        lemma_negated(ol[0]);
                    }
                } else {
                    let a2 = choose|j2: int| 0 <= j2 < ow[q].len() && ow[q]@[j2] == nw[q]@[a] && !(q == p && j2 == w);
                    let b2 = choose|j2: int| 0 <= j2 < ow[q].len() && ow[q]@[j2] == nw[q]@[b] && !(q == p && j2 == w);
                    if q == p {
                        let aa = if a == w { ow[q].len() - 1 } else { a };
                        let bb = if b == w { ow[q].len() - 1 } else { b };
                        assert(ow[q]@[aa] == nw[q]@[a]);
                        assert(ow[q]@[bb] == nw[q]@[b]);
                        if aa < bb {
                            assert(ow[q]@[aa].clause != ow[q]@[bb].clause);
                        } else {
                            assert(ow[q]@[bb].clause != ow[q]@[aa].clause);
                        }
                    } else {
                        assert(ow[q]@[a] == nw[q]@[a]);
                        assert(ow[q]@[b] == nw[q]@[b]);
                    }
                }
            }
            assert forall|q: int, j: int| #[trigger] self.is_watch(q, j) implies exists|q2: int, i2: int|
                #[trigger] o.is_watch(q2, i2) && o.wclause(q2, i2) == self.wclause(q, j) by {
                if q == n1.0 && j == nw[q].len() - 1 {
                    assert(o.is_watch(p as int, w as int));
                } else {
                    let j2 = choose|j2: int| 0 <= j2 < ow[q].len() && ow[q]@[j2] == nw[q]@[j] && !(q == p && j2 == w);
                    assert(o.is_watch(q, j2));
                }
            }
            assert(nw[p as int]@ == ow[p as int]@.update(w as int, ow[p as int]@.last()).drop_last());
            assert(nw[n1.0 as int]@.len() == ow[n1.0 as int]@.len() + 1);
            lemma_move_keeps_watched(*o, *self, p as int, w as int, n1.0 as int);
            lemma_inv_kept(o, self, c, p as int, w as int);
            lemma_swap_contains(ol, nl, 1, i as int);
            assert(o.is_watch(p as int, w as int));
            lemma_lits_kept_one(*o, *self, c);
            assert(nw[p as int]@ == mw[p as int]@);
            assert forall|j: int| 0 <= j < ow[n1.0 as int]@.len() implies nw[n1.0 as int]@[j] == #[trigger] ow[n1.0 as int]@[j] by {
                assert(mw[n1.0 as int] == ow[n1.0 as int]);
            }
            assert forall|q: int| 0 <= q < ow.len() && q != p && q != n1.0 implies #[trigger] nw[q] == ow[q] by {
                assert(mw[q] == ow[q]);
            }
        }
    }

    /// Marks one more trail literal as visited.
    fn advance_propagated(&mut self)
        requires
            old(self).inv(),
            old(self).propagated < old(self).trail.len(),
        ensures
            final(self).inv(),
            final(self).propagated == old(self).propagated + 1,
            final(self).cdb == old(self).cdb,
            final(self).watchers == old(self).watchers,
            final(self).value == old(self).value,
            final(self).trail == old(self).trail,
            final(self).reason == old(self).reason,
            final(self).domain == old(self).domain,
            final(self).pos_in_trail == old(self).pos_in_trail,
            final(self).vsids == old(self).vsids,
            final(self).phase_saving == old(self).phase_saving,
            final(self).keeps_extras(old(self)),
            forall|d: CRef| #[trigger] final(self).watched(d) == old(self).watched(d),
            lits_kept(*old(self), *final(self)),
            value_grows(old(self).value, final(self).value),
    {
        self.propagated = self.propagated + 1;
        proof {
            let o = old(self);
            assert(self.disjoint_ok()) by {
                assert forall|q1: int, i1: int, q2: int, i2: int|
                    self.is_watch(q1, i1) && self.is_watch(q2, i2) implies #[trigger] self.wclause(q1, i1)
                        == #[trigger] self.wclause(q2, i2) || apart(self.arena(), self.wclause(q1, i1), self.wclause(q2, i2)) by {
                    assert(o.is_watch(q1, i1) && o.is_watch(q2, i2));
                    assert(o.wclause(q1, i1) == self.wclause(q1, i1));
                    assert(o.wclause(q2, i2) == self.wclause(q2, i2));
                }
            }
            assert(self.reason_ok()) by {
                assert forall|t: int|
                    0 <= t < self.trail.len() && self.reason_of(#[trigger] self.trail@[t]) != spec_cref_none()
                        implies self.explains(self.reason_of(self.trail@[t]), self.trail@[t]) by {
                    let r = self.reason_of(self.trail@[t]);
                    assert(o.explains(r, o.trail@[t]));
                    assert forall|p: int, i: int| #[trigger] self.is_watch(p, i) implies self.wclause(p, i) == r || apart(self.arena(), r, self.wclause(p, i)) by {
                        assert(o.is_watch(p, i));
                    }
                }
            }
        }
        proof {
            lemma_watched_same(*self, *old(self));
        }
    }

    /// The trail holds at most one literal per variable.
    pub proof fn lemma_trail_bound(&self)
        requires
            self.inv(),
        ensures
            self.trail.len() <= self.nv(),
    {
        let m = self.trail@.map_values(|l: Lit| l.var().0 as int);
        let r = vstd::set_lib::set_int_range(0, self.nv() as int);
        assert(m.no_duplicates()) by {
            assert forall|i: int, j: int| 0 <= i < m.len() && 0 <= j < m.len() && i != j implies #[trigger] m[i] != #[trigger] m[j] by {
                if i < j {
                    assert(self.trail@[i].var() != self.trail@[j].var());
                } else {
                    assert(self.trail@[j].var() != self.trail@[i].var());
                }
            }
        }
        m.unique_seq_to_set();
        assert(m.to_set().subset_of(r)) by {
            assert forall|x: int| m.to_set().contains(x) implies r.contains(x) by {
                let i = choose|i: int| 0 <= i < m.len() && m[i] == x;
                assert(self.trail@[i].0 < 2 * self.nv());
            }
        }
        vstd::set_lib::lemma_int_range(0, self.nv() as int);
        vstd::set_lib::lemma_len_subset(m.to_set(), r);
    }

    /// Unit propagation restricted to the domain: visits the clauses
    /// watching each newly true literal, treating unassigned literals outside
    /// the domain as satisfied, and assigns the literals the clauses imply.
    /// Returns a clause whose literals are all false, or no clause when
    /// every trail literal has been visited.
    #[verifier::rlimit(100)]
    #[verifier::spinoff_prover]
    pub fn propagate_domain(&mut self) -> (r: CRef)
        requires
            old(self).inv(),
        ensures
            final(self).inv(),
            final(self).nv() == old(self).nv(),
            final(self).trail@.len() >= old(self).trail@.len(),
            final(self).trail@.subrange(0, old(self).trail@.len() as int) == old(self).trail@,
            forall|t: int|
                old(self).trail@.len() <= t < final(self).trail@.len() ==> final(self).reason_of(#[trigger] final(self).trail@[t]) != spec_cref_none(),
            r != spec_cref_none() ==> watchable(final(self).arena(), r, 2 * final(self).nv()),
            r != spec_cref_none() ==> forall|k: int| 0 <= k < final(self).arena().clause_len(r) ==> final(self).value.is_false(#[trigger] final(self).arena().lits(r)[k]),
            r == spec_cref_none() ==> final(self).propagated == final(self).trail.len(),
            final(self).domain == old(self).domain,
            final(self).pos_in_trail == old(self).pos_in_trail,
            final(self).vsids == old(self).vsids,
            final(self).phase_saving == old(self).phase_saving,
            final(self).keeps_extras(old(self)),
            forall|d: CRef| #[trigger] final(self).watched(d) == old(self).watched(d),
            lits_kept(*old(self), *final(self)),
            value_grows(old(self).value, final(self).value),
            crate::prop::prop_ok(*old(self), true) && r == spec_cref_none()
                ==> crate::prop::prop_ok(*final(self), true) && crate::prop::prop_complete(*final(self), true),
    {
        proof {
            self.lemma_trail_bound();
        }
        let ghost ok = crate::prop::prop_ok(*self, true);
        while (self.propagated as usize) < self.trail.len()
            invariant
                self.inv(),
                self.nv() == old(self).nv(),
                self.trail@.len() >= old(self).trail@.len(),
                self.trail@.subrange(0, old(self).trail@.len() as int) == old(self).trail@,
                forall|t: int|
                    old(self).trail@.len() <= t < self.trail@.len() ==> self.reason_of(#[trigger] self.trail@[t]) != spec_cref_none(),
                self.domain == old(self).domain,
                self.pos_in_trail == old(self).pos_in_trail,
                self.vsids == old(self).vsids,
                self.phase_saving == old(self).phase_saving,
                self.keeps_extras(old(self)),
                self.trail.len() <= self.nv(),
                forall|d: CRef| #[trigger] self.watched(d) == old(self).watched(d),
                lits_kept(*old(self), *self),
                value_grows(old(self).value, self.value),
                ok == crate::prop::prop_ok(*old(self), true),
                ok ==> crate::prop::prop_ok(*self, true),
            decreases self.nv() - self.trail.len(), self.trail.len() - self.propagated,
        {
            let pi = self.propagated as usize;
            let p = self.trail[pi];
            let ghost g0 = *self;
            self.advance_propagated();
            proof {
                lemma_kept_trans(*old(self), g0, *self);
                if ok {
                    assert(crate::prop::dom_kept(g0, *self, true));
                    crate::prop::lemma_positions_kept(g0, *self, true, pi as int, p.0 as int, 0);
                    if g0.is_watch(p.0 as int, 0) {
                        assert(self.arena().lits(self.wclause(p.0 as int, 0)).contains(self.watchers.wtrs@[p.0 as int]@[0].blocker));
                    }
                    crate::prop::lemma_positions_both(g0, *self, p.0 as int, 0);
                }
            }
            let ghost n0 = self.trail.len();
            proof {
                lemma_negated(p);
                lemma_value_negated(&self.value, p);
            }
            let np = p.not();
            let mut w: usize = 0;
            while w < self.watchers.wtrs[p.0 as usize].len()
                invariant
                    self.inv(),
                    self.nv() == old(self).nv(),
                    self.trail@.len() >= n0,
                    n0 >= old(self).trail@.len(),
                    self.trail@.subrange(0, old(self).trail@.len() as int) == old(self).trail@,
                    forall|t: int|
                        old(self).trail@.len() <= t < self.trail@.len() ==> self.reason_of(#[trigger] self.trail@[t]) != spec_cref_none(),
                    self.domain == old(self).domain,
                    self.pos_in_trail == old(self).pos_in_trail,
                    self.vsids == old(self).vsids,
                    self.phase_saving == old(self).phase_saving,
                    self.keeps_extras(old(self)),
                    self.propagated == pi + 1,
                    pi < self.trail.len(),
                    self.trail@[pi as int] == p,
                    np == p.negated(),
                    (p.0 as int) < 2 * self.nv(),
                    self.trail.len() <= self.nv(),
                    forall|d: CRef| #[trigger] self.watched(d) == old(self).watched(d),
                    lits_kept(*old(self), *self),
                    value_grows(old(self).value, self.value),
                    ok == crate::prop::prop_ok(*old(self), true),
                    ok ==> crate::prop::blockers_ok(*self) && crate::prop::both_watched(*self) && crate::prop::trail_complete(*self)
                        && crate::prop::done_upto(*self, true, pi as int) && crate::prop::prefix_free(*self, p.0 as int, w as int, true),
                decreases self.nv() - self.trail.len(), self.watchers.wtrs@[p.0 as int].len() - w,
            {
                proof {
                    assert(self.value.is_true(p));
                    lemma_value_negated(&self.value, p);
                    assert(self.is_watch(p.0 as int, w as int));
                }
                let blocker = self.watchers.wtrs[p.0 as usize][w].blocker;
                let bv = self.value.v(blocker);
                if bv.is_true() || (!bv.is_false() && !self.domain.has(blocker.var_of())) {
                    proof {
                        if ok {
                            lemma_value_negated(&self.value, blocker);
                            assert(crate::prop::lit_free(*self, blocker, true));
                            crate::prop::lemma_blocker_free(*self, p.0 as int, w as int, true);
                            crate::prop::lemma_prefix_step(*self, p.0 as int, w as int, true);
                        }
                    }
                    w = w + 1;
                    continue;
                }
                let cid = self.watchers.wtrs[p.0 as usize][w].clause;
                proof {
                    lemma_negated(self.arena().lits(cid)[0]);
                    lemma_negated(self.arena().lits(cid)[1]);
                }
                if self.cdb.allocator.lit(cid, 0) == np {
                    let ghost g0 = *self;
                    self.swap_watched(p.0 as usize, w);
                    proof {
                        lemma_kept_trans(*old(self), g0, *self);
                        if ok {
                            assert(g0.is_watch(p.0 as int, w as int));
                            crate::prop::lemma_swap_props(g0, *self, true, cid);
                            assert(crate::prop::done_upto(g0, true, pi as int));
                            assert(crate::prop::prefix_free(g0, p.0 as int, w as int, true));
                        }
                    }
                }
                proof {
                    assert(self.is_watch(p.0 as int, w as int));
                    assert(self.wclause(p.0 as int, w as int) == cid);
                    assert(self.arena().lits(cid)[1] == np) by {
                        lemma_negated(self.arena().lits(cid)[1]);
                        crate::lit::lemma_lit_determined(self.arena().lits(cid)[1], np);
                    }
                    lemma_value_negated(&self.value, p);
                }
                let c0 = self.cdb.allocator.lit(cid, 0);
                if c0 != blocker {
                    proof {
                        lemma_value_negated(&self.value, c0);
                    }
                    let cv = self.value.v(c0);
                    if cv.is_true() || (!cv.is_false() && !self.domain.has(c0.var_of())) {
                        let ghost g0 = *self;
                        self.set_blocker(p.0 as usize, w, c0);
                        proof {
                            lemma_kept_trans(*old(self), g0, *self);
                            if ok {
                                assert(crate::prop::dom_kept(g0, *self, true));
                                crate::prop::lemma_positions_kept(g0, *self, true, pi as int, p.0 as int, w as int);
                                assert(self.arena().lits(cid)[0] == c0);
                                assert(self.arena().lits(cid).contains(c0));
                                crate::prop::lemma_positions_both(g0, *self, p.0 as int, w as int);
                                assert(crate::prop::lit_free(*self, self.arena().lits(cid)[0], true));
                                crate::prop::lemma_free_at(*self, cid, true, 0);
                                crate::prop::lemma_prefix_step(*self, p.0 as int, w as int, true);
                            }
                        }
                        w = w + 1;
                        continue;
                    }
                }
                proof {
                    lemma_value_negated(&self.value, c0);
                }
                let len = self.cdb.allocator.clause_len_of(cid);
                let mut i: usize = 2;
                let mut moved = false;
                while i < len
                    invariant_except_break
                        !moved,
                    invariant
                        self.inv(),
                        2 <= i <= len,
                        len == self.arena().clause_len(cid),
                        self.is_watch(p.0 as int, w as int),
                        self.wclause(p.0 as int, w as int) == cid,
                        self.arena().lits(cid)[0] == c0,
                        self.arena().lits(cid)[1] == np,
                        !self.value.is_true(c0),
                        forall|k: int| 2 <= k < i ==> self.value.is_false(#[trigger] self.arena().lits(cid)[k]),
                    ensures
                        !moved ==> i == len,
                        moved ==> 2 <= i < len && !self.value.is_false(self.arena().lits(cid)[i as int]),
                    decreases len - i,
                {
                    let l = self.cdb.allocator.lit(cid, i);
                    if !self.value.v(l).is_false() {
                        moved = true;
                        break;
                    }
                    i = i + 1;
                }
                if moved {
                    let ghost g0 = *self;
                    self.move_watch(p.0 as usize, w, i);
                    proof {
                        lemma_kept_trans(*old(self), g0, *self);
                        if ok {
                            let nq = neg_code(g0.arena().lits(cid)[i as int].0) as int;
                            crate::prop::lemma_move_blockers(g0, *self, p.0 as int, w as int, i as int, nq);
                            crate::prop::lemma_move_both(g0, *self, p.0 as int, w as int, i as int, nq);
                            assert forall|t: int| 0 <= t < pi implies g0.trail@[t].0 as int != p.0 as int by {
                                assert(g0.trail@[t].var() != g0.trail@[pi as int].var());
                            }
                            crate::prop::lemma_move_done(g0, *self, true, p.0 as int, w as int, i as int, nq, pi as int);
                        }
                    }
                    continue;
                }
                let ghost g0 = *self;
                self.set_blocker(p.0 as usize, w, c0);
                proof {
                    lemma_kept_trans(*old(self), g0, *self);
                    if ok {
                        assert(crate::prop::dom_kept(g0, *self, true));
                        crate::prop::lemma_positions_kept(g0, *self, true, pi as int, p.0 as int, w as int);
                        assert(self.arena().lits(cid)[0] == c0);
                        assert(self.arena().lits(cid).contains(c0));
                        crate::prop::lemma_positions_both(g0, *self, p.0 as int, w as int);
                    }
                }
                if self.value.v(c0).is_false() {
                    proof {
                        assert(self.value.is_false(np));
                        assert forall|k: int| 0 <= k < self.arena().clause_len(cid) implies self.value.is_false(#[trigger] self.arena().lits(cid)[k]) by {
                        }
                    }
                    return cid;
                }
                proof {
                    assert(self.value.is_unassigned(c0)) by {
                        assert(self.value.val(c0).wf());
                    }
                    self.lemma_trail_bound();
                    assert(self.explains(cid, c0)) by {
                        assert(self.value.is_false(np));
                        assert forall|q: int, j: int| #[trigger] self.is_watch(q, j) implies self.wclause(q, j) == cid || apart(self.arena(), cid, self.wclause(q, j)) by {
                            assert(self.is_watch(p.0 as int, w as int));
                        }
                    }
                }
                let ghost before = *self;
                let ghost g0 = *self;
                self.assign(c0, cid);
                proof {
                    lemma_kept_trans(*old(self), g0, *self);
                    if ok {
                        assert(crate::prop::dom_kept(g0, *self, true)) by {
                            if true {
                                assert forall|l: Lit| g0.value.covers(l) && #[trigger] g0.value.is_unassigned(l)
                                    && !g0.domain.domain.contains(l.var()) implies self.value.is_unassigned(l) by {
                                    if l.var() == c0.var() {
                                        assert(g0.domain.domain.contains(c0.var()));
                                    } else {
                                        assert(self.value.val(l) == g0.value.val(l));
                                    }
                                }
                            }
                        }
                        assert forall|t: int| 0 <= t < pi implies #[trigger] self.trail@[t] == g0.trail@[t] by {}
                        crate::prop::lemma_positions_kept(g0, *self, true, pi as int, p.0 as int, w as int);
                        if g0.is_watch(p.0 as int, w as int) {
                            assert(self.arena().lits(self.wclause(p.0 as int, w as int)).contains(self.watchers.wtrs@[p.0 as int]@[w as int].blocker));
                        }
                        crate::prop::lemma_positions_both(g0, *self, p.0 as int, w as int);
                        crate::prop::lemma_assign_complete(g0, *self, c0);
                        assert(self.arena().lits(cid)[0] == c0);
                        assert(crate::prop::lit_free(*self, self.arena().lits(cid)[0], true));
                        crate::prop::lemma_free_at(*self, cid, true, 0);
                        crate::prop::lemma_prefix_step(*self, p.0 as int, w as int, true);
                    }
                }
                proof {
                    assert forall|t: int|
                        old(self).trail@.len() <= t < self.trail@.len() implies self.reason_of(#[trigger] self.trail@[t]) != spec_cref_none() by {
                        if t < before.trail.len() {
                            assert(self.trail@[t] == before.trail@[t]);
                            assert(before.trail@[t].var() != c0.var()) by {
                                if before.trail@[t].var() == c0.var() {
                                    crate::lit::lemma_same_var(before.trail@[t], c0);
                                    lemma_value_negated(&before.value, c0);
                                    assert(before.value.is_true(before.trail@[t]));
                                }
                            }
                            assert(self.reason_of(self.trail@[t]) == before.reason_of(before.trail@[t]));
                        }
                    }
                    assert(cid.0 < u32::MAX);
                    assert(self.trail@.subrange(0, old(self).trail@.len() as int) =~= old(self).trail@) by {
                        assert forall|t: int| 0 <= t < old(self).trail@.len() implies self.trail@[t] == old(self).trail@[t] by {
                        }
                    }
                    self.lemma_trail_bound();
                }
                w = w + 1;
            }
            proof {
                if ok {
                    assert(crate::prop::prefix_free(*self, p.0 as int, self.watchers.wtrs@[p.0 as int]@.len() as int, true));
                    crate::prop::lemma_done_step(*self, true, pi as int);
                }
            }
        }
        proof {
            if ok {
                crate::prop::lemma_complete(*self, true);
            }
        }
        CRef::none()
    }

    /// Unit propagation over all variables: visits the clauses watching each
    /// newly true literal and assigns the literals the clauses imply.
    /// Returns a clause whose literals are all false, or no clause when
    /// every trail literal has been visited.
    #[verifier::rlimit(100)]
    #[verifier::spinoff_prover]
    pub fn propagate_full(&mut self) -> (r: CRef)
        requires
            old(self).inv(),
        ensures
            final(self).inv(),
            final(self).nv() == old(self).nv(),
            final(self).trail@.len() >= old(self).trail@.len(),
            final(self).trail@.subrange(0, old(self).trail@.len() as int) == old(self).trail@,
            forall|t: int|
                old(self).trail@.len() <= t < final(self).trail@.len() ==> final(self).reason_of(#[trigger] final(self).trail@[t]) != spec_cref_none(),
            r != spec_cref_none() ==> watchable(final(self).arena(), r, 2 * final(self).nv()),
            r != spec_cref_none() ==> forall|k: int| 0 <= k < final(self).arena().clause_len(r) ==> final(self).value.is_false(#[trigger] final(self).arena().lits(r)[k]),
            r == spec_cref_none() ==> final(self).propagated == final(self).trail.len(),
            final(self).domain == old(self).domain,
            final(self).pos_in_trail == old(self).pos_in_trail,
            final(self).vsids == old(self).vsids,
            final(self).phase_saving == old(self).phase_saving,
            final(self).keeps_extras(old(self)),
            forall|d: CRef| #[trigger] final(self).watched(d) == old(self).watched(d),
            lits_kept(*old(self), *final(self)),
            value_grows(old(self).value, final(self).value),
            crate::prop::prop_ok(*old(self), false) && r == spec_cref_none()
                ==> crate::prop::prop_ok(*final(self), false) && crate::prop::prop_complete(*final(self), false),
    {
        proof {
            self.lemma_trail_bound();
        }
        let ghost ok = crate::prop::prop_ok(*self, false);
        while (self.propagated as usize) < self.trail.len()
            invariant
                self.inv(),
                self.nv() == old(self).nv(),
                self.trail@.len() >= old(self).trail@.len(),
                self.trail@.subrange(0, old(self).trail@.len() as int) == old(self).trail@,
                forall|t: int|
                    old(self).trail@.len() <= t < self.trail@.len() ==> self.reason_of(#[trigger] self.trail@[t]) != spec_cref_none(),
                self.domain == old(self).domain,
                self.pos_in_trail == old(self).pos_in_trail,
                self.vsids == old(self).vsids,
                self.phase_saving == old(self).phase_saving,
                self.keeps_extras(old(self)),
                self.trail.len() <= self.nv(),
                forall|d: CRef| #[trigger] self.watched(d) == old(self).watched(d),
                lits_kept(*old(self), *self),
                value_grows(old(self).value, self.value),
                ok == crate::prop::prop_ok(*old(self), false),
                ok ==> crate::prop::prop_ok(*self, false),
            decreases self.nv() - self.trail.len(), self.trail.len() - self.propagated,
        {
            let pi = self.propagated as usize;
            let p = self.trail[pi];
            let ghost g0 = *self;
            self.advance_propagated();
            proof {
                lemma_kept_trans(*old(self), g0, *self);
                if ok {
                    assert(crate::prop::dom_kept(g0, *self, false));
                    crate::prop::lemma_positions_kept(g0, *self, false, pi as int, p.0 as int, 0);
                    if g0.is_watch(p.0 as int, 0) {
                        assert(self.arena().lits(self.wclause(p.0 as int, 0)).contains(self.watchers.wtrs@[p.0 as int]@[0].blocker));
                    }
                    crate::prop::lemma_positions_both(g0, *self, p.0 as int, 0);
                }
            }
            let ghost n0 = self.trail.len();
            proof {
                lemma_negated(p);
                lemma_value_negated(&self.value, p);
            }
            let np = p.not();
            let mut w: usize = 0;
            while w < self.watchers.wtrs[p.0 as usize].len()
                invariant
                    self.inv(),
                    self.nv() == old(self).nv(),
                    self.trail@.len() >= n0,
                    n0 >= old(self).trail@.len(),
                    self.trail@.subrange(0, old(self).trail@.len() as int) == old(self).trail@,
                    forall|t: int|
                        old(self).trail@.len() <= t < self.trail@.len() ==> self.reason_of(#[trigger] self.trail@[t]) != spec_cref_none(),
                    self.domain == old(self).domain,
                    self.pos_in_trail == old(self).pos_in_trail,
                    self.vsids == old(self).vsids,
                    self.phase_saving == old(self).phase_saving,
                    self.keeps_extras(old(self)),
                    self.propagated == pi + 1,
                    pi < self.trail.len(),
                    self.trail@[pi as int] == p,
                    np == p.negated(),
                    (p.0 as int) < 2 * self.nv(),
                    self.trail.len() <= self.nv(),
                    forall|d: CRef| #[trigger] self.watched(d) == old(self).watched(d),
                    lits_kept(*old(self), *self),
                    value_grows(old(self).value, self.value),
                    ok == crate::prop::prop_ok(*old(self), false),
                    ok ==> crate::prop::blockers_ok(*self) && crate::prop::both_watched(*self) && crate::prop::trail_complete(*self)
                        && crate::prop::done_upto(*self, false, pi as int) && crate::prop::prefix_free(*self, p.0 as int, w as int, false),
                decreases self.nv() - self.trail.len(), self.watchers.wtrs@[p.0 as int].len() - w,
            {
                proof {
                    assert(self.value.is_true(p));
                    lemma_value_negated(&self.value, p);
                    assert(self.is_watch(p.0 as int, w as int));
                }
                let blocker = self.watchers.wtrs[p.0 as usize][w].blocker;
                let bv = self.value.v(blocker);
                if bv.is_true() {
                    proof {
                        if ok {
                            crate::prop::lemma_blocker_free(*self, p.0 as int, w as int, false);
                            crate::prop::lemma_prefix_step(*self, p.0 as int, w as int, false);
                        }
                    }
                    w = w + 1;
                    continue;
                }
                let cid = self.watchers.wtrs[p.0 as usize][w].clause;
                proof {
                    lemma_negated(self.arena().lits(cid)[0]);
                    lemma_negated(self.arena().lits(cid)[1]);
                }
                if self.cdb.allocator.lit(cid, 0) == np {
                    let ghost g0 = *self;
                    self.swap_watched(p.0 as usize, w);
                    proof {
                        lemma_kept_trans(*old(self), g0, *self);
                        if ok {
                            assert(g0.is_watch(p.0 as int, w as int));
                            crate::prop::lemma_swap_props(g0, *self, false, cid);
                            assert(crate::prop::done_upto(g0, false, pi as int));
                            assert(crate::prop::prefix_free(g0, p.0 as int, w as int, false));
                        }
                    }
                }
                proof {
                    assert(self.is_watch(p.0 as int, w as int));
                    assert(self.wclause(p.0 as int, w as int) == cid);
                    assert(self.arena().lits(cid)[1] == np) by {
                        lemma_negated(self.arena().lits(cid)[1]);
                        crate::lit::lemma_lit_determined(self.arena().lits(cid)[1], np);
                    }
                    lemma_value_negated(&self.value, p);
                }
                let c0 = self.cdb.allocator.lit(cid, 0);
                if c0 != blocker {
                    proof {
                        lemma_value_negated(&self.value, c0);
                    }
                    let cv = self.value.v(c0);
                    if cv.is_true() {
                        let ghost g0 = *self;
                        self.set_blocker(p.0 as usize, w, c0);
                        proof {
                            lemma_kept_trans(*old(self), g0, *self);
                            if ok {
                                assert(crate::prop::dom_kept(g0, *self, false));
                                crate::prop::lemma_positions_kept(g0, *self, false, pi as int, p.0 as int, w as int);
                                assert(self.arena().lits(cid)[0] == c0);
                                assert(self.arena().lits(cid).contains(c0));
                                crate::prop::lemma_positions_both(g0, *self, p.0 as int, w as int);
                                assert(crate::prop::lit_free(*self, self.arena().lits(cid)[0], false));
                                crate::prop::lemma_free_at(*self, cid, false, 0);
                                crate::prop::lemma_prefix_step(*self, p.0 as int, w as int, false);
                            }
                        }
                        w = w + 1;
                        continue;
                    }
                }
                proof {
                    lemma_value_negated(&self.value, c0);
                }
                let len = self.cdb.allocator.clause_len_of(cid);
                let mut i: usize = 2;
                let mut moved = false;
                while i < len
                    invariant_except_break
                        !moved,
                    invariant
                        self.inv(),
                        2 <= i <= len,
                        len == self.arena().clause_len(cid),
                        self.is_watch(p.0 as int, w as int),
                        self.wclause(p.0 as int, w as int) == cid,
                        self.arena().lits(cid)[0] == c0,
                        self.arena().lits(cid)[1] == np,
                        !self.value.is_true(c0),
                        forall|k: int| 2 <= k < i ==> self.value.is_false(#[trigger] self.arena().lits(cid)[k]),
                    ensures
                        !moved ==> i == len,
                        moved ==> 2 <= i < len && !self.value.is_false(self.arena().lits(cid)[i as int]),
                    decreases len - i,
                {
                    let l = self.cdb.allocator.lit(cid, i);
                    if !self.value.v(l).is_false() {
                        moved = true;
                        break;
                    }
                    i = i + 1;
                }
                if moved {
                    let ghost g0 = *self;
                    self.move_watch(p.0 as usize, w, i);
                    proof {
                        lemma_kept_trans(*old(self), g0, *self);
                        if ok {
                            let nq = neg_code(g0.arena().lits(cid)[i as int].0) as int;
                            crate::prop::lemma_move_blockers(g0, *self, p.0 as int, w as int, i as int, nq);
                            crate::prop::lemma_move_both(g0, *self, p.0 as int, w as int, i as int, nq);
                            assert forall|t: int| 0 <= t < pi implies g0.trail@[t].0 as int != p.0 as int by {
                                assert(g0.trail@[t].var() != g0.trail@[pi as int].var());
                            }
                            crate::prop::lemma_move_done(g0, *self, false, p.0 as int, w as int, i as int, nq, pi as int);
                        }
                    }
                    continue;
                }
                let ghost g0 = *self;
                self.set_blocker(p.0 as usize, w, c0);
                proof {
                    lemma_kept_trans(*old(self), g0, *self);
                    if ok {
                        assert(crate::prop::dom_kept(g0, *self, false));
                        crate::prop::lemma_positions_kept(g0, *self, false, pi as int, p.0 as int, w as int);
                        assert(self.arena().lits(cid)[0] == c0);
                        assert(self.arena().lits(cid).contains(c0));
                        crate::prop::lemma_positions_both(g0, *self, p.0 as int, w as int);
                    }
                }
                if self.value.v(c0).is_false() {
                    proof {
                        assert(self.value.is_false(np));
                        assert forall|k: int| 0 <= k < self.arena().clause_len(cid) implies self.value.is_false(#[trigger] self.arena().lits(cid)[k]) by {
                        }
                    }
                    return cid;
                }
                proof {
                    assert(self.value.is_unassigned(c0)) by {
                        assert(self.value.val(c0).wf());
                    }
                    self.lemma_trail_bound();
                    assert(self.explains(cid, c0)) by {
                        assert(self.value.is_false(np));
                        assert forall|q: int, j: int| #[trigger] self.is_watch(q, j) implies self.wclause(q, j) == cid || apart(self.arena(), cid, self.wclause(q, j)) by {
                            assert(self.is_watch(p.0 as int, w as int));
                        }
                    }
                }
                let ghost before = *self;
                let ghost g0 = *self;
                self.assign(c0, cid);
                proof {
                    lemma_kept_trans(*old(self), g0, *self);
                    if ok {
                        assert(crate::prop::dom_kept(g0, *self, false)) by {
                            if false {
                                assert forall|l: Lit| g0.value.covers(l) && #[trigger] g0.value.is_unassigned(l)
                                    && !g0.domain.domain.contains(l.var()) implies self.value.is_unassigned(l) by {
                                    if l.var() == c0.var() {
                                        assert(g0.domain.domain.contains(c0.var()));
                                    } else {
                                        assert(self.value.val(l) == g0.value.val(l));
                                    }
                                }
                            }
                        }
                        assert forall|t: int| 0 <= t < pi implies #[trigger] self.trail@[t] == g0.trail@[t] by {}
                        crate::prop::lemma_positions_kept(g0, *self, false, pi as int, p.0 as int, w as int);
                        if g0.is_watch(p.0 as int, w as int) {
                            assert(self.arena().lits(self.wclause(p.0 as int, w as int)).contains(self.watchers.wtrs@[p.0 as int]@[w as int].blocker));
                        }
                        crate::prop::lemma_positions_both(g0, *self, p.0 as int, w as int);
                        crate::prop::lemma_assign_complete(g0, *self, c0);
                        assert(self.arena().lits(cid)[0] == c0);
                        assert(crate::prop::lit_free(*self, self.arena().lits(cid)[0], false));
                        crate::prop::lemma_free_at(*self, cid, false, 0);
                        crate::prop::lemma_prefix_step(*self, p.0 as int, w as int, false);
                    }
                }
                proof {
                    assert forall|t: int|
                        old(self).trail@.len() <= t < self.trail@.len() implies self.reason_of(#[trigger] self.trail@[t]) != spec_cref_none() by {
                        if t < before.trail.len() {
                            assert(self.trail@[t] == before.trail@[t]);
                            assert(before.trail@[t].var() != c0.var()) by {
                                if before.trail@[t].var() == c0.var() {
                                    crate::lit::lemma_same_var(before.trail@[t], c0);
                                    lemma_value_negated(&before.value, c0);
                                    assert(before.value.is_true(before.trail@[t]));
                                }
                            }
                            assert(self.reason_of(self.trail@[t]) == before.reason_of(before.trail@[t]));
                        }
                    }
                    assert(cid.0 < u32::MAX);
                    assert(self.trail@.subrange(0, old(self).trail@.len() as int) =~= old(self).trail@) by {
                        assert forall|t: int| 0 <= t < old(self).trail@.len() implies self.trail@[t] == old(self).trail@[t] by {
                        }
                    }
                    self.lemma_trail_bound();
                }
                w = w + 1;
            }
            proof {
                if ok {
                    assert(crate::prop::prefix_free(*self, p.0 as int, self.watchers.wtrs@[p.0 as int]@.len() as int, false));
                    crate::prop::lemma_done_step(*self, false, pi as int);
                }
            }
        }
        proof {
            if ok {
                crate::prop::lemma_complete(*self, false);
            }
        }
        CRef::none()
    }

    /// Unit propagation: over all variables at level zero, else within the
    /// domain.
    pub fn propagate(&mut self) -> (r: CRef)
        requires
            old(self).inv(),
        ensures
            final(self).inv(),
            final(self).nv() == old(self).nv(),
            final(self).trail@.len() >= old(self).trail@.len(),
            final(self).trail@.subrange(0, old(self).trail@.len() as int) == old(self).trail@,
            forall|t: int|
                old(self).trail@.len() <= t < final(self).trail@.len() ==> final(self).reason_of(#[trigger] final(self).trail@[t]) != spec_cref_none(),
            r != spec_cref_none() ==> watchable(final(self).arena(), r, 2 * final(self).nv()),
            r != spec_cref_none() ==> forall|k: int| 0 <= k < final(self).arena().clause_len(r) ==> final(self).value.is_false(#[trigger] final(self).arena().lits(r)[k]),
            r == spec_cref_none() ==> final(self).propagated == final(self).trail.len(),
            final(self).domain == old(self).domain,
            final(self).pos_in_trail == old(self).pos_in_trail,
            final(self).vsids == old(self).vsids,
            final(self).phase_saving == old(self).phase_saving,
            final(self).keeps_extras(old(self)),
            forall|d: CRef| #[trigger] final(self).watched(d) == old(self).watched(d),
            lits_kept(*old(self), *final(self)),
            value_grows(old(self).value, final(self).value),
            crate::prop::prop_ok(*old(self), old(self).pos_in_trail@.len() > 0) && r == spec_cref_none()
                ==> crate::prop::prop_ok(*final(self), old(self).pos_in_trail@.len() > 0)
                && crate::prop::prop_complete(*final(self), old(self).pos_in_trail@.len() > 0),
    {
        if self.highest_level() == 0 {
            self.propagate_full()
        } else {
            self.propagate_domain()
        }
    }
}

} // verus!
