//! What unit propagation keeps of the watch lists, and what it reaches: once
//! every trail literal has been visited, each watched clause has a literal
//! that holds, or two literals that are not false.
use crate::cdb::{spec_cref_none, CRef};
use crate::lit::{lemma_negated, neg_code, Lit};
use crate::solver::{apart, lits_kept, value_grows, Solver};
use crate::value::lemma_value_negated;
use crate::watch::{watchable, Watcher};
use vstd::prelude::*;

verus! {

/// `l` counts as holding: it is true or, when propagating within the
/// domain (`dm`), unassigned and outside the domain.
pub open spec fn lit_free(s: Solver, l: Lit, dm: bool) -> bool {
    s.value.is_true(l) || (dm && s.value.is_unassigned(l) && !s.domain.domain.contains(l.var()))
}

/// Some literal of the clause at `c` counts as holding.
pub open spec fn clause_free(s: Solver, c: CRef, dm: bool) -> bool {
    exists|k: int| 0 <= k < s.arena().lits(c).len() && lit_free(s, #[trigger] s.arena().lits(c)[k], dm)
}

/// The list of code `q` has a watcher of the clause at `d`.
pub open spec fn in_list(s: Solver, q: int, d: CRef) -> bool {
    exists|i: int| #[trigger] s.is_watch(q, i) && s.wclause(q, i) == d
}

/// Every blocker is a literal of its clause.
pub open spec fn blockers_ok(s: Solver) -> bool {
    forall|q: int, i: int| #[trigger] s.is_watch(q, i) ==> s.arena().lits(s.wclause(q, i)).contains(s.watchers.wtrs@[q]@[i].blocker)
}

/// Every watched clause is watched by both its first and second literal.
pub open spec fn both_watched(s: Solver) -> bool {
    forall|d: CRef| #[trigger] s.watched(d) ==> in_list(s, neg_code(s.arena().lits(d)[0].0) as int, d)
        && in_list(s, neg_code(s.arena().lits(d)[1].0) as int, d)
}

/// Every true literal is on the trail.
pub open spec fn trail_complete(s: Solver) -> bool {
    forall|l: Lit| s.value.covers(l) && #[trigger] s.value.is_true(l) ==> s.trail@.contains(l)
}

/// The clauses watched by the negations of the first `n` trail literals
/// each have a literal that counts as holding.
pub open spec fn done_upto(s: Solver, dm: bool, n: int) -> bool {
    forall|t: int, i: int| 0 <= t < n && t < s.trail@.len() && #[trigger] s.is_watch(s.trail@[t].0 as int, i)
        ==> clause_free(s, s.wclause(s.trail@[t].0 as int, i), dm)
}

/// The first `w` watchers of the list of code `q` have clauses with a
/// literal that counts as holding.
pub open spec fn prefix_free(s: Solver, q: int, w: int, dm: bool) -> bool {
    forall|j: int| 0 <= j < w && #[trigger] s.is_watch(q, j) ==> clause_free(s, s.wclause(q, j), dm)
}

/// The watch invariant of propagation: blockers lie in their clauses, both
/// watches of each clause are in place, the trail holds every true literal,
/// and the clauses watched by the negations of the visited trail literals
/// each have a literal that counts as holding.
pub open spec fn prop_ok(s: Solver, dm: bool) -> bool {
    &&& blockers_ok(s)
    &&& both_watched(s)
    &&& trail_complete(s)
    &&& done_upto(s, dm, s.propagated as int)
}

/// The watch invariant over all variables does not look at the domain.
pub proof fn lemma_prop_ok_domain(o: Solver, s: Solver)
    requires
        prop_ok(o, false),
        s.value == o.value,
        s.trail == o.trail,
        s.watchers == o.watchers,
        s.cdb == o.cdb,
        s.propagated == o.propagated,
    ensures
        prop_ok(s, false),
{
    assert(blockers_ok(s)) by {
        assert forall|q: int, i: int| #[trigger] s.is_watch(q, i) implies s.arena().lits(s.wclause(q, i)).contains(s.watchers.wtrs@[q]@[i].blocker) by {
            assert(o.is_watch(q, i));
        }
    }
    assert(both_watched(s)) by {
        assert forall|d: CRef| #[trigger] s.watched(d) implies in_list(s, neg_code(s.arena().lits(d)[0].0) as int, d)
            && in_list(s, neg_code(s.arena().lits(d)[1].0) as int, d) by {
            let (q, i) = choose|q: int, i: int| #[trigger] s.is_watch(q, i) && s.wclause(q, i) == d;
            assert(o.is_watch(q, i) && o.wclause(q, i) == d);
            assert(o.watched(d));
            let q0 = neg_code(o.arena().lits(d)[0].0) as int;
            let q1 = neg_code(o.arena().lits(d)[1].0) as int;
            assert(in_list(o, q0, d));
            assert(in_list(o, q1, d));
            let i0 = choose|i0: int| #[trigger] o.is_watch(q0, i0) && o.wclause(q0, i0) == d;
            let i1 = choose|i1: int| #[trigger] o.is_watch(q1, i1) && o.wclause(q1, i1) == d;
            assert(s.is_watch(q0, i0) && s.wclause(q0, i0) == d);
            assert(s.is_watch(q1, i1) && s.wclause(q1, i1) == d);
        }
    }
    assert(trail_complete(s)) by {
        assert forall|l: Lit| s.value.covers(l) && #[trigger] s.value.is_true(l) implies s.trail@.contains(l) by {
            assert(o.value.is_true(l));
        }
    }
    assert forall|t: int, i: int| 0 <= t < s.propagated && t < s.trail@.len() && #[trigger] s.is_watch(s.trail@[t].0 as int, i)
        implies clause_free(s, s.wclause(s.trail@[t].0 as int, i), false) by {
        assert(o.is_watch(o.trail@[t].0 as int, i));
        assert(clause_free(o, o.wclause(o.trail@[t].0 as int, i), false));
        let c = s.wclause(s.trail@[t].0 as int, i);
        let k = choose|k: int| 0 <= k < o.arena().lits(c).len() && lit_free(o, #[trigger] o.arena().lits(c)[k], false);
        assert(lit_free(s, s.arena().lits(c)[k], false));
    }
}

/// Propagation is complete: each watched clause has a literal that counts
/// as holding, or its two watched literals are not false.
pub open spec fn prop_complete(s: Solver, dm: bool) -> bool {
    forall|d: CRef| #[trigger] s.watched(d) ==> clause_free(s, d, dm)
        || (!s.value.is_false(s.arena().lits(d)[0]) && !s.value.is_false(s.arena().lits(d)[1]))
}

/// Once every trail literal has been visited, the watch invariant makes
/// propagation complete.
pub proof fn lemma_complete(s: Solver, dm: bool)
    requires
        s.inv(),
        prop_ok(s, dm),
        s.propagated == s.trail.len(),
    ensures
        prop_complete(s, dm),
{
    assert forall|d: CRef| #[trigger] s.watched(d) implies clause_free(s, d, dm)
        || (!s.value.is_false(s.arena().lits(d)[0]) && !s.value.is_false(s.arena().lits(d)[1])) by {
        let (q, i) = choose|q: int, i: int| #[trigger] s.is_watch(q, i) && s.wclause(q, i) == d;
        assert(watchable(s.arena(), s.watchers.wtrs@[q]@[i].clause, s.watchers.wtrs.len() as nat));
        let l0 = s.arena().lits(d)[0];
        let l1 = s.arena().lits(d)[1];
        if s.value.is_false(l0) {
            lemma_negated(l0);
            lemma_value_negated(&s.value, l0);
            let n0 = l0.negated();
            assert(s.trail@.contains(n0));
            let t = choose|t: int| 0 <= t < s.trail@.len() && s.trail@[t] == n0;
            assert(in_list(s, neg_code(l0.0) as int, d));
            let j = choose|j: int| #[trigger] s.is_watch(neg_code(l0.0) as int, j) && s.wclause(neg_code(l0.0) as int, j) == d;
            assert(s.is_watch(s.trail@[t].0 as int, j));
        } else if s.value.is_false(l1) {
            lemma_negated(l1);
            lemma_value_negated(&s.value, l1);
            let n1 = l1.negated();
            assert(s.trail@.contains(n1));
            let t = choose|t: int| 0 <= t < s.trail@.len() && s.trail@[t] == n1;
            assert(in_list(s, neg_code(l1.0) as int, d));
            let j = choose|j: int| #[trigger] s.is_watch(neg_code(l1.0) as int, j) && s.wclause(neg_code(l1.0) as int, j) == d;
            assert(s.is_watch(s.trail@[t].0 as int, j));
        }
    }
}

/// The domain condition of a step: within the domain, a literal that was
/// unassigned and outside the domain stays so.
pub open spec fn dom_kept(o: Solver, s: Solver, dm: bool) -> bool {
    dm ==> s.domain == o.domain && forall|l: Lit| o.value.covers(l) && #[trigger] o.value.is_unassigned(l)
        && !o.domain.domain.contains(l.var()) ==> s.value.is_unassigned(l)
}

/// A watched clause with a literal that counts as holding keeps one when
/// its literals and the assigned values are kept.
pub proof fn lemma_free_mono(o: Solver, s: Solver, c: CRef, dm: bool)
    requires
        o.inv(),
        o.watched(c),
        lits_kept(o, s),
        value_grows(o.value, s.value),
        dom_kept(o, s, dm),
        clause_free(o, c, dm),
    ensures
        clause_free(s, c, dm),
{
    let (q, i) = choose|q: int, i: int| #[trigger] o.is_watch(q, i) && o.wclause(q, i) == c;
    assert(watchable(o.arena(), o.watchers.wtrs@[q]@[i].clause, o.watchers.wtrs.len() as nat));
    let ol = o.arena().lits(c);
    let k = choose|k: int| 0 <= k < ol.len() && lit_free(o, #[trigger] ol[k], dm);
    let l = ol[k];
    assert(ol.contains(l));
    assert(s.arena().lits(c).contains(l));
    let k2 = choose|k2: int| 0 <= k2 < s.arena().lits(c).len() && s.arena().lits(c)[k2] == l;
    assert(o.value.covers(l));
    if o.value.is_true(l) {
        assert(s.value.is_true(l));
    }
    assert(lit_free(s, s.arena().lits(c)[k2], dm));
}

/// A step that keeps every watcher's position and clause keeps the visited
/// clauses holding.
pub proof fn lemma_positions_kept(o: Solver, s: Solver, dm: bool, n: int, q: int, w: int)
    requires
        o.inv(),
        s.watchers.wtrs.len() == o.watchers.wtrs.len(),
        forall|p: int| 0 <= p < o.watchers.wtrs.len() ==> (#[trigger] s.watchers.wtrs@[p]).len() == o.watchers.wtrs@[p].len(),
        forall|p: int, i: int| #[trigger] o.is_watch(p, i) ==> s.wclause(p, i) == o.wclause(p, i),
        lits_kept(o, s),
        value_grows(o.value, s.value),
        dom_kept(o, s, dm),
        0 <= n <= o.trail@.len(),
        s.trail@.len() >= n,
        forall|t: int| 0 <= t < n ==> #[trigger] s.trail@[t] == o.trail@[t],
    ensures
        done_upto(o, dm, n) ==> done_upto(s, dm, n),
        prefix_free(o, q, w, dm) ==> prefix_free(s, q, w, dm),
{
    if done_upto(o, dm, n) {
        assert forall|t: int, i: int| 0 <= t < n && t < s.trail@.len() && #[trigger] s.is_watch(s.trail@[t].0 as int, i)
            implies clause_free(s, s.wclause(s.trail@[t].0 as int, i), dm) by {
            assert(s.trail@[t] == o.trail@[t]);
            assert(o.is_watch(o.trail@[t].0 as int, i));
            lemma_free_mono(o, s, o.wclause(o.trail@[t].0 as int, i), dm);
        }
    }
    if prefix_free(o, q, w, dm) {
        assert forall|j: int| 0 <= j < w && #[trigger] s.is_watch(q, j) implies clause_free(s, s.wclause(q, j), dm) by {
            assert(o.is_watch(q, j));
            lemma_free_mono(o, s, o.wclause(q, j), dm);
        }
    }
}

/// Making the unassigned `lit` true and pushing it on the trail keeps every
/// true literal on the trail.
pub proof fn lemma_assign_complete(o: Solver, s: Solver, lit: Lit)
    requires
        o.value.wf(),
        o.value.covers(lit),
        trail_complete(o),
        s.trail@ == o.trail@.push(lit),
        s.value.data.len() == o.value.data.len(),
        s.value.is_true(lit),
        s.value.wf(),
        forall|l: Lit| (l.0 as int) < o.value.data.len() && l.var() != lit.var() ==> #[trigger] s.value.val(l) == o.value.val(l),
    ensures
        trail_complete(s),
{
    assert forall|l: Lit| s.value.covers(l) && #[trigger] s.value.is_true(l) implies s.trail@.contains(l) by {
        if l.var() == lit.var() {
            crate::lit::lemma_same_var(l, lit);
            if l != lit {
                lemma_value_negated(&s.value, lit);
                lemma_negated(lit);
            }
            assert(s.trail@[o.trail@.len() as int] == lit);
        } else {
            assert(s.value.val(l) == o.value.val(l));
            assert(o.value.covers(l));
            assert(o.value.is_true(l));
            assert(o.trail@.contains(l));
            let t = choose|t: int| 0 <= t < o.trail@.len() && o.trail@[t] == l;
            assert(s.trail@[t] == l);
        }
    }
}

/// Exchanging the two watched literals of the clause at `c`, with the watch
/// lists left as they are, keeps the watch invariant.
pub proof fn lemma_swap_props(o: Solver, s: Solver, dm: bool, c: CRef)
    requires
        o.inv(),
        o.watched(c),
        s.watchers == o.watchers,
        s.value == o.value,
        s.domain == o.domain,
        s.trail == o.trail,
        lits_kept(o, s),
        s.arena().lits(c) == o.arena().lits(c).update(0, o.arena().lits(c)[1]).update(1, o.arena().lits(c)[0]),
        forall|d: CRef| o.arena().valid(d) && apart(o.arena(), c, d) ==> #[trigger] s.arena().lits(d) == o.arena().lits(d),
    ensures
        blockers_ok(o) ==> blockers_ok(s),
        both_watched(o) ==> both_watched(s),
        forall|n: int| 0 <= n <= o.trail@.len() && #[trigger] done_upto(o, dm, n) ==> done_upto(s, dm, n),
        forall|q: int, w: int| #[trigger] prefix_free(o, q, w, dm) ==> prefix_free(s, q, w, dm),
{
    assert forall|d: CRef| #[trigger] s.watched(d) == o.watched(d) by {
        if s.watched(d) {
            let (q, i) = choose|q: int, i: int| #[trigger] s.is_watch(q, i) && s.wclause(q, i) == d;
            assert(o.is_watch(q, i));
        }
        if o.watched(d) {
            let (q, i) = choose|q: int, i: int| #[trigger] o.is_watch(q, i) && o.wclause(q, i) == d;
            assert(s.is_watch(q, i));
        }
    }
    assert forall|q: int, i: int| #[trigger] o.is_watch(q, i) implies s.wclause(q, i) == o.wclause(q, i) by {}
    assert(dom_kept(o, s, dm));
    assert forall|n: int| 0 <= n <= o.trail@.len() && #[trigger] done_upto(o, dm, n) implies done_upto(s, dm, n) by {
        lemma_positions_kept(o, s, dm, n, 0, 0);
    }
    assert forall|q: int, w: int| #[trigger] prefix_free(o, q, w, dm) implies prefix_free(s, q, w, dm) by {
        lemma_positions_kept(o, s, dm, 0, q, w);
    }
    if blockers_ok(o) {
        assert forall|q: int, i: int| #[trigger] s.is_watch(q, i) implies s.arena().lits(s.wclause(q, i)).contains(s.watchers.wtrs@[q]@[i].blocker) by {
            assert(o.is_watch(q, i));
            let d = o.wclause(q, i);
            assert(o.watched(d));
            assert(o.arena().lits(d).contains(o.watchers.wtrs@[q]@[i].blocker));
        }
    }
    if both_watched(o) {
        assert forall|d: CRef| #[trigger] s.watched(d) implies in_list(s, neg_code(s.arena().lits(d)[0].0) as int, d)
            && in_list(s, neg_code(s.arena().lits(d)[1].0) as int, d) by {
            assert(o.watched(d));
            assert(in_list(o, neg_code(o.arena().lits(d)[0].0) as int, d));
            assert(in_list(o, neg_code(o.arena().lits(d)[1].0) as int, d));
            if d != c {
                crate::solver_clauses::lemma_watched_apart(o, c, d);
                crate::solver_clauses::lemma_watched_apart(o, d, d);
                assert(s.arena().lits(d) == o.arena().lits(d));
            }
            let q0 = neg_code(s.arena().lits(d)[0].0) as int;
            let q1 = neg_code(s.arena().lits(d)[1].0) as int;
            if d == c {
                let j0 = choose|j: int| #[trigger] o.is_watch(q0, j) && o.wclause(q0, j) == d;
                assert(s.is_watch(q0, j0));
                let j1 = choose|j: int| #[trigger] o.is_watch(q1, j) && o.wclause(q1, j) == d;
                assert(s.is_watch(q1, j1));
            } else {
                let j0 = choose|j: int| #[trigger] o.is_watch(q0, j) && o.wclause(q0, j) == d;
                assert(s.is_watch(q0, j0));
                let j1 = choose|j: int| #[trigger] o.is_watch(q1, j) && o.wclause(q1, j) == d;
                assert(s.is_watch(q1, j1));
            }
        }
    }
}

/// The effect of moving the watch of the clause at position `w` of the
/// list `p` from its second literal to its literal at `i`, which is not
/// false and whose list is `nq`.
pub open spec fn move_step(o: Solver, s: Solver, p: int, w: int, i: int, nq: int) -> bool {
    let c = o.wclause(p, w);
    let ol = o.arena().lits(c);
    let ow = o.watchers.wtrs@;
    let nw = s.watchers.wtrs@;
    &&& o.inv()
    &&& o.is_watch(p, w)
    &&& 2 <= i < ol.len()
    &&& ol[1].0 == neg_code(p as u32)
    &&& nq == neg_code(ol[i].0) as int
    &&& !o.value.is_false(ol[i])
    &&& nq != p
    &&& 0 <= nq < ow.len()
    &&& nw.len() == ow.len()
    &&& nw[p]@ == ow[p]@.update(w, ow[p]@.last()).drop_last()
    &&& nw[nq]@.len() == ow[nq]@.len() + 1
    &&& forall|j: int| 0 <= j < ow[nq]@.len() ==> nw[nq]@[j] == #[trigger] ow[nq]@[j]
    &&& nw[nq]@.last().clause == c
    &&& nw[nq]@.last().blocker == ol[0]
    &&& forall|q: int| 0 <= q < ow.len() && q != p && q != nq ==> #[trigger] nw[q] == ow[q]
    &&& s.arena().lits(c) == ol.update(1, ol[i]).update(i, ol[1])
    &&& forall|d: CRef| o.arena().valid(d) && apart(o.arena(), c, d) ==> #[trigger] s.arena().lits(d) == o.arena().lits(d)
    &&& forall|d: CRef| #[trigger] s.watched(d) == o.watched(d)
    &&& s.value == o.value
    &&& s.domain == o.domain
    &&& s.trail == o.trail
    &&& lits_kept(o, s)
}

/// After a move, each watcher is an old one at a known position, or the
/// new one; and each old one but the moved one is still there.
pub proof fn lemma_move_map(o: Solver, s: Solver, p: int, w: int, i: int, nq: int)
    requires
        move_step(o, s, p, w, i, nq),
    ensures
        forall|q: int, j: int| #[trigger] s.is_watch(q, j) && !(q == nq && j == s.watchers.wtrs@[nq].len() - 1) ==>
            exists|j2: int| #[trigger] o.is_watch(q, j2) && o.watchers.wtrs@[q]@[j2] == s.watchers.wtrs@[q]@[j] && !(q == p && j2 == w),
        forall|q: int, j: int| #[trigger] o.is_watch(q, j) && !(q == p && j == w) ==>
            exists|j2: int| #[trigger] s.is_watch(q, j2) && s.watchers.wtrs@[q]@[j2] == o.watchers.wtrs@[q]@[j],
        s.is_watch(nq, s.watchers.wtrs@[nq].len() - 1),
{
    let ow = o.watchers.wtrs@;
    let nw = s.watchers.wtrs@;
    assert forall|q: int, j: int| #[trigger] s.is_watch(q, j) && !(q == nq && j == nw[nq].len() - 1) implies
        exists|j2: int| #[trigger] o.is_watch(q, j2) && ow[q]@[j2] == nw[q]@[j] && !(q == p && j2 == w) by {
        if q == p {
            if j == w {
                assert(ow[q]@[ow[q].len() - 1] == nw[q]@[j]);
                assert(o.is_watch(q, ow[q].len() - 1));
            } else {
                assert(ow[q]@[j] == nw[q]@[j]);
                assert(o.is_watch(q, j));
            }
        } else if q == nq {
            assert(ow[q]@[j] == nw[q]@[j]);
            assert(o.is_watch(q, j));
        } else {
            assert(nw[q] == ow[q]);
            assert(o.is_watch(q, j));
        }
    }
    assert forall|q: int, j: int| #[trigger] o.is_watch(q, j) && !(q == p && j == w) implies
        exists|j2: int| #[trigger] s.is_watch(q, j2) && nw[q]@[j2] == ow[q]@[j] by {
        if q == p {
            let j2 = if j == ow[q].len() - 1 { w } else { j };
            assert(nw[q]@[j2] == ow[q]@[j]);
            assert(s.is_watch(q, j2));
        } else if q == nq {
            assert(nw[q]@[j] == ow[q]@[j]);
            assert(s.is_watch(q, j));
        } else {
            assert(nw[q] == ow[q]);
            assert(s.is_watch(q, j));
        }
    }
}

/// A move keeps the blockers in their clauses.
pub proof fn lemma_move_blockers(o: Solver, s: Solver, p: int, w: int, i: int, nq: int)
    requires
        move_step(o, s, p, w, i, nq),
        blockers_ok(o),
    ensures
        blockers_ok(s),
{
    let c = o.wclause(p, w);
    let ol = o.arena().lits(c);
    let ow = o.watchers.wtrs@;
    let nw = s.watchers.wtrs@;
    lemma_move_map(o, s, p, w, i, nq);
    assert forall|q: int, j: int| #[trigger] s.is_watch(q, j) implies s.arena().lits(s.wclause(q, j)).contains(s.watchers.wtrs@[q]@[j].blocker) by {
        if q == nq && j == nw[nq].len() - 1 {
            assert(s.arena().lits(c)[0] == ol[0]);
        } else {
            let j2 = choose|j2: int| #[trigger] o.is_watch(q, j2) && ow[q]@[j2] == nw[q]@[j] && !(q == p && j2 == w);
            let d = o.wclause(q, j2);
            assert(o.watched(d));
            assert(o.arena().lits(d).contains(ow[q]@[j2].blocker));
        }
    }
}

/// A move keeps both watches of each clause in place.
#[verifier::rlimit(40)]
pub proof fn lemma_move_both(o: Solver, s: Solver, p: int, w: int, i: int, nq: int)
    requires
        move_step(o, s, p, w, i, nq),
        both_watched(o),
    ensures
        both_watched(s),
{
    let c = o.wclause(p, w);
    let ol = o.arena().lits(c);
    let ow = o.watchers.wtrs@;
    let nw = s.watchers.wtrs@;
    lemma_move_map(o, s, p, w, i, nq);
    crate::solver_clauses::lemma_watched_apart(o, c, c);
    assert forall|d: CRef| #[trigger] s.watched(d) implies in_list(s, neg_code(s.arena().lits(d)[0].0) as int, d)
        && in_list(s, neg_code(s.arena().lits(d)[1].0) as int, d) by {
        assert(o.watched(d));
        assert(in_list(o, neg_code(o.arena().lits(d)[0].0) as int, d));
        assert(in_list(o, neg_code(o.arena().lits(d)[1].0) as int, d));
        if d == c {
            let q0 = neg_code(ol[0].0) as int;
            assert(s.arena().lits(d)[0] == ol[0]);
            assert(s.arena().lits(d)[1] == ol[i]);
            let j0 = choose|j: int| #[trigger] o.is_watch(q0, j) && o.wclause(q0, j) == d;
            assert(q0 != p) by {
                lemma_negated(ol[0]);
                lemma_negated(ol[1]);
                if q0 == p {
                    assert(neg_code(ol[0].0) == neg_code(ol[1].0));
                    assert(ol[0].negated() == ol[1].negated());
                    assert(ol[0] == ol[1]);
                }
            }
            let j2 = choose|j2: int| #[trigger] s.is_watch(q0, j2) && nw[q0]@[j2] == ow[q0]@[j0];
            assert(s.wclause(q0, j2) == d);
        } else {
            crate::solver_clauses::lemma_watched_apart(o, c, d);
            crate::solver_clauses::lemma_watched_apart(o, d, d);
            assert(s.arena().lits(d) == o.arena().lits(d));
            let q0 = neg_code(s.arena().lits(d)[0].0) as int;
            let q1 = neg_code(s.arena().lits(d)[1].0) as int;
            let j0 = choose|j: int| #[trigger] o.is_watch(q0, j) && o.wclause(q0, j) == d;
            let k0 = choose|j2: int| #[trigger] s.is_watch(q0, j2) && nw[q0]@[j2] == ow[q0]@[j0];
            assert(s.wclause(q0, k0) == d);
            let j1 = choose|j: int| #[trigger] o.is_watch(q1, j) && o.wclause(q1, j) == d;
            let k1 = choose|j2: int| #[trigger] s.is_watch(q1, j2) && nw[q1]@[j2] == ow[q1]@[j1];
            assert(s.wclause(q1, k1) == d);
        }
    }
}

/// A move keeps the visited clauses holding, when the list it leaves is not
/// among the visited ones, and the prefix of that list before `w`.
pub proof fn lemma_move_done(o: Solver, s: Solver, dm: bool, p: int, w: int, i: int, nq: int, n: int)
    requires
        move_step(o, s, p, w, i, nq),
        0 <= n <= o.trail@.len(),
        forall|t: int| 0 <= t < n ==> o.trail@[t].0 as int != p,
    ensures
        done_upto(o, dm, n) ==> done_upto(s, dm, n),
        prefix_free(o, p, w, dm) ==> prefix_free(s, p, w, dm),
{
    let c = o.wclause(p, w);
    let ol = o.arena().lits(c);
    let ow = o.watchers.wtrs@;
    let nw = s.watchers.wtrs@;
    assert(dom_kept(o, s, dm));
    lemma_move_map(o, s, p, w, i, nq);
    if done_upto(o, dm, n) {
        assert forall|t: int, j: int| 0 <= t < n && t < s.trail@.len() && #[trigger] s.is_watch(s.trail@[t].0 as int, j)
            implies clause_free(s, s.wclause(s.trail@[t].0 as int, j), dm) by {
            let q = s.trail@[t].0 as int;
            assert(o.trail@[t].0 as int != p);
            if q == nq && j == nw[nq].len() - 1 {
                let x = o.trail@[t];
                assert(o.value.is_true(x));
                lemma_negated(ol[i]);
                assert(x.0 == ol[i].negated().0);
                assert(x == ol[i].negated());
                lemma_value_negated(&o.value, ol[i]);
                assert(false);
            } else {
                let j2 = choose|j2: int| #[trigger] o.is_watch(q, j2) && ow[q]@[j2] == nw[q]@[j] && !(q == p && j2 == w);
                assert(o.is_watch(o.trail@[t].0 as int, j2));
                lemma_free_mono(o, s, o.wclause(q, j2), dm);
            }
        }
    }
    if prefix_free(o, p, w, dm) {
        assert forall|j: int| 0 <= j < w && #[trigger] s.is_watch(p, j) implies clause_free(s, s.wclause(p, j), dm) by {
            assert(nw[p]@[j] == ow[p]@[j]);
            assert(o.is_watch(p, j));
            lemma_free_mono(o, s, o.wclause(p, j), dm);
        }
    }
}

/// A clause whose literal at position `k` counts as holding has a literal
/// that does.
pub proof fn lemma_free_at(s: Solver, c: CRef, dm: bool, k: int)
    requires
        0 <= k < s.arena().lits(c).len(),
        lit_free(s, s.arena().lits(c)[k], dm),
    ensures
        clause_free(s, c, dm),
{
}

/// A watcher whose blocker holds has a clause with a literal that holds.
pub proof fn lemma_blocker_free(s: Solver, q: int, w: int, dm: bool)
    requires
        blockers_ok(s),
        s.is_watch(q, w),
        lit_free(s, s.watchers.wtrs@[q]@[w].blocker, dm),
    ensures
        clause_free(s, s.wclause(q, w), dm),
{
    let c = s.wclause(q, w);
    let b = s.watchers.wtrs@[q]@[w].blocker;
    assert(s.arena().lits(c).contains(b));
    let k = choose|k: int| 0 <= k < s.arena().lits(c).len() && s.arena().lits(c)[k] == b;
    lemma_free_at(s, c, dm, k);
}

/// One more watcher of the list whose clause holds extends the prefix.
pub proof fn lemma_prefix_step(s: Solver, q: int, w: int, dm: bool)
    requires
        prefix_free(s, q, w, dm),
        s.is_watch(q, w),
        clause_free(s, s.wclause(q, w), dm),
    ensures
        prefix_free(s, q, w + 1, dm),
{
}

/// A whole list visited extends the visited prefix of the trail.
pub proof fn lemma_done_step(s: Solver, dm: bool, n: int)
    requires
        0 <= n < s.trail@.len(),
        done_upto(s, dm, n),
        prefix_free(s, s.trail@[n].0 as int, s.watchers.wtrs@[s.trail@[n].0 as int]@.len() as int, dm),
    ensures
        done_upto(s, dm, n + 1),
{
    assert forall|t: int, i: int| 0 <= t < n + 1 && t < s.trail@.len() && #[trigger] s.is_watch(s.trail@[t].0 as int, i)
        implies clause_free(s, s.wclause(s.trail@[t].0 as int, i), dm) by {
        if t == n {
            assert(s.is_watch(s.trail@[n].0 as int, i));
        }
    }
}

/// A step that changes no watcher's position or clause, nor the arena,
/// keeps both watches of each clause in place, and the blockers, when it
/// changes no blocker but maybe one, set to a literal of its clause.
pub proof fn lemma_positions_both(o: Solver, s: Solver, q: int, w: int)
    requires
        s.cdb == o.cdb,
        s.watchers.wtrs.len() == o.watchers.wtrs.len(),
        forall|p: int| 0 <= p < o.watchers.wtrs.len() ==> (#[trigger] s.watchers.wtrs@[p]).len() == o.watchers.wtrs@[p].len(),
        forall|p: int, i: int| #[trigger] o.is_watch(p, i) ==> s.wclause(p, i) == o.wclause(p, i),
        forall|p: int, i: int| #[trigger] o.is_watch(p, i) && !(p == q && i == w) ==> s.watchers.wtrs@[p]@[i] == o.watchers.wtrs@[p]@[i],
        o.is_watch(q, w) ==> s.arena().lits(s.wclause(q, w)).contains(s.watchers.wtrs@[q]@[w].blocker),
    ensures
        both_watched(o) ==> both_watched(s),
        blockers_ok(o) ==> blockers_ok(s),
{
    assert forall|d: CRef| #[trigger] s.watched(d) == o.watched(d) by {
        if s.watched(d) {
            let (p, i) = choose|p: int, i: int| #[trigger] s.is_watch(p, i) && s.wclause(p, i) == d;
            assert(o.is_watch(p, i));
        }
        if o.watched(d) {
            let (p, i) = choose|p: int, i: int| #[trigger] o.is_watch(p, i) && o.wclause(p, i) == d;
            assert(s.is_watch(p, i));
        }
    }
    assert forall|p: int, d: CRef| #[trigger] in_list(o, p, d) implies in_list(s, p, d) by {
        let i = choose|i: int| #[trigger] o.is_watch(p, i) && o.wclause(p, i) == d;
        assert(s.is_watch(p, i));
    }
    if both_watched(o) {
        assert forall|d: CRef| #[trigger] s.watched(d) implies in_list(s, neg_code(s.arena().lits(d)[0].0) as int, d)
            && in_list(s, neg_code(s.arena().lits(d)[1].0) as int, d) by {
            assert(o.watched(d));
            assert(in_list(o, neg_code(o.arena().lits(d)[0].0) as int, d));
            assert(in_list(o, neg_code(o.arena().lits(d)[1].0) as int, d));
        }
    }
    if blockers_ok(o) {
        assert forall|p: int, i: int| #[trigger] s.is_watch(p, i) implies s.arena().lits(s.wclause(p, i)).contains(s.watchers.wtrs@[p]@[i].blocker) by {
            assert(o.is_watch(p, i));
        }
    }
}

/// Adding variables, with new empty watch lists and unassigned values, keeps
/// the watch invariant.
pub proof fn lemma_grow_vars(o: Solver, s: Solver)
    requires
        o.inv(),
        s.cdb == o.cdb,
        s.trail == o.trail,
        s.propagated == o.propagated,
        s.watchers.wtrs.len() >= o.watchers.wtrs.len(),
        forall|q: int| 0 <= q < o.watchers.wtrs.len() ==> #[trigger] s.watchers.wtrs@[q] == o.watchers.wtrs@[q],
        forall|q: int| o.watchers.wtrs.len() <= q < s.watchers.wtrs.len() ==> (#[trigger] s.watchers.wtrs@[q])@.len() == 0,
        s.value.data.len() >= o.value.data.len(),
        forall|l: Lit| (l.0 as int) < o.value.data.len() ==> #[trigger] s.value.val(l) == o.value.val(l),
        forall|l: Lit| o.value.data.len() <= (l.0 as int) < s.value.data.len() ==> #[trigger] s.value.is_unassigned(l),
    ensures
        prop_ok(o, false) ==> prop_ok(s, false),
{
    assert forall|q: int, i: int| #[trigger] s.is_watch(q, i) <==> o.is_watch(q, i) by {
        if s.is_watch(q, i) && q >= o.watchers.wtrs.len() {
            assert(s.watchers.wtrs@[q]@.len() == 0);
        }
    }
    assert forall|q: int, i: int| #[trigger] o.is_watch(q, i) implies s.wclause(q, i) == o.wclause(q, i) && s.watchers.wtrs@[q]@[i] == o.watchers.wtrs@[q]@[i] by {
        assert(s.watchers.wtrs@[q] == o.watchers.wtrs@[q]);
    }
    assert forall|d: CRef| #[trigger] s.watched(d) == o.watched(d) by {
        if s.watched(d) {
            let (q, i) = choose|q: int, i: int| #[trigger] s.is_watch(q, i) && s.wclause(q, i) == d;
            assert(o.is_watch(q, i));
        }
        if o.watched(d) {
            let (q, i) = choose|q: int, i: int| #[trigger] o.is_watch(q, i) && o.wclause(q, i) == d;
            assert(s.is_watch(q, i));
        }
    }
    assert forall|q: int, d: CRef| #[trigger] in_list(o, q, d) implies in_list(s, q, d) by {
        let i = choose|i: int| #[trigger] o.is_watch(q, i) && o.wclause(q, i) == d;
        assert(s.is_watch(q, i));
    }
    if prop_ok(o, false) {
        assert forall|q: int, i: int| #[trigger] s.is_watch(q, i) implies s.arena().lits(s.wclause(q, i)).contains(s.watchers.wtrs@[q]@[i].blocker) by {
            assert(o.is_watch(q, i));
        }
        assert forall|d: CRef| #[trigger] s.watched(d) implies in_list(s, neg_code(s.arena().lits(d)[0].0) as int, d)
            && in_list(s, neg_code(s.arena().lits(d)[1].0) as int, d) by {
            assert(o.watched(d));
        }
        assert forall|l: Lit| s.value.covers(l) && #[trigger] s.value.is_true(l) implies s.trail@.contains(l) by {
            if (l.0 as int) < o.value.data.len() {
                assert(s.value.val(l) == o.value.val(l));
                assert(o.value.covers(l));
                assert(o.value.is_true(l));
                assert(o.trail@.contains(l));
            } else {
                assert(s.value.is_unassigned(l));
            }
        }
        assert forall|t: int, i: int| 0 <= t < s.propagated && t < s.trail@.len() && #[trigger] s.is_watch(s.trail@[t].0 as int, i)
            implies clause_free(s, s.wclause(s.trail@[t].0 as int, i), false) by {
            assert(o.is_watch(o.trail@[t].0 as int, i));
            let c = o.wclause(o.trail@[t].0 as int, i);
            assert(clause_free(o, c, false));
            let k = choose|k: int| 0 <= k < o.arena().lits(c).len() && lit_free(o, #[trigger] o.arena().lits(c)[k], false);
            let l = o.arena().lits(c)[k];
            assert(watchable(o.arena(), o.watchers.wtrs@[o.trail@[t].0 as int]@[i].clause, o.watchers.wtrs.len() as nat));
            assert(o.value.is_true(l));
            assert((l.0 as int) < o.value.data.len());
            assert(s.value.val(l) == o.value.val(l));
            assert(lit_free(s, s.arena().lits(c)[k], false));
        }
    }
}

/// Attaching a new clause, watched by its first two literals, which are not
/// false, keeps the watch invariant.
#[verifier::rlimit(40)]
pub proof fn lemma_attach_props(o: Solver, s: Solver, c: CRef)
    requires
        o.inv(),
        !o.watched(c),
        s.arena().lits(c).len() >= 2,
        s.arena().lits(c)[0] != s.arena().lits(c)[1],
        !o.value.is_false(s.arena().lits(c)[0]),
        !o.value.is_false(s.arena().lits(c)[1]),
        s.watchers.wtrs.len() == o.watchers.wtrs.len(),
        0 <= neg_code(s.arena().lits(c)[0].0) < o.watchers.wtrs.len(),
        0 <= neg_code(s.arena().lits(c)[1].0) < o.watchers.wtrs.len(),
        s.watchers.wtrs@[neg_code(s.arena().lits(c)[0].0) as int]@
            == o.watchers.wtrs@[neg_code(s.arena().lits(c)[0].0) as int]@.push(Watcher { clause: c, blocker: s.arena().lits(c)[1] }),
        s.watchers.wtrs@[neg_code(s.arena().lits(c)[1].0) as int]@
            == o.watchers.wtrs@[neg_code(s.arena().lits(c)[1].0) as int]@.push(Watcher { clause: c, blocker: s.arena().lits(c)[0] }),
        forall|q: int| 0 <= q < o.watchers.wtrs.len() && q != neg_code(s.arena().lits(c)[0].0) && q != neg_code(s.arena().lits(c)[1].0)
            ==> #[trigger] s.watchers.wtrs@[q] == o.watchers.wtrs@[q],
        forall|d: CRef| #[trigger] o.arena().valid(d) ==> s.arena().lits(d) == o.arena().lits(d),
        s.value == o.value,
        s.trail == o.trail,
        s.propagated == o.propagated,
    ensures
        prop_ok(o, false) ==> prop_ok(s, false),
{
    let l0 = s.arena().lits(c)[0];
    let l1 = s.arena().lits(c)[1];
    let q0 = neg_code(l0.0) as int;
    let q1 = neg_code(l1.0) as int;
    let ow = o.watchers.wtrs@;
    let nw = s.watchers.wtrs@;
    assert(q0 != q1) by {
        lemma_negated(l0);
        lemma_negated(l1);
        if q0 == q1 {
            assert(l0.negated() == l1.negated());
        }
    }
    // old watchers stay where they were; the new ones name `c`
    assert forall|q: int, i: int| #[trigger] o.is_watch(q, i) implies s.is_watch(q, i) && nw[q]@[i] == ow[q]@[i] by {}
    assert forall|q: int, i: int| #[trigger] s.is_watch(q, i) && !o.is_watch(q, i) implies s.wclause(q, i) == c
        && ((q == q0 && nw[q]@[i].blocker == l1) || (q == q1 && nw[q]@[i].blocker == l0)) by {}
    assert forall|d: CRef| #[trigger] o.watched(d) implies o.arena().valid(d) by {
        let (q, i) = choose|q: int, i: int| #[trigger] o.is_watch(q, i) && o.wclause(q, i) == d;
        assert(watchable(o.arena(), ow[q]@[i].clause, ow.len() as nat));
    }
    if prop_ok(o, false) {
        assert forall|q: int, i: int| #[trigger] s.is_watch(q, i) implies s.arena().lits(s.wclause(q, i)).contains(s.watchers.wtrs@[q]@[i].blocker) by {
            if o.is_watch(q, i) {
                assert(o.watched(o.wclause(q, i)));
            } else {
                assert(s.arena().lits(c)[0] == l0);
                assert(s.arena().lits(c)[1] == l1);
            }
        }
        assert forall|d: CRef| #[trigger] s.watched(d) implies in_list(s, neg_code(s.arena().lits(d)[0].0) as int, d)
            && in_list(s, neg_code(s.arena().lits(d)[1].0) as int, d) by {
            if d == c {
                assert(s.is_watch(q0, nw[q0].len() - 1));
                assert(s.is_watch(q1, nw[q1].len() - 1));
            } else {
                let (q, i) = choose|q: int, i: int| #[trigger] s.is_watch(q, i) && s.wclause(q, i) == d;
                assert(o.is_watch(q, i));
                assert(o.watched(d));
                assert(s.arena().lits(d) == o.arena().lits(d));
                let a = neg_code(o.arena().lits(d)[0].0) as int;
                let b = neg_code(o.arena().lits(d)[1].0) as int;
                assert(in_list(o, a, d));
                assert(in_list(o, b, d));
                let ia = choose|j: int| #[trigger] o.is_watch(a, j) && o.wclause(a, j) == d;
                let ib = choose|j: int| #[trigger] o.is_watch(b, j) && o.wclause(b, j) == d;
                assert(s.is_watch(a, ia));
                assert(s.is_watch(b, ib));
            }
        }
        assert forall|t: int, i: int| 0 <= t < s.propagated && t < s.trail@.len() && #[trigger] s.is_watch(s.trail@[t].0 as int, i)
            implies clause_free(s, s.wclause(s.trail@[t].0 as int, i), false) by {
            let q = s.trail@[t].0 as int;
            let x = s.trail@[t];
            if o.is_watch(q, i) {
                let d = o.wclause(q, i);
                assert(o.is_watch(o.trail@[t].0 as int, i));
                assert(clause_free(o, d, false));
                assert(o.watched(d));
                assert(s.arena().lits(d) == o.arena().lits(d));
                let k = choose|k: int| 0 <= k < o.arena().lits(d).len() && lit_free(o, #[trigger] o.arena().lits(d)[k], false);
                assert(lit_free(s, s.arena().lits(d)[k], false));
            } else {
                assert(o.value.is_true(x));
                lemma_negated(l0);
                lemma_negated(l1);
                if q == q0 {
                    assert(x == l0.negated());
                    lemma_value_negated(&o.value, l0);
                } else {
                    assert(x == l1.negated());
                    lemma_value_negated(&o.value, l1);
                }
                assert(false);
            }
        }
    }
}

/// Assigning a literal at the end of the trail, beyond the visited part,
/// keeps the watch invariant.
pub proof fn lemma_assign_props(o: Solver, s: Solver, lit: Lit)
    requires
        o.inv(),
        o.value.covers(lit),
        s.watchers == o.watchers,
        s.cdb == o.cdb,
        s.trail@ == o.trail@.push(lit),
        s.propagated == o.propagated,
        s.value.wf(),
        s.value.data.len() == o.value.data.len(),
        s.value.is_true(lit),
        forall|l: Lit| (l.0 as int) < o.value.data.len() && l.var() != lit.var() ==> #[trigger] s.value.val(l) == o.value.val(l),
        lits_kept(o, s),
        value_grows(o.value, s.value),
    ensures
        prop_ok(o, false) ==> prop_ok(s, false),
{
    if prop_ok(o, false) {
        assert(dom_kept(o, s, false));
        assert forall|t: int| 0 <= t < o.propagated implies #[trigger] s.trail@[t] == o.trail@[t] by {}
        lemma_positions_kept(o, s, false, o.propagated as int, 0, 0);
        if o.is_watch(0, 0) {
            assert(s.arena().lits(s.wclause(0, 0)).contains(s.watchers.wtrs@[0]@[0].blocker));
        }
        lemma_positions_both(o, s, 0, 0);
        lemma_assign_complete(o, s, lit);
    }
}

} // verus!
