//! Subsumption among the lemmas of the clause database: a lemma whose
//! literals all occur in another removes that other, and a lemma that
//! differs from another in one negated literal strengthens it by
//! resolution.
use crate::cdb::{h_removed, h_size, Allocator, CRef};
use crate::cube::{covers, no_taut, subsumes, Lemma};
use crate::lit::{Lit, Var};
use crate::solver::{apart, Solver};
use crate::watch::watchable;
use vstd::prelude::*;

verus! {

/// The literals of the clause at `c`.
fn clause_lits(a: &Allocator, c: CRef) -> (v: Vec<Lit>)
    requires
        a.valid(c),
    ensures
        v@ == a.lits(c),
{
    let n = a.clause_len_of(c);
    let mut v: Vec<Lit> = Vec::new();
    let mut k: usize = 0;
    while k < n
        invariant
            0 <= k <= n,
            n == a.clause_len(c),
            a.valid(c),
            v@ == a.lits(c).subrange(0, k as int),
        decreases n - k,
    {
        v.push(a.lit(c, k));
        k = k + 1;
    }
    assert(v@ =~= a.lits(c));
    v
}

/// The positions `0..lens.len()` ordered by `lens`, equal lengths kept in
/// their order.
fn stable_order(lens: &Vec<usize>) -> (order: Vec<usize>)
    ensures
        order@.len() == lens@.len(),
        forall|p: int| 0 <= p < order@.len() ==> (#[trigger] order@[p] as int) < lens@.len(),
        forall|p: int, q: int| 0 <= p < q < order@.len() ==> #[trigger] order@[p] != #[trigger] order@[q],
        forall|p: int, q: int| 0 <= p < q < order@.len() ==> lens@[#[trigger] order@[p] as int] <= lens@[#[trigger] order@[q] as int],
{
    let n = lens.len();
    let mut order: Vec<usize> = Vec::new();
    let mut i: usize = 0;
    while i < n
        invariant
            0 <= i <= n,
            n == lens@.len(),
            order@.len() == i,
            forall|p: int| 0 <= p < i ==> #[trigger] order@[p] == p,
        decreases n - i,
    {
        order.push(i);
        i = i + 1;
    }
    let mut i: usize = 1;
    while i < n
        invariant
            1 <= i || n == 0,
            i <= n || n == 0,
            n == lens@.len(),
            order@.len() == n,
            forall|p: int| 0 <= p < n ==> (#[trigger] order@[p] as int) < n,
            forall|p: int, q: int| 0 <= p < q < n ==> #[trigger] order@[p] != #[trigger] order@[q],
            forall|p: int, q: int| 0 <= p < q < i && q < n ==> lens@[#[trigger] order@[p] as int] <= lens@[#[trigger] order@[q] as int],
        decreases n - i,
    {
        let mut j: usize = i;
        while j > 0 && lens[order[j - 1]] > lens[order[j]]
            invariant
                0 <= j <= i < n,
                n == lens@.len(),
                order@.len() == n,
                forall|p: int| 0 <= p < n ==> (#[trigger] order@[p] as int) < n,
                forall|p: int, q: int| 0 <= p < q < n ==> #[trigger] order@[p] != #[trigger] order@[q],
                // the prefix but position `j` is sorted, and `j` is below its successors
                forall|p: int, q: int| 0 <= p < q <= i && p != j && q != j ==> lens@[#[trigger] order@[p] as int] <= lens@[#[trigger] order@[q] as int],
                forall|q: int| j < q <= i ==> lens@[order@[j as int] as int] < lens@[#[trigger] order@[q] as int],
                j > 0 && j < i ==> lens@[order@[j - 1] as int] <= lens@[order@[j + 1] as int],
            decreases j,
        {
            let a = order[j - 1];
            let b = order[j];
            order.set(j - 1, b);
            order.set(j, a);
            j = j - 1;
        }
        i = i + 1;
    }
    order
}

/// The literal `l` holds under the assignment `sigma` of the variables.
pub open spec fn lit_holds(sigma: spec_fn(Var) -> bool, l: Lit) -> bool {
    sigma(l.var()) == l.polarity()
}

/// Some literal of the clause `c` holds under `sigma`.
pub open spec fn sat_by(sigma: spec_fn(Var) -> bool, c: Seq<Lit>) -> bool {
    exists|k: int| 0 <= k < c.len() && lit_holds(sigma, #[trigger] c[k])
}

/// A clause holds wherever a clause whose literals are all among its own
/// holds.
proof fn lemma_sat_superset(sigma: spec_fn(Var) -> bool, a: Seq<Lit>, b: Seq<Lit>)
    requires
        sat_by(sigma, a),
        subsumes(a, b),
    ensures
        sat_by(sigma, b),
{
    let k = choose|k: int| 0 <= k < a.len() && lit_holds(sigma, #[trigger] a[k]);
    assert(b.contains(a[k]));
    let j = choose|j: int| 0 <= j < b.len() && b[j] == a[k];
    assert(lit_holds(sigma, b[j]));
}

/// Resolving `a`, which holds `d`, with the longer `b`, which holds the
/// negation of `d` and every other literal of `a`: wherever both hold, `b`
/// holds without that negation.
proof fn lemma_resolve_longer(sigma: spec_fn(Var) -> bool, a: Seq<Lit>, b: Seq<Lit>, d: Lit, c: Seq<Lit>)
    requires
        sat_by(sigma, a),
        sat_by(sigma, b),
        a.contains(d),
        b.contains(d.negated()),
        forall|k: int| 0 <= k < a.len() && a[k] != d ==> b.contains(#[trigger] a[k]),
        no_taut(a),
        forall|k: int| 0 <= k < b.len() && b[k] != d.negated() ==> c.contains(#[trigger] b[k]),
    ensures
        sat_by(sigma, c),
{
    crate::lit::lemma_negated(d);
    let kb = choose|k: int| 0 <= k < b.len() && lit_holds(sigma, #[trigger] b[k]);
    if b[kb] != d.negated() {
        assert(c.contains(b[kb]));
        let j = choose|j: int| 0 <= j < c.len() && c[j] == b[kb];
        assert(lit_holds(sigma, c[j]));
    } else {
        let ka = choose|k: int| 0 <= k < a.len() && lit_holds(sigma, #[trigger] a[k]);
        assert(a[ka] != d);
        assert(b.contains(a[ka]));
        let jd = choose|j: int| 0 <= j < a.len() && a[j] == d;
        assert(a[ka] != d.negated()) by {
            assert(a[ka] != a[jd].negated());
        }
        let j2 = choose|j: int| 0 <= j < b.len() && b[j] == a[ka];
        assert(c.contains(b[j2]));
        let j = choose|j: int| 0 <= j < c.len() && c[j] == b[j2];
        assert(lit_holds(sigma, c[j]));
    }
}

/// Resolving `a`, which holds `d`, with `b` of the same length, which holds
/// the negation of `d` and every other literal of `a`: wherever both hold,
/// `a` holds without `d`.
proof fn lemma_resolve_equal(sigma: spec_fn(Var) -> bool, a: Seq<Lit>, b: Seq<Lit>, d: Lit, c: Seq<Lit>)
    requires
        sat_by(sigma, a),
        sat_by(sigma, b),
        a.contains(d),
        b.contains(d.negated()),
        forall|k: int| 0 <= k < a.len() && a[k] != d ==> b.contains(#[trigger] a[k]),
        a.len() == b.len(),
        a.no_duplicates(),
        b.no_duplicates(),
        no_taut(a),
        forall|k: int| 0 <= k < a.len() && a[k] != d ==> c.contains(#[trigger] a[k]),
    ensures
        sat_by(sigma, c),
{
    crate::lit::lemma_negated(d);
    let nd = d.negated();
    let sa = a.to_set().remove(d);
    let sb = b.to_set().remove(nd);
    a.unique_seq_to_set();
    b.unique_seq_to_set();
    let jd = choose|j: int| 0 <= j < a.len() && a[j] == d;
    assert(sa.subset_of(sb)) by {
        assert forall|l: Lit| sa.contains(l) implies sb.contains(l) by {
            let k = choose|k: int| 0 <= k < a.len() && a[k] == l;
            assert(b.contains(a[k]));
            assert(a[k] != a[jd].negated());
        }
    }
    assert(a.to_set().contains(d));
    assert(b.to_set().contains(nd));
    assert(sa.len() == a.len() - 1);
    assert(sb.len() == b.len() - 1);
    vstd::set_lib::lemma_subset_equality(sa, sb);
    let kb = choose|k: int| 0 <= k < b.len() && lit_holds(sigma, #[trigger] b[k]);
    if b[kb] != nd {
        assert(sb.contains(b[kb]));
        assert(sa.contains(b[kb]));
        let k = choose|k: int| 0 <= k < a.len() && a[k] == b[kb];
        assert(c.contains(a[k]));
        let j = choose|j: int| 0 <= j < c.len() && c[j] == a[k];
        assert(lit_holds(sigma, c[j]));
    } else {
        let ka = choose|k: int| 0 <= k < a.len() && lit_holds(sigma, #[trigger] a[k]);
        assert(a[ka] != d);
        assert(c.contains(a[ka]));
        let j = choose|j: int| 0 <= j < c.len() && c[j] == a[ka];
        assert(lit_holds(sigma, c[j]));
    }
}

/// For each literal code below `rows`, the positions of the lemmas of
/// `lem` that hold it, in increasing order.
fn build_occurs(lem: &Vec<Lemma>, rows: usize) -> (occ: Vec<Vec<usize>>)
    requires
        forall|p: int, k: int| 0 <= p < lem@.len() && 0 <= k < lem@[p].lits().len() ==> ((#[trigger] lem@[p].lits()[k]).0 as int) < rows,
    ensures
        occ@.len() == rows,
        forall|q: int, t: int| 0 <= q < occ@.len() && 0 <= t < occ@[q]@.len() ==> (#[trigger] occ@[q]@[t] as int) < lem@.len(),
        forall|p: int, k: int| 0 <= p < lem@.len() && 0 <= k < lem@[p].lits().len()
            ==> occ@[(#[trigger] lem@[p].lits()[k]).0 as int]@.contains(p as usize),
{
    let mut occ: Vec<Vec<usize>> = Vec::new();
    let mut q: usize = 0;
    while q < rows
        invariant
            0 <= q <= rows,
            occ@.len() == q,
            forall|r: int| 0 <= r < q ==> (#[trigger] occ@[r])@.len() == 0,
        decreases rows - q,
    {
        occ.push(Vec::new());
        q = q + 1;
    }
    let mut p: usize = 0;
    while p < lem.len()
        invariant
            0 <= p <= lem@.len(),
            occ@.len() == rows,
            forall|p2: int, k: int| 0 <= p2 < lem@.len() && 0 <= k < lem@[p2].lits().len() ==> ((#[trigger] lem@[p2].lits()[k]).0 as int) < rows,
            forall|r: int, t: int| 0 <= r < occ@.len() && 0 <= t < occ@[r]@.len() ==> (#[trigger] occ@[r]@[t] as int) < lem@.len(),
            forall|p2: int, k: int| 0 <= p2 < p && 0 <= k < lem@[p2].lits().len()
                ==> occ@[(#[trigger] lem@[p2].lits()[k]).0 as int]@.contains(p2 as usize),
        decreases lem@.len() - p,
    {
        let cube = lem[p].cube();
        let mut k: usize = 0;
        while k < cube.len()
            invariant
                0 <= p < lem@.len(),
                0 <= k <= cube@.len(),
                cube@ == lem@[p as int].lits(),
                occ@.len() == rows,
                forall|p2: int, k2: int| 0 <= p2 < lem@.len() && 0 <= k2 < lem@[p2].lits().len() ==> ((#[trigger] lem@[p2].lits()[k2]).0 as int) < rows,
                forall|r: int, t: int| 0 <= r < occ@.len() && 0 <= t < occ@[r]@.len() ==> (#[trigger] occ@[r]@[t] as int) < lem@.len(),
                forall|p2: int, k2: int| 0 <= p2 < p && 0 <= k2 < lem@[p2].lits().len()
                    ==> occ@[(#[trigger] lem@[p2].lits()[k2]).0 as int]@.contains(p2 as usize),
                forall|k2: int| 0 <= k2 < k ==> occ@[(#[trigger] lem@[p as int].lits()[k2]).0 as int]@.contains(p),
            decreases cube@.len() - k,
        {
            let l = cube[k];
            proof {
                assert(lem@[p as int].lits()[k as int] == l);
            }
            let li = l.0 as usize;
            let ghost o0 = occ@;
            let mut row: Vec<usize> = Vec::new();
            std::mem::swap(&mut row, &mut occ[li]);
            row.push(p);
            std::mem::swap(&mut row, &mut occ[li]);
            proof {
                assert forall|r: int, t: int| 0 <= r < occ@.len() && 0 <= t < occ@[r]@.len() implies (#[trigger] occ@[r]@[t] as int) < lem@.len() by {
                    if r != li {
                        assert(occ@[r] == o0[r]);
                    } else if t < o0[r]@.len() {
                        assert(occ@[r]@[t] == o0[r]@[t]);
                    }
                }
                assert forall|r: int, x: usize| 0 <= r < occ@.len() && #[trigger] o0[r]@.contains(x) implies occ@[r]@.contains(x) by {
                    let j = choose|j: int| 0 <= j < o0[r]@.len() && o0[r]@[j] == x;
                    if r != li {
                        assert(occ@[r] == o0[r]);
                    } else {
                        assert(occ@[r]@[j] == x);
                    }
                }
                assert(occ@[li as int]@[occ@[li as int]@.len() - 1] == p);
                assert forall|p2: int, k2: int| 0 <= p2 < p && 0 <= k2 < lem@[p2].lits().len()
                    implies occ@[(#[trigger] lem@[p2].lits()[k2]).0 as int]@.contains(p2 as usize) by {
                    assert(o0[lem@[p2].lits()[k2].0 as int]@.contains(p2 as usize));
                }
                assert forall|k2: int| 0 <= k2 < k + 1 implies occ@[(#[trigger] lem@[p as int].lits()[k2]).0 as int]@.contains(p) by {
                    if k2 < k {
                        assert(o0[lem@[p as int].lits()[k2].0 as int]@.contains(p));
                    }
                }
            }
            k = k + 1;
        }
        p = p + 1;
    }
    occ
}

/// The first literal of `lm` that occurs in the fewest lemmas.
fn pick_lit(lm: &Lemma, occ: &Vec<Vec<usize>>) -> (r: Lit)
    requires
        lm.lits().len() > 0,
        forall|k: int| 0 <= k < lm.lits().len() ==> ((#[trigger] lm.lits()[k]).0 as int) < occ@.len(),
    ensures
        exists|i: int| 0 <= i < lm.lits().len() && lm.lits()[i] == r
            && (forall|k: int| 0 <= k < lm.lits().len() ==> occ@[r.0 as int]@.len() <= occ@[(#[trigger] lm.lits()[k]).0 as int]@.len())
            && (forall|k: int| 0 <= k < i ==> occ@[r.0 as int]@.len() < occ@[(#[trigger] lm.lits()[k]).0 as int]@.len()),
{
    let cube = lm.cube();
    let mut best = cube[0];
    let mut bi: usize = 0;
    let mut bl = occ[best.0 as usize].len();
    let mut k: usize = 1;
    while k < cube.len()
        invariant
            1 <= k <= cube@.len(),
            cube@ == lm.lits(),
            0 <= bi < k,
            best == cube@[bi as int],
            forall|k2: int| 0 <= k2 < cube@.len() ==> ((#[trigger] cube@[k2]).0 as int) < occ@.len(),
            bl == occ@[best.0 as int]@.len(),
            forall|k2: int| 0 <= k2 < k ==> bl <= occ@[(#[trigger] cube@[k2]).0 as int]@.len(),
            forall|k2: int| 0 <= k2 < bi ==> bl < occ@[(#[trigger] cube@[k2]).0 as int]@.len(),
        decreases cube@.len() - k,
    {
        let l = cube[k];
        let ll = occ[l.0 as usize].len();
        if ll < bl {
            best = l;
            bi = k;
            bl = ll;
        }
        k = k + 1;
    }
    best
}

/// Every clause of `cs` holds under `sigma`, as `o` holds it.
pub open spec fn old_holds(o: Solver, cs: Seq<CRef>, sigma: spec_fn(Var) -> bool) -> bool {
    forall|k: int| 0 <= k < cs.len() ==> sat_by(sigma, #[trigger] o.arena().lits(cs[k]))
}

/// Every clause of `cr` not in `dead` holds under `sigma`, as `s` holds it.
pub open spec fn cur_holds(s: Solver, cr: Seq<CRef>, dead: Set<int>, sigma: spec_fn(Var) -> bool) -> bool {
    forall|p: int| 0 <= p < cr.len() && !dead.contains(p) ==> sat_by(sigma, #[trigger] s.arena().lits(cr[p]))
}

/// Where the subsumption among the clauses `cs` of `o` stands in `s`: `cr`
/// lists them (in the order of processing, `pos` giving where each one is),
/// `lem` holds the literals of those still in use, sorted, and `dead` the
/// positions of those detached. Each clause in use holds only literals it
/// held in `o`; each clause of `cs` holds all the literals of one in use
/// (`wit`); and, with no clause holding a literal and its negation,
/// wherever the clauses of `o` hold, those in use hold.
pub open spec fn sub_ok(o: Solver, s: Solver, cs: Seq<CRef>, cr: Seq<CRef>, pos: Seq<int>, lem: Seq<Lemma>,
    dead: Set<int>, wit: Seq<int>, tt: bool) -> bool {
    let n = cs.len();
    &&& cr.len() == n && lem.len() == n && wit.len() == n && pos.len() == n
    &&& forall|k: int| 0 <= k < n ==> 0 <= #[trigger] pos[k] < n && cr[pos[k]] == cs[k]
    &&& forall|p: int| 0 <= p < n ==> cs.contains(#[trigger] cr[p])
    &&& forall|p: int, q: int| 0 <= p < q < n ==> #[trigger] cr[p] != #[trigger] cr[q]
    &&& dead.finite()
    &&& forall|p: int| #[trigger] dead.contains(p) ==> 0 <= p < n
    &&& forall|p: int| 0 <= p < n ==> s.arena().valid(#[trigger] cr[p])
        && (dead.contains(p) <==> h_removed(s.arena().header(cr[p])))
        && (dead.contains(p) <==> !s.watched(cr[p]))
    &&& forall|p: int, q: int| 0 <= p < n && 0 <= q < n && p != q ==> apart(s.arena(), #[trigger] cr[p], #[trigger] cr[q])
    &&& forall|p: int| 0 <= p < n && !dead.contains(p) ==> (#[trigger] lem[p]).wf()
        && lem[p].lits().to_multiset() == s.arena().lits(cr[p]).to_multiset()
        && lem[p].lits().len() == s.arena().lits(cr[p]).len()
        && subsumes(s.arena().lits(cr[p]), o.arena().lits(cr[p]))
    &&& forall|p: int| 0 <= p < n ==> 0 <= #[trigger] wit[p] < n && !dead.contains(wit[p])
        && subsumes(s.arena().lits(cr[wit[p]]), o.arena().lits(cr[p]))
    &&& tt ==> forall|p: int| 0 <= p < n ==> no_taut(o.arena().lits(#[trigger] cr[p]))
    &&& tt ==> forall|sigma: spec_fn(Var) -> bool| #[trigger] old_holds(o, cs, sigma) ==> cur_holds(s, cr, dead, sigma)
}

/// The effect of detaching the clause at `c`.
pub open spec fn detached(s1: Solver, s2: Solver, c: CRef) -> bool {
    &&& !s2.watched(c)
    &&& h_removed(s2.arena().header(c))
    &&& s2.arena().valid(c)
    &&& s2.arena().lits(c) == s1.arena().lits(c)
    &&& h_size(s2.arena().header(c)) == h_size(s1.arena().header(c))
    &&& forall|d: CRef| d != c && #[trigger] s1.watched(d) ==> s2.watched(d)
    &&& forall|d: CRef| #[trigger] s2.watched(d) ==> d != c && s1.watched(d)
    &&& forall|d: CRef| #[trigger] s1.arena().valid(d) && apart(s1.arena(), c, d) ==> s2.arena().valid(d)
        && s2.arena().lits(d) == s1.arena().lits(d) && s2.arena().header(d) == s1.arena().header(d)
}

/// The effect of removing `lit` from the clause at `c`.
pub open spec fn strengthened(s1: Solver, s2: Solver, c: CRef, lit: Lit) -> bool {
    &&& s2.arena().lits(c) == s1.arena().lits(c).update(s1.arena().lits(c).index_of(lit), s1.arena().lits(c).last()).drop_last()
    &&& s2.arena().valid(c)
    &&& h_removed(s2.arena().header(c)) == h_removed(s1.arena().header(c))
    &&& h_size(s2.arena().header(c)) == h_size(s1.arena().header(c)) - 1
    &&& forall|d: CRef| #[trigger] s2.watched(d) == s1.watched(d)
    &&& forall|d: CRef| #[trigger] s1.arena().valid(d) && apart(s1.arena(), c, d) ==> s2.arena().valid(d)
        && s2.arena().lits(d) == s1.arena().lits(d) && s2.arena().header(d) == s1.arena().header(d)
}

/// Two sequences with the same multiset hold the same literals.
proof fn lemma_same_lits(a: Seq<Lit>, b: Seq<Lit>)
    requires
        a.to_multiset() == b.to_multiset(),
    ensures
        forall|x: Lit| #[trigger] a.contains(x) == b.contains(x),
{
    broadcast use vstd::seq_lib::group_to_multiset_ensures;
    assert forall|x: Lit| #[trigger] a.contains(x) == b.contains(x) by {
        a.to_multiset_ensures();
        b.to_multiset_ensures();
        assert(a.contains(x) <==> a.to_multiset().count(x) > 0);
        assert(b.contains(x) <==> b.to_multiset().count(x) > 0);
        assert(a.to_multiset().count(x) == b.to_multiset().count(x));
    }
}

/// Removing the literal at `idx` by moving the last one there keeps every
/// other literal and adds none.
proof fn lemma_removed_one(b: Seq<Lit>, idx: int, c: Seq<Lit>)
    requires
        0 <= idx < b.len(),
        c == b.update(idx, b.last()).drop_last(),
    ensures
        forall|k: int| 0 <= k < b.len() && k != idx ==> c.contains(#[trigger] b[k]),
        subsumes(c, b),
{
    assert forall|k: int| 0 <= k < b.len() && k != idx implies c.contains(#[trigger] b[k]) by {
        if k == b.len() - 1 {
            assert(c[idx] == b[k]);
        } else {
            assert(c[k] == b[k]);
        }
    }
    assert forall|k: int| 0 <= k < c.len() implies b.contains(#[trigger] c[k]) by {
        if k == idx {
            assert(c[k] == b[b.len() - 1]);
        } else {
            assert(c[k] == b[k]);
        }
    }
}

/// Subsumption chains.
proof fn lemma_subsumes_trans(a: Seq<Lit>, b: Seq<Lit>, c: Seq<Lit>)
    requires
        subsumes(a, b),
        subsumes(b, c),
    ensures
        subsumes(a, c),
{
    assert forall|i: int| 0 <= i < a.len() implies c.contains(#[trigger] a[i]) by {
        assert(b.contains(a[i]));
        let j = choose|j: int| 0 <= j < b.len() && b[j] == a[i];
        assert(c.contains(b[j]));
    }
}

/// A clause whose literals are among those of a clause free of a
/// literal and its negation is free of them too.
proof fn lemma_nt_sub(a: Seq<Lit>, b: Seq<Lit>)
    requires
        subsumes(a, b),
        no_taut(b),
    ensures
        no_taut(a),
{
    assert forall|i: int, j: int| 0 <= i < a.len() && 0 <= j < a.len() implies #[trigger] a[i] != (#[trigger] a[j]).negated() by {
        assert(b.contains(a[i]));
        assert(b.contains(a[j]));
        let i2 = choose|i2: int| 0 <= i2 < b.len() && b[i2] == a[i];
        let j2 = choose|j2: int| 0 <= j2 < b.len() && b[j2] == a[j];
        assert(b[i2] != b[j2].negated());
    }
}

/// Detaching the clause at position `sub`, whose literals include all of
/// those of the clause at position `cls`, keeps the subsumption standing.
proof fn lemma_sub_detach(o: Solver, s1: Solver, s2: Solver, cs: Seq<CRef>, cr: Seq<CRef>, pos: Seq<int>, lem: Seq<Lemma>,
    dead: Set<int>, wit: Seq<int>, tt: bool, cls: int, sub: int)
    requires
        sub_ok(o, s1, cs, cr, pos, lem, dead, wit, tt),
        0 <= cls < cs.len(),
        0 <= sub < cs.len(),
        cls != sub,
        !dead.contains(cls),
        !dead.contains(sub),
        detached(s1, s2, cr[sub]),
        subsumes(s1.arena().lits(cr[cls]), s1.arena().lits(cr[sub])),
    ensures
        sub_ok(o, s2, cs, cr, pos, lem, dead.insert(sub), Seq::new(cs.len(), |p: int| if wit[p] == sub { cls } else { wit[p] }), tt),
{
    let n = cs.len();
    let nd = dead.insert(sub);
    let nw = Seq::new(cs.len(), |p: int| if wit[p] == sub { cls } else { wit[p] });
    let a1 = s1.arena();
    let a2 = s2.arena();
    assert forall|p: int| 0 <= p < n && p != sub implies a2.valid(#[trigger] cr[p]) && a2.header(cr[p]) == a1.header(cr[p])
        && a2.lits(cr[p]) == a1.lits(cr[p]) by {
        assert(apart(a1, cr[sub], cr[p]));
        assert(a1.valid(cr[p]));
    }
    assert forall|p: int| 0 <= p < n implies a2.valid(#[trigger] cr[p])
        && (nd.contains(p) <==> h_removed(a2.header(cr[p])))
        && (nd.contains(p) <==> !s2.watched(cr[p])) by {
        if p != sub {
            assert(a2.header(cr[p]) == a1.header(cr[p]));
            if !dead.contains(p) {
                assert(s1.watched(cr[p]));
                assert(cr[p] != cr[sub]);
            } else {
                assert(!s1.watched(cr[p]));
            }
        }
    }
    assert forall|p: int, q: int| 0 <= p < n && 0 <= q < n && p != q implies apart(a2, #[trigger] cr[p], #[trigger] cr[q]) by {
        assert(apart(a1, cr[p], cr[q]));
        if p != sub {
            assert(a2.header(cr[p]) == a1.header(cr[p]));
        }
        if q != sub {
            assert(a2.header(cr[q]) == a1.header(cr[q]));
        }
    }
    assert forall|p: int| 0 <= p < n && !nd.contains(p) implies (#[trigger] lem[p]).wf()
        && lem[p].lits().to_multiset() == a2.lits(cr[p]).to_multiset()
        && lem[p].lits().len() == a2.lits(cr[p]).len()
        && subsumes(a2.lits(cr[p]), o.arena().lits(cr[p])) by {
        assert(a2.lits(cr[p]) == a1.lits(cr[p]));
    }
    assert forall|p: int| 0 <= p < n implies 0 <= #[trigger] nw[p] < n && !nd.contains(nw[p])
        && subsumes(a2.lits(cr[nw[p]]), o.arena().lits(cr[p])) by {
        if wit[p] == sub {
            assert(a2.lits(cr[cls]) == a1.lits(cr[cls]));
            lemma_subsumes_trans(a1.lits(cr[cls]), a1.lits(cr[sub]), o.arena().lits(cr[p]));
        } else {
            assert(a2.lits(cr[wit[p]]) == a1.lits(cr[wit[p]]));
        }
    }
    if tt {
        assert forall|sigma: spec_fn(Var) -> bool| #[trigger] old_holds(o, cs, sigma) implies cur_holds(s2, cr, nd, sigma) by {
            assert(cur_holds(s1, cr, dead, sigma));
            assert forall|p: int| 0 <= p < cr.len() && !nd.contains(p) implies sat_by(sigma, #[trigger] a2.lits(cr[p])) by {
                assert(a2.lits(cr[p]) == a1.lits(cr[p]));
            }
        }
    }
}

/// Strengthening the longer clause at position `sub` by the negation of
/// the literal `d`, in which it differs from the clause at position `cls`,
/// keeps the subsumption standing.
#[verifier::rlimit(40)]
#[verifier::spinoff_prover]
proof fn lemma_sub_longer(o: Solver, s1: Solver, s2: Solver, cs: Seq<CRef>, cr: Seq<CRef>, pos: Seq<int>, lem: Seq<Lemma>,
    dead: Set<int>, wit: Seq<int>, tt: bool, cls: int, sub: int, d: Lit, nl: Lemma)
    requires
        sub_ok(o, s1, cs, cr, pos, lem, dead, wit, tt),
        0 <= cls < cs.len(),
        0 <= sub < cs.len(),
        cls != sub,
        !dead.contains(cls),
        !dead.contains(sub),
        strengthened(s1, s2, cr[sub], d.negated()),
        lem[cls].lits().contains(d),
        lem[sub].lits().contains(d.negated()),
        forall|k: int| 0 <= k < lem[cls].lits().len() && lem[cls].lits()[k] != d ==> lem[sub].lits().contains(#[trigger] lem[cls].lits()[k]),
        nl.wf(),
        nl.lits().to_multiset() == s2.arena().lits(cr[sub]).to_multiset(),
        nl.lits().len() == s2.arena().lits(cr[sub]).len(),
    ensures
        sub_ok(o, s2, cs, cr, pos, lem.update(sub, nl), dead, wit, tt),
{
    let n = cs.len();
    let a1 = s1.arena();
    let a2 = s2.arena();
    let nlem = lem.update(sub, nl);
    let ca = a1.lits(cr[cls]);
    let cb = a1.lits(cr[sub]);
    let cc = a2.lits(cr[sub]);
    lemma_same_lits(lem[cls].lits(), ca);
    lemma_same_lits(lem[sub].lits(), cb);
    crate::lit::lemma_negated(d);
    let ib = cb.index_of(d.negated());
    assert(cb.contains(d.negated()));
    assert(0 <= ib < cb.len() && cb[ib] == d.negated());
    lemma_removed_one(cb, ib, cc);
    assert forall|p: int| 0 <= p < n && p != sub implies a2.valid(#[trigger] cr[p]) && a2.header(cr[p]) == a1.header(cr[p])
        && a2.lits(cr[p]) == a1.lits(cr[p]) by {
        assert(apart(a1, cr[sub], cr[p]));
    }
    assert forall|p: int| 0 <= p < n implies a2.valid(#[trigger] cr[p])
        && (dead.contains(p) <==> h_removed(a2.header(cr[p])))
        && (dead.contains(p) <==> !s2.watched(cr[p])) by {
        assert(s2.watched(cr[p]) == s1.watched(cr[p]));
    }
    assert forall|p: int, q: int| 0 <= p < n && 0 <= q < n && p != q implies apart(a2, #[trigger] cr[p], #[trigger] cr[q]) by {
        assert(apart(a1, cr[p], cr[q]));
    }
    assert(subsumes(cc, o.arena().lits(cr[sub]))) by {
        lemma_subsumes_trans(cc, cb, o.arena().lits(cr[sub]));
    }
    assert forall|p: int| 0 <= p < n && !dead.contains(p) implies (#[trigger] nlem[p]).wf()
        && nlem[p].lits().to_multiset() == a2.lits(cr[p]).to_multiset()
        && nlem[p].lits().len() == a2.lits(cr[p]).len()
        && subsumes(a2.lits(cr[p]), o.arena().lits(cr[p])) by {
        if p != sub {
            assert(nlem[p] == lem[p]);
        }
    }
    assert forall|p: int| 0 <= p < n implies 0 <= #[trigger] wit[p] < n && !dead.contains(wit[p])
        && subsumes(a2.lits(cr[wit[p]]), o.arena().lits(cr[p])) by {
        if wit[p] == sub {
            lemma_subsumes_trans(cc, cb, o.arena().lits(cr[p]));
        }
    }
    if tt {
        assert(no_taut(ca)) by {
            lemma_nt_sub(ca, o.arena().lits(cr[cls]));
        }
        assert forall|k: int| 0 <= k < ca.len() && ca[k] != d implies cb.contains(#[trigger] ca[k]) by {
            assert(lem[cls].lits().contains(ca[k]));
            let j = choose|j: int| 0 <= j < lem[cls].lits().len() && lem[cls].lits()[j] == ca[k];
            assert(lem[sub].lits().contains(lem[cls].lits()[j]));
        }
        assert forall|k: int| 0 <= k < cb.len() && cb[k] != d.negated() implies cc.contains(#[trigger] cb[k]) by {
            assert(k != ib);
        }
        assert forall|sigma: spec_fn(Var) -> bool| #[trigger] old_holds(o, cs, sigma) implies cur_holds(s2, cr, dead, sigma) by {
            assert(cur_holds(s1, cr, dead, sigma));
            assert(sat_by(sigma, a1.lits(cr[cls])));
            assert(sat_by(sigma, a1.lits(cr[sub])));
            lemma_resolve_longer(sigma, ca, cb, d, cc);
            assert forall|p: int| 0 <= p < cr.len() && !dead.contains(p) implies sat_by(sigma, #[trigger] a2.lits(cr[p])) by {
                if p != sub {
                    assert(a2.lits(cr[p]) == a1.lits(cr[p]));
                }
            }
        }
    }
}

/// Detaching the clause at position `sub`, of the length of the clause at
/// position `cls` and differing from it in the negation of `d` only, and
/// strengthening the clause at `cls` by `d`, keeps the subsumption
/// standing.
#[verifier::rlimit(40)]
#[verifier::spinoff_prover]
proof fn lemma_sub_equal(o: Solver, s1: Solver, s2: Solver, s3: Solver, cs: Seq<CRef>, cr: Seq<CRef>, pos: Seq<int>, lem: Seq<Lemma>,
    dead: Set<int>, wit: Seq<int>, tt: bool, cls: int, sub: int, d: Lit, nl: Lemma)
    requires
        sub_ok(o, s1, cs, cr, pos, lem, dead, wit, tt),
        0 <= cls < cs.len(),
        0 <= sub < cs.len(),
        cls != sub,
        !dead.contains(cls),
        !dead.contains(sub),
        detached(s1, s2, cr[sub]),
        strengthened(s2, s3, cr[cls], d),
        lem[cls].lits().contains(d),
        lem[sub].lits().contains(d.negated()),
        forall|k: int| 0 <= k < lem[cls].lits().len() && lem[cls].lits()[k] != d ==> lem[sub].lits().contains(#[trigger] lem[cls].lits()[k]),
        lem[cls].lits().len() == lem[sub].lits().len(),
        s1.arena().lits(cr[cls]).no_duplicates(),
        s1.arena().lits(cr[sub]).no_duplicates(),
        nl.wf(),
        nl.lits().to_multiset() == s3.arena().lits(cr[cls]).to_multiset(),
        nl.lits().len() == s3.arena().lits(cr[cls]).len(),
    ensures
        sub_ok(o, s3, cs, cr, pos, lem.update(cls, nl), dead.insert(sub), Seq::new(cs.len(), |p: int| if wit[p] == sub { cls } else { wit[p] }), tt),
{
    let n = cs.len();
    let a1 = s1.arena();
    let a2 = s2.arena();
    let a3 = s3.arena();
    let nd = dead.insert(sub);
    let nw = Seq::new(cs.len(), |p: int| if wit[p] == sub { cls } else { wit[p] });
    let nlem = lem.update(cls, nl);
    let ca = a1.lits(cr[cls]);
    let cb = a1.lits(cr[sub]);
    lemma_same_lits(lem[cls].lits(), ca);
    lemma_same_lits(lem[sub].lits(), cb);
    crate::lit::lemma_negated(d);
    // the detach leaves every other clause of the list as it was
    assert forall|p: int| 0 <= p < n && p != sub implies a2.valid(#[trigger] cr[p]) && a2.header(cr[p]) == a1.header(cr[p])
        && a2.lits(cr[p]) == a1.lits(cr[p]) by {
        assert(apart(a1, cr[sub], cr[p]));
    }
    assert(a2.lits(cr[cls]) == ca);
    let cc = a3.lits(cr[cls]);
    let ia = ca.index_of(d);
    assert(ca.contains(d));
    assert(0 <= ia < ca.len() && ca[ia] == d);
    lemma_removed_one(ca, ia, cc);
    assert forall|p: int, q: int| 0 <= p < n && 0 <= q < n && p != q implies apart(a2, #[trigger] cr[p], #[trigger] cr[q]) by {
        assert(apart(a1, cr[p], cr[q]));
    }
    assert forall|p: int| 0 <= p < n && p != cls implies a3.valid(#[trigger] cr[p]) && a3.header(cr[p]) == a2.header(cr[p])
        && a3.lits(cr[p]) == a2.lits(cr[p]) by {
        assert(apart(a2, cr[cls], cr[p]));
    }
    assert forall|p: int| 0 <= p < n implies a3.valid(#[trigger] cr[p])
        && (nd.contains(p) <==> h_removed(a3.header(cr[p])))
        && (nd.contains(p) <==> !s3.watched(cr[p])) by {
        assert(s3.watched(cr[p]) == s2.watched(cr[p]));
        if p != sub {
            if !dead.contains(p) {
                assert(s1.watched(cr[p]));
                assert(cr[p] != cr[sub]);
            } else {
                assert(!s1.watched(cr[p]));
            }
        }
    }
    assert forall|p: int, q: int| 0 <= p < n && 0 <= q < n && p != q implies apart(a3, #[trigger] cr[p], #[trigger] cr[q]) by {
        assert(apart(a2, cr[p], cr[q]));
    }
    // the strengthened clause keeps the other literals of the old one, all in the detached clause
    assert forall|k: int| 0 <= k < ca.len() && ca[k] != d implies cb.contains(#[trigger] ca[k]) by {
        assert(lem[cls].lits().contains(ca[k]));
        let j = choose|j: int| 0 <= j < lem[cls].lits().len() && lem[cls].lits()[j] == ca[k];
        assert(lem[sub].lits().contains(lem[cls].lits()[j]));
    }
    assert(subsumes(cc, cb)) by {
        assert forall|k: int| 0 <= k < cc.len() implies cb.contains(#[trigger] cc[k]) by {
            assert(ca.contains(cc[k]));
            let j = choose|j: int| 0 <= j < ca.len() && ca[j] == cc[k];
            if ca[j] == d {
                assert(cc.len() == ca.len() - 1);
                assert(ca.no_duplicates());
                if k == ia {
                    assert(cc[k] == ca[ca.len() - 1]);
                    assert(ca.len() - 1 != ia);
                } else {
                    assert(cc[k] == ca[k]);
                    assert(k != ia);
                }
            }
        }
    }
    assert forall|p: int| 0 <= p < n && !nd.contains(p) implies (#[trigger] nlem[p]).wf()
        && nlem[p].lits().to_multiset() == a3.lits(cr[p]).to_multiset()
        && nlem[p].lits().len() == a3.lits(cr[p]).len()
        && subsumes(a3.lits(cr[p]), o.arena().lits(cr[p])) by {
        if p != cls {
            assert(nlem[p] == lem[p]);
        } else {
            lemma_subsumes_trans(cc, ca, o.arena().lits(cr[cls]));
        }
    }
    assert forall|p: int| 0 <= p < n implies 0 <= #[trigger] nw[p] < n && !nd.contains(nw[p])
        && subsumes(a3.lits(cr[nw[p]]), o.arena().lits(cr[p])) by {
        if wit[p] == sub {
            lemma_subsumes_trans(cc, cb, o.arena().lits(cr[p]));
        } else if wit[p] == cls {
            lemma_subsumes_trans(cc, ca, o.arena().lits(cr[p]));
        }
    }
    if tt {
        assert(no_taut(ca)) by {
            lemma_nt_sub(ca, o.arena().lits(cr[cls]));
        }
        assert forall|k: int| 0 <= k < ca.len() && ca[k] != d implies cc.contains(#[trigger] ca[k]) by {
            assert(k != ia);
        }
        assert forall|sigma: spec_fn(Var) -> bool| #[trigger] old_holds(o, cs, sigma) implies cur_holds(s3, cr, nd, sigma) by {
            assert(cur_holds(s1, cr, dead, sigma));
            assert(sat_by(sigma, a1.lits(cr[cls])));
            assert(sat_by(sigma, a1.lits(cr[sub])));
            lemma_resolve_equal(sigma, ca, cb, d, cc);
            assert forall|p: int| 0 <= p < cr.len() && !nd.contains(p) implies sat_by(sigma, #[trigger] a3.lits(cr[p])) by {
                if p != cls {
                    assert(a3.lits(cr[p]) == a1.lits(cr[p]));
                }
            }
        }
    }
}

/// Some clause of `r` holds, in `s`, only literals of `c`.
pub open spec fn kept_below(s: Solver, r: Seq<CRef>, c: Seq<Lit>) -> bool {
    exists|j: int| 0 <= j < r.len() && subsumes(s.arena().lits(#[trigger] r[j]), c)
}

/// Each clause of `r` holds under `sigma`, as `s` holds it.
pub open spec fn kept_holds(s: Solver, r: Seq<CRef>, sigma: spec_fn(Var) -> bool) -> bool {
    forall|k: int| 0 <= k < r.len() ==> sat_by(sigma, #[trigger] s.arena().lits(r[k]))
}

/// Some entry of `order` is `k`.
pub open spec fn takes(order: Seq<usize>, k: int) -> bool {
    exists|p: int| 0 <= p < order.len() && order[p] as int == k
}

/// A sequence of `n` distinct positions below `n` takes every position.
proof fn lemma_perm_onto(order: Seq<usize>, n: int)
    requires
        order.len() == n,
        forall|p: int| 0 <= p < n ==> (#[trigger] order[p] as int) < n,
        forall|p: int, q: int| 0 <= p < q < n ==> #[trigger] order[p] != #[trigger] order[q],
    ensures
        forall|k: int| 0 <= k < n ==> #[trigger] takes(order, k),
{
    let s = order.map_values(|x: usize| x as int);
    assert(s.no_duplicates()) by {
        assert forall|i: int, j: int| 0 <= i < s.len() && 0 <= j < s.len() && i != j implies s[i] != s[j] by {
            if i < j {
                assert(order[i] != order[j]);
            } else {
                assert(order[j] != order[i]);
            }
        }
    }
    s.unique_seq_to_set();
    let all = vstd::set_lib::set_int_range(0, n);
    vstd::set_lib::lemma_int_range(0, n);
    assert(s.to_set().subset_of(all)) by {
        assert forall|x: int| s.to_set().contains(x) implies all.contains(x) by {
            let p = choose|p: int| 0 <= p < s.len() && s[p] == x;
        }
    }
    vstd::set_lib::lemma_subset_equality(s.to_set(), all);
    assert forall|k: int| 0 <= k < n implies #[trigger] takes(order, k) by {
        assert(all.contains(k));
        assert(s.to_set().contains(k));
        let p = choose|p: int| 0 <= p < s.len() && s[p] == k;
        assert(order[p] as int == k);
    }
}

/// The clauses of `cr` come by nondecreasing length in `o`.
pub open spec fn sorted_by_len(o: Solver, cr: Seq<CRef>) -> bool {
    forall|a: int, b: int| 0 <= a <= b < cr.len() ==> o.arena().lits(#[trigger] cr[a]).len() <= o.arena().lits(#[trigger] cr[b]).len()
}

/// Clause `a` of `cs` has, in `s`, fewer literals than every other.
pub open spec fn strictly_shortest(s: Solver, cs: Seq<CRef>, a: int) -> bool {
    &&& 0 <= a < cs.len()
    &&& forall|k: int| 0 <= k < cs.len() && k != a ==> s.arena().lits(cs[a]).len() < #[trigger] s.arena().lits(cs[k]).len()
}

/// Clause `q` of the sorted list `cr`, free of complementary literals in
/// `o`, holds every literal of the first one and more.
spec fn sup_first(o: Solver, cr: Seq<CRef>, q: int) -> bool {
    &&& 0 < q < cr.len()
    &&& no_taut(o.arena().lits(cr[q]))
    &&& subsumes(o.arena().lits(cr[0]), o.arena().lits(cr[q]))
    &&& o.arena().lits(cr[0]).len() < o.arena().lits(cr[q]).len()
}

/// Every clause that holds all literals of the first one is gone.
spec fn first_done(o: Solver, cr: Seq<CRef>, dead: Set<int>) -> bool {
    forall|q: int| #[trigger] sup_first(o, cr, q) ==> dead.contains(q)
}

/// The first of `cr` is the clause of `cs` shorter than all others, if any.
spec fn first_link(o: Solver, cs: Seq<CRef>, cr: Seq<CRef>) -> bool {
    forall|a: int| #[trigger] strictly_shortest(o, cs, a) ==> cr[0] == cs[a]
}

/// The list `row` was visited up to `t` from the first clause: the
/// clauses it met that hold all its literals are gone, those it did not
/// meet are as they were, and the first clause did not grow.
spec fn first_pass(o: Solver, s: Solver, cr: Seq<CRef>, dead: Set<int>, row: Seq<usize>, t: int) -> bool {
    &&& forall|t2: int| 0 <= t2 < t && sup_first(o, cr, #[trigger] row[t2] as int) ==> dead.contains(row[t2] as int)
    &&& forall|q: int| 0 < q < cr.len() && !dead.contains(q) && (forall|t2: int| 0 <= t2 < t ==> row[t2] as int != q)
        ==> #[trigger] s.arena().lits(cr[q]) == o.arena().lits(cr[q])
    &&& s.arena().lits(cr[0]).len() <= o.arena().lits(cr[0]).len()
}

/// One visit of the first clause, of the clause `sub`: what was gone
/// stays gone, `sub` is gone if it holds all literals of the first
/// clause, the others that are left are untouched, and the first clause
/// did not grow.
spec fn first_step(o: Solver, s1: Solver, s2: Solver, cr: Seq<CRef>, dead1: Set<int>, dead2: Set<int>, sub: int) -> bool {
    &&& forall|q: int| #[trigger] dead1.contains(q) ==> dead2.contains(q)
    &&& sup_first(o, cr, sub) ==> dead2.contains(sub)
    &&& forall|q: int| 0 < q < cr.len() && q != sub && !dead2.contains(q)
        ==> #[trigger] s2.arena().lits(cr[q]) == s1.arena().lits(cr[q])
    &&& s2.arena().lits(cr[0]).len() <= s1.arena().lits(cr[0]).len()
}

/// The words of each occurrence list name the lemmas that hold its literal.
spec fn occurs_ok(lem: Seq<Lemma>, occ: Seq<Vec<usize>>) -> bool {
    forall|p: int, k: int| 0 <= p < lem.len() && 0 <= k < lem[p].lits().len()
        ==> occ[(#[trigger] lem[p].lits()[k]).0 as int]@.contains(p as usize)
}

proof fn lemma_first_start(o: Solver, s: Solver, cr: Seq<CRef>, dead: Set<int>, row: Seq<usize>)
    requires
        s == o,
    ensures
        first_pass(o, s, cr, dead, row, 0),
{
}

proof fn lemma_first_step(o: Solver, s1: Solver, s2: Solver, cr: Seq<CRef>, dead1: Set<int>, dead2: Set<int>, row: Seq<usize>, t: int)
    requires
        0 <= t < row.len(),
        first_pass(o, s1, cr, dead1, row, t),
        first_step(o, s1, s2, cr, dead1, dead2, row[t] as int),
    ensures
        first_pass(o, s2, cr, dead2, row, t + 1),
{
    assert forall|t2: int| 0 <= t2 < t + 1 && sup_first(o, cr, #[trigger] row[t2] as int) implies dead2.contains(row[t2] as int) by {
        if t2 < t {
            assert(dead1.contains(row[t2] as int));
        }
    }
    assert forall|q: int| 0 < q < cr.len() && !dead2.contains(q) && (forall|t2: int| 0 <= t2 < t + 1 ==> row[t2] as int != q)
        implies #[trigger] s2.arena().lits(cr[q]) == o.arena().lits(cr[q]) by {
        assert(row[t] as int != q);
        assert(!dead1.contains(q));
        assert(forall|t2: int| 0 <= t2 < t ==> row[t2] as int != q);
        assert(s1.arena().lits(cr[q]) == o.arena().lits(cr[q]));
    }
}

/// At its visit by the first clause, a clause that holds all literals of
/// the first one is covered by it.
proof fn lemma_first_exam(o: Solver, s: Solver, cs: Seq<CRef>, cr: Seq<CRef>, pos: Seq<int>, lem: Seq<Lemma>,
    dead: Set<int>, wit: Seq<int>, tt: bool, row: Seq<usize>, t: int)
    requires
        sub_ok(o, s, cs, cr, pos, lem, dead, wit, tt),
        first_pass(o, s, cr, dead, row, t),
        0 <= t < row.len(),
        sup_first(o, cr, row[t] as int),
        !dead.contains(row[t] as int),
        !dead.contains(0),
    ensures
        covers(lem[0].lits(), lem[row[t] as int].lits()),
        no_taut(lem[row[t] as int].lits()),
{
    let sub = row[t] as int;
    assert(forall|t2: int| 0 <= t2 < t ==> row[t2] as int != sub) by {
        assert forall|t2: int| 0 <= t2 < t implies row[t2] as int != sub by {
            if row[t2] as int == sub {
                assert(dead.contains(row[t2] as int));
            }
        }
    }
    assert(s.arena().lits(cr[sub]) == o.arena().lits(cr[sub]));
    let a = lem[0].lits();
    let b = lem[sub].lits();
    let sa = s.arena().lits(cr[0]);
    let oa = o.arena().lits(cr[0]);
    let ob = o.arena().lits(cr[sub]);
    crate::cube::lemma_covers_same_lits(a, a, sa);
    crate::cube::lemma_covers_same_lits(a, b, ob);
    assert(subsumes(sa, oa));
    assert forall|i: int| 0 <= i < a.len() implies b.contains(#[trigger] a[i]) by {
        assert(sa.contains(a[i]));
        let k = choose|k: int| 0 <= k < sa.len() && sa[k] == a[i];
        assert(oa.contains(sa[k]));
        let k2 = choose|k2: int| 0 <= k2 < oa.len() && oa[k2] == a[i];
        assert(ob.contains(oa[k2]));
    }
    assert forall|i: int, j: int| 0 <= i < b.len() && 0 <= j < b.len() implies #[trigger] b[i] != (#[trigger] b[j]).negated() by {
        assert(ob.contains(b[i]));
        assert(ob.contains(b[j]));
        let i2 = choose|i2: int| 0 <= i2 < ob.len() && ob[i2] == b[i];
        let j2 = choose|j2: int| 0 <= j2 < ob.len() && ob[j2] == b[j];
        assert(ob[i2] != ob[j2].negated());
    }
}

/// Once the first clause has visited its whole list, every clause that
/// holds all its literals is gone.
proof fn lemma_first_done(o: Solver, s: Solver, cr: Seq<CRef>, lem0: Seq<Lemma>, occ: Seq<Vec<usize>>, best: Lit,
    dead: Set<int>, row: Seq<usize>)
    requires
        first_pass(o, s, cr, dead, row, row.len() as int),
        occurs_ok(lem0, occ),
        lem0.len() == cr.len(),
        cr.len() <= usize::MAX,
        forall|p: int| 0 <= p < cr.len() ==> (#[trigger] lem0[p]).lits().to_multiset() == o.arena().lits(cr[p]).to_multiset(),
        0 <= best.0 < occ.len(),
        row == occ[best.0 as int]@,
        o.arena().lits(cr[0]).contains(best),
    ensures
        first_done(o, cr, dead),
{
    assert forall|q: int| #[trigger] sup_first(o, cr, q) implies dead.contains(q) by {
        let oa = o.arena().lits(cr[0]);
        let ob = o.arena().lits(cr[q]);
        let k = choose|k: int| 0 <= k < oa.len() && oa[k] == best;
        assert(ob.contains(oa[k]));
        crate::cube::lemma_covers_same_lits(ob, lem0[q].lits(), ob);
        assert(lem0[q].lits().contains(best));
        let j = choose|j: int| 0 <= j < lem0[q].lits().len() && lem0[q].lits()[j] == best;
        assert(occ[(lem0[q].lits()[j]).0 as int]@.contains(q as usize));
        let t2 = choose|t2: int| 0 <= t2 < row.len() && row[t2] == q as usize;
        assert(row[t2] as int == q);
        assert(sup_first(o, cr, row[t2] as int));
    }
}

/// Detaching the visited clause `sub` is a step of the first visit.
proof fn lemma_first_detach(o: Solver, s1: Solver, s2: Solver, cs: Seq<CRef>, cr: Seq<CRef>, pos: Seq<int>, lem: Seq<Lemma>,
    dead: Set<int>, wit: Seq<int>, tt: bool, sub: int)
    requires
        sub_ok(o, s1, cs, cr, pos, lem, dead, wit, tt),
        detached(s1, s2, cr[sub]),
        0 < sub < cr.len(),
    ensures
        first_step(o, s1, s2, cr, dead, dead.insert(sub), sub),
{
    assert forall|q: int| 0 < q < cr.len() && q != sub && !dead.insert(sub).contains(q)
        implies #[trigger] s2.arena().lits(cr[q]) == s1.arena().lits(cr[q]) by {
        assert(apart(s1.arena(), cr[sub], cr[q]));
        assert(s1.arena().valid(cr[q]));
    }
    assert(apart(s1.arena(), cr[sub], cr[0]));
    assert(s1.arena().valid(cr[0]));
}

/// Detaching the visited clause `sub` and then shortening the first
/// clause is a step of the first visit.
proof fn lemma_first_equal(o: Solver, s1: Solver, s2: Solver, s3: Solver, cs: Seq<CRef>, cr: Seq<CRef>, pos: Seq<int>,
    lem: Seq<Lemma>, dead: Set<int>, wit: Seq<int>, tt: bool, sub: int)
    requires
        sub_ok(o, s1, cs, cr, pos, lem, dead, wit, tt),
        detached(s1, s2, cr[sub]),
        0 < sub < cr.len(),
        forall|d: CRef| #[trigger] s2.watched(d) && d != cr[0] ==> s3.arena().lits(d) == s2.arena().lits(d),
        s3.arena().lits(cr[0]).len() <= s2.arena().lits(cr[0]).len(),
    ensures
        first_step(o, s1, s3, cr, dead, dead.insert(sub), sub),
{
    lemma_first_detach(o, s1, s2, cs, cr, pos, lem, dead, wit, tt, sub);
    assert forall|q: int| 0 < q < cr.len() && q != sub && !dead.insert(sub).contains(q)
        implies #[trigger] s3.arena().lits(cr[q]) == s1.arena().lits(cr[q]) by {
        assert(s1.watched(cr[q]));
        assert(cr[q] != cr[sub]);
        assert(s2.watched(cr[q]));
        assert(cr[q] != cr[0]);
        assert(s2.arena().lits(cr[q]) == s1.arena().lits(cr[q]));
    }
}

/// Shortening the visited clause `sub`, which does not hold all literals
/// of the first one, is a step of the first visit.
proof fn lemma_first_longer(o: Solver, s1: Solver, s2: Solver, cs: Seq<CRef>, cr: Seq<CRef>, pos: Seq<int>, lem: Seq<Lemma>,
    dead: Set<int>, wit: Seq<int>, tt: bool, sub: int)
    requires
        sub_ok(o, s1, cs, cr, pos, lem, dead, wit, tt),
        0 < sub < cr.len(),
        !sup_first(o, cr, sub),
        !dead.contains(0),
        forall|d: CRef| #[trigger] s1.watched(d) && d != cr[sub] ==> s2.arena().lits(d) == s1.arena().lits(d),
    ensures
        first_step(o, s1, s2, cr, dead, dead, sub),
{
    assert forall|q: int| 0 < q < cr.len() && q != sub && !dead.contains(q)
        implies #[trigger] s2.arena().lits(cr[q]) == s1.arena().lits(cr[q]) by {
        assert(s1.watched(cr[q]));
        assert(cr[q] != cr[sub]);
    }
    assert(s1.watched(cr[0]));
    assert(cr[0] != cr[sub]);
}

impl Solver {
    /// Among the watched clauses `clauses`, taken by increasing length:
    /// detaches each clause whose literals include all those of another;
    /// where a clause has all the literals of another but one, which it has
    /// negated, strengthens the longer of the two by resolution (of two of
    /// the same length, more than two long, the other is detached); and
    /// returns the clauses left, in the order taken, none of them removed.
    /// The clauses must be distinct, not removed, and the reason of no
    /// literal on the trail (at level zero, after the satisfied clauses were
    /// dropped, none is). The clauses left are equivalent to those given
    /// when no given clause holds a literal and its negation.
    #[verifier::rlimit(100)]
    #[verifier::spinoff_prover]
    pub fn simplify_subsume(&mut self, clauses: Vec<CRef>) -> (r: Vec<CRef>)
        requires
            old(self).inv(),
            forall|k: int| 0 <= k < clauses@.len() ==> old(self).watched(#[trigger] clauses@[k]),
            forall|a: int, b: int| 0 <= a < b < clauses@.len() ==> #[trigger] clauses@[a] != #[trigger] clauses@[b],
            forall|k: int| 0 <= k < clauses@.len() ==> !h_removed(old(self).arena().header(#[trigger] clauses@[k])),
            forall|t: int, k: int| 0 <= t < old(self).trail@.len() && 0 <= k < clauses@.len()
                ==> old(self).reason_of(#[trigger] old(self).trail@[t]) != #[trigger] clauses@[k],
            old(self).cdb.allocator.wasted + (clauses@.len() + 1) * old(self).arena().data@.len() < usize::MAX,
        ensures
            final(self).inv(),
            final(self).nv() == old(self).nv(),
            forall|c: CRef| #[trigger] r@.contains(c) <==> clauses@.contains(c) && final(self).watched(c),
            forall|c: CRef| #[trigger] r@.contains(c) ==> !h_removed(final(self).arena().header(c)),
            sorted_by_len(*old(self), r@),
            r@.no_duplicates(),
            forall|c: CRef| #[trigger] clauses@.contains(c) && !final(self).watched(c) ==> h_removed(final(self).arena().header(c)),
            forall|c: CRef| #[trigger] r@.contains(c) ==> subsumes(final(self).arena().lits(c), old(self).arena().lits(c)),
            forall|k: int| 0 <= k < clauses@.len() ==> kept_below(*final(self), r@, old(self).arena().lits(#[trigger] clauses@[k])),
            forall|a: int, b: int| #![trigger strictly_shortest(*old(self), clauses@, a), clauses@[b]]
                strictly_shortest(*old(self), clauses@, a) && 0 <= b < clauses@.len() && b != a
                && no_taut(old(self).arena().lits(clauses@[b]))
                && subsumes(old(self).arena().lits(clauses@[a]), old(self).arena().lits(clauses@[b]))
                ==> !r@.contains(clauses@[b]),
            (forall|k: int| 0 <= k < clauses@.len() ==> no_taut(old(self).arena().lits(#[trigger] clauses@[k]))) ==>
                forall|sigma: spec_fn(Var) -> bool| #[trigger] old_holds(*old(self), clauses@, sigma) == kept_holds(*final(self), r@, sigma),
            forall|d: CRef| #[trigger] old(self).watched(d) && !clauses@.contains(d) ==> final(self).watched(d)
                && final(self).arena().lits(d) == old(self).arena().lits(d) && final(self).arena().header(d) == old(self).arena().header(d),
            forall|d: CRef| #[trigger] final(self).watched(d) ==> old(self).watched(d),
            final(self).value == old(self).value,
            final(self).trail == old(self).trail,
            final(self).reason == old(self).reason,
            final(self).pos_in_trail == old(self).pos_in_trail,
            final(self).domain == old(self).domain,
            final(self).vsids == old(self).vsids,
            final(self).cdb.lemmas == old(self).cdb.lemmas,
            final(self).cdb.trans == old(self).cdb.trans,
            final(self).cdb.learnt == old(self).cdb.learnt,
            final(self).cdb.temporary == old(self).cdb.temporary,
    {
        let ghost o = *self;
        let ghost cs = clauses@;
        let n = clauses.len();
        let mut lens: Vec<usize> = Vec::new();
        let mut k: usize = 0;
        while k < n
            invariant
                0 <= k <= n,
                n == cs.len(),
                cs == clauses@,
                *self == o,
                o.inv(),
                forall|k2: int| 0 <= k2 < cs.len() ==> o.watched(#[trigger] cs[k2]),
                lens@.len() == k,
                forall|k2: int| 0 <= k2 < k ==> #[trigger] lens@[k2] as int == o.arena().lits(cs[k2]).len(),
            decreases n - k,
        {
            proof {
                let (q, w) = choose|q: int, w: int| #[trigger] o.is_watch(q, w) && o.wclause(q, w) == cs[k as int];
                assert(watchable(o.arena(), cs[k as int], 2 * o.nv()));
            }
            lens.push(self.cdb.allocator.clause_len_of(clauses[k]));
            k = k + 1;
        }
        let ghost lens0 = lens@;
        let order = stable_order(&lens);
        proof {
            lemma_perm_onto(order@, n as int);
            assert forall|a: int| #[trigger] strictly_shortest(o, cs, a) implies order@[0] as int == a by {
                assert(takes(order@, a));
                let q = choose|q: int| 0 <= q < order@.len() && order@[q] as int == a;
                if q != 0 {
                    assert(lens@[order@[0] as int] <= lens@[order@[q] as int]);
                    assert(order@[0] != order@[q]);
                    assert(lens@[order@[0] as int] as int == o.arena().lits(cs[order@[0] as int]).len());
                }
            }
        }
        let mut cr: Vec<CRef> = Vec::new();
        let mut lem: Vec<Lemma> = Vec::new();
        let mut p: usize = 0;
        while p < n
            invariant
                0 <= p <= n,
                n == cs.len(),
                cs == clauses@,
                *self == o,
                o.inv(),
                forall|k2: int| 0 <= k2 < cs.len() ==> o.watched(#[trigger] cs[k2]),
                order@.len() == n,
                forall|q: int| 0 <= q < n ==> (#[trigger] order@[q] as int) < n,
                cr@.len() == p,
                lem@.len() == p,
                forall|q: int| 0 <= q < p ==> #[trigger] cr@[q] == cs[order@[q] as int],
                forall|q: int| 0 <= q < p ==> (#[trigger] lem@[q]).wf() && lem@[q].lits().to_multiset() == o.arena().lits(cr@[q]).to_multiset()
                    && lem@[q].lits().len() == o.arena().lits(cr@[q]).len(),
                forall|a: int| #[trigger] strictly_shortest(o, cs, a) ==> order@[0] as int == a,
                forall|p1: int, p2: int| 0 <= p1 < p2 < order@.len() ==> lens@[#[trigger] order@[p1] as int] <= lens@[#[trigger] order@[p2] as int],
                lens@.len() == n,
                forall|k2: int| 0 <= k2 < n ==> #[trigger] lens@[k2] as int == o.arena().lits(cs[k2]).len(),
            decreases n - p,
        {
            let c = clauses[order[p]];
            proof {
                let (q, w) = choose|q: int, w: int| #[trigger] o.is_watch(q, w) && o.wclause(q, w) == c;
                assert(watchable(o.arena(), c, 2 * o.nv()));
            }
            let v = clause_lits(&self.cdb.allocator, c);
            cr.push(c);
            lem.push(Lemma::new(v));
            p = p + 1;
        }
        let ghost pos = Seq::new(n as nat, |k: int| choose|q: int| 0 <= q < n && order@[q] as int == k);
        let ghost tt = forall|k: int| 0 <= k < cs.len() ==> no_taut(o.arena().lits(#[trigger] cs[k]));
        let ghost mut dead: Set<int> = Set::empty();
        let ghost mut wit: Seq<int> = Seq::new(n as nat, |q: int| q);
        let ghost dlen = o.arena().data@.len() as int;
        let ghost lem0 = lem@;
        proof {
            assert(sorted_by_len(o, cr@)) by {
                assert forall|a: int, b: int| 0 <= a <= b < cr@.len() implies o.arena().lits(#[trigger] cr@[a]).len() <= o.arena().lits(#[trigger] cr@[b]).len() by {
                    if a < b {
                        assert(lens@[order@[a] as int] <= lens@[order@[b] as int]);
                    }
                }
            }
            assert(first_link(o, cs, cr@)) by {
                assert forall|a: int| #[trigger] strictly_shortest(o, cs, a) implies cr@[0] == cs[a] by {
                    assert(order@[0] as int == a);
                }
            }
            lemma_sub_init(o, cs, cr@, pos, lem@, order@, tt);
            assert forall|q: int, j: int| 0 <= q < lem@.len() && 0 <= j < lem@[q].lits().len()
                implies ((#[trigger] lem@[q].lits()[j]).0 as int) < self.watchers.wtrs.len() by {
                lemma_same_lits(lem@[q].lits(), o.arena().lits(cr@[q]));
                assert(lem@[q].lits().contains(lem@[q].lits()[j]));
                assert(o.arena().lits(cr@[q]).contains(lem@[q].lits()[j]));
                assert(o.watched(cr@[q]));
                lemma_watched_bound(o, cr@[q]);
            }
        }
        let occ = build_occurs(&lem, self.watchers.wtrs.len());
        proof {
            assert(occurs_ok(lem0, occ@));
        }
        let mut i: usize = 0;
        while i < n
            invariant
                0 <= i <= n,
                n == cs.len(),
                self.inv(),
                self.nv() == o.nv(),
                sub_ok(o, *self, cs, cr@, pos, lem@, dead, wit, tt),
                occ@.len() == self.watchers.wtrs.len(),
                forall|q: int, t: int| 0 <= q < occ@.len() && 0 <= t < occ@[q]@.len() ==> (#[trigger] occ@[q]@[t] as int) < n,
                i == 0 ==> *self == o && dead == Set::<int>::empty() && lem@ == lem0,
                i > 0 ==> first_done(o, cr@, dead),
                first_link(o, cs, cr@),
                sorted_by_len(o, cr@),
                occurs_ok(lem0, occ@),
                lem0.len() == n,
                forall|p2: int| 0 <= p2 < n ==> (#[trigger] lem0[p2]).lits().to_multiset() == o.arena().lits(cr@[p2]).to_multiset(),

                dlen == o.arena().data@.len(),
                self.arena().data@.len() == dlen,
                self.cdb.allocator.wasted <= o.cdb.allocator.wasted + dead.len() * dlen,
                o.cdb.allocator.wasted + (n + 1) * dlen < usize::MAX,
                forall|t: int, q: int| 0 <= t < o.trail@.len() && 0 <= q < n ==> o.reason_of(#[trigger] o.trail@[t]) != #[trigger] cr@[q],
                forall|d: CRef| #[trigger] o.watched(d) && !cs.contains(d) ==> self.watched(d)
                    && self.arena().lits(d) == o.arena().lits(d) && self.arena().header(d) == o.arena().header(d),
                forall|d: CRef| #[trigger] self.watched(d) ==> o.watched(d),
                self.value == o.value,
                self.trail == o.trail,
                self.reason == o.reason,
                self.pos_in_trail == o.pos_in_trail,
                self.domain == o.domain,
                self.vsids == o.vsids,
                self.cdb.lemmas == o.cdb.lemmas,
                self.cdb.trans == o.cdb.trans,
                self.cdb.learnt == o.cdb.learnt,
                self.cdb.temporary == o.cdb.temporary,
            decreases n - i,
        {
            if !self.cdb.allocator.is_removed(cr[i]) {
                proof {
                    assert(!dead.contains(i as int));
                    lemma_sub_live(o, *self, cs, cr@, pos, lem@, dead, wit, tt, i as int);
                }
                let best = pick_lit(&lem[i], &occ);
                let row = &occ[best.0 as usize];
                proof {
                    if i == 0 {
                        lemma_first_start(o, *self, cr@, dead, row@);
                        let k = choose|k: int| 0 <= k < lem@[0].lits().len() && lem@[0].lits()[k] == best;
                        crate::cube::lemma_covers_same_lits(lem0[0].lits(), lem0[0].lits(), o.arena().lits(cr@[0]));
                        assert(lem0[0].lits().contains(best));
                    }
                }
                let mut t: usize = 0;
                while t < row.len()
                    invariant
                        0 <= i < n,
                        n == cs.len(),
                        0 <= t <= row@.len(),
                        row@ == occ@[best.0 as int]@,
                        0 <= best.0 < occ@.len(),
                        !dead.contains(i as int),
                        self.inv(),
                        self.nv() == o.nv(),
                        sub_ok(o, *self, cs, cr@, pos, lem@, dead, wit, tt),
                        occ@.len() == self.watchers.wtrs.len(),
                        i == 0 ==> first_pass(o, *self, cr@, dead, row@, t as int),
                        i == 0 ==> o.arena().lits(cr@[0]).contains(best),
                        i > 0 ==> first_done(o, cr@, dead),
                        first_link(o, cs, cr@),
                        sorted_by_len(o, cr@),
                        occurs_ok(lem0, occ@),
                        lem0.len() == n,
                        forall|p2: int| 0 <= p2 < n ==> (#[trigger] lem0[p2]).lits().to_multiset() == o.arena().lits(cr@[p2]).to_multiset(),

                        forall|q: int, t2: int| 0 <= q < occ@.len() && 0 <= t2 < occ@[q]@.len() ==> (#[trigger] occ@[q]@[t2] as int) < n,
                        dlen == o.arena().data@.len(),
                        self.arena().data@.len() == dlen,
                        self.cdb.allocator.wasted <= o.cdb.allocator.wasted + dead.len() * dlen,
                        o.cdb.allocator.wasted + (n + 1) * dlen < usize::MAX,
                        forall|t2: int, q: int| 0 <= t2 < o.trail@.len() && 0 <= q < n ==> o.reason_of(#[trigger] o.trail@[t2]) != #[trigger] cr@[q],
                        forall|d: CRef| #[trigger] o.watched(d) && !cs.contains(d) ==> self.watched(d)
                            && self.arena().lits(d) == o.arena().lits(d) && self.arena().header(d) == o.arena().header(d),
                        forall|d: CRef| #[trigger] self.watched(d) ==> o.watched(d),
                        self.value == o.value,
                        self.trail == o.trail,
                        self.reason == o.reason,
                        self.pos_in_trail == o.pos_in_trail,
                        self.domain == o.domain,
                        self.vsids == o.vsids,
                        self.cdb.lemmas == o.cdb.lemmas,
                        self.cdb.trans == o.cdb.trans,
                        self.cdb.learnt == o.cdb.learnt,
                        self.cdb.temporary == o.cdb.temporary,
                    decreases row@.len() - t,
                {
                    let sub = row[t];
                    let ghost t0 = t as int;
                    let ghost st0 = *self;
                    let ghost dead0 = dead;
                    t = t + 1;
                    proof {
                        assert(occ@[best.0 as int]@[t - 1] == sub);
                    }
                    if sub != i && !self.cdb.allocator.is_removed(cr[sub]) {
                        proof {
                            assert(!dead.contains(sub as int));
                            lemma_sub_live(o, *self, cs, cr@, pos, lem@, dead, wit, tt, i as int);
                            lemma_sub_live(o, *self, cs, cr@, pos, lem@, dead, wit, tt, sub as int);
                            if i == 0 && sup_first(o, cr@, sub as int) {
                                lemma_first_exam(o, *self, cs, cr@, pos, lem@, dead, wit, tt, row@, t0);
                            }
                        }
                        let (res, diff) = lem[i].subsume_execpt_one(&lem[sub]);
                        if res {
                            let ghost s1 = *self;
                            proof {
                                lemma_budget_room(o, *self, cs, cr@, pos, lem@, dead, wit, tt, sub as int, dlen);
                            }
                            self.detach_clause(cr[sub]);
                            proof {
                                lemma_detached(s1, *self, cr@[sub as int]);
                                lemma_covers_lits(lem@[i as int], lem@[sub as int], s1.arena().lits(cr@[i as int]), s1.arena().lits(cr@[sub as int]));
                                lemma_sub_detach(o, s1, *self, cs, cr@, pos, lem@, dead, wit, tt, i as int, sub as int);
                                lemma_others_detach(o, s1, *self, cs, cr@, pos, lem@, dead, wit, tt, sub as int);
                                lemma_budget_step(dead, sub as int, dlen, o.cdb.allocator.wasted as int, s1.cdb.allocator.wasted as int,
                                    self.cdb.allocator.wasted as int, h_size(s1.arena().header(cr@[sub as int])));
                                if i == 0 {
                                    lemma_first_detach(o, s1, *self, cs, cr@, pos, lem@, dead, wit, tt, sub as int);
                                }
                                dead = dead.insert(sub as int);
                                wit = Seq::new(n as nat, |q: int| if wit[q] == sub as int { i as int } else { wit[q] });
                            }
                        } else {
                            match diff {
                                Some(d) => {
                                    if lem[i].len() == lem[sub].len() {
                                        if lem[i].len() > 2 {
                                            let ghost s1 = *self;
                                            proof {
                                                lemma_budget_room(o, *self, cs, cr@, pos, lem@, dead, wit, tt, sub as int, dlen);
                                            }
                                            self.detach_clause(cr[sub]);
                                            let ghost s2 = *self;
                                            proof {
                                                lemma_detached(s1, s2, cr@[sub as int]);
                                                lemma_sub_strengthen_ready(o, s1, s2, cs, cr@, pos, lem@, dead, wit, tt, i as int, sub as int, d);
                                            }
                                            self.strengthen_clause(cr[i], d);
                                            let v = clause_lits(&self.cdb.allocator, cr[i]);
                                            let nl = Lemma::new(v);
                                            proof {
                                                if i == 0 {
                                                    lemma_first_equal(o, s1, s2, *self, cs, cr@, pos, lem@, dead, wit, tt, sub as int);
                                                }
                                                lemma_sub_equal(o, s1, s2, *self, cs, cr@, pos, lem@, dead, wit, tt, i as int, sub as int, d, nl);
                                                lemma_others_detach(o, s1, s2, cs, cr@, pos, lem@, dead, wit, tt, sub as int);
                                                lemma_others_strengthen(o, s2, *self, cs, cr@, i as int);
                                                lemma_budget_step(dead, sub as int, dlen, o.cdb.allocator.wasted as int, s1.cdb.allocator.wasted as int,
                                                    self.cdb.allocator.wasted as int, h_size(s1.arena().header(cr@[sub as int])));
                                                dead = dead.insert(sub as int);
                                                wit = Seq::new(n as nat, |q: int| if wit[q] == sub as int { i as int } else { wit[q] });
                                            }
                                            lem.set(i, nl);
                                        }
                                    } else {
                                        let ghost s1 = *self;
                                        let nd = d.not();
                                        proof {
                                            lemma_sub_longer_ready(o, *self, cs, cr@, pos, lem@, dead, wit, tt, i as int, sub as int, d);
                                        }
                                        self.strengthen_clause(cr[sub], nd);
                                        let v = clause_lits(&self.cdb.allocator, cr[sub]);
                                        let nl = Lemma::new(v);
                                        proof {
                                            if i == 0 {
                                                lemma_first_longer(o, s1, *self, cs, cr@, pos, lem@, dead, wit, tt, sub as int);
                                            }
                                            lemma_sub_longer(o, s1, *self, cs, cr@, pos, lem@, dead, wit, tt, i as int, sub as int, d, nl);
                                            lemma_others_strengthen(o, s1, *self, cs, cr@, sub as int);
                                        }
                                        lem.set(sub, nl);
                                    }
                                },
                                None => {},
                            }
                        }
                    }
                    proof {
                        if i == 0 {
                            lemma_first_step(o, st0, *self, cr@, dead0, dead, row@, t0);
                        }
                    }
                }
                proof {
                    if i == 0 {
                        lemma_first_done(o, *self, cr@, lem0, occ@, best, dead, row@);
                    }
                }
            }
            i = i + 1;
        }
        let mut r: Vec<CRef> = Vec::new();
        let mut q: usize = 0;
        while q < n
            invariant
                0 <= q <= n,
                n == cs.len(),
                self.inv(),
                sub_ok(o, *self, cs, cr@, pos, lem@, dead, wit, tt),
                forall|c: CRef| #[trigger] r@.contains(c) <==> exists|q2: int| 0 <= q2 < q && cr@[q2] == c && !dead.contains(q2),
                r@.no_duplicates(),
                n > 0 ==> first_done(o, cr@, dead),
                first_link(o, cs, cr@),
                sorted_by_len(o, cr@),
                sorted_by_len(o, r@),
            decreases n - q,
        {
            if !self.cdb.allocator.is_removed(cr[q]) {
                proof {
                    assert(!dead.contains(q as int));
                    assert(!r@.contains(cr@[q as int])) by {
                        if r@.contains(cr@[q as int]) {
                            let q2 = choose|q2: int| 0 <= q2 < q && cr@[q2] == cr@[q as int] && !dead.contains(q2);
                        }
                    }
                }
                let ghost r0 = r@;
                proof {
                    assert forall|a: int| 0 <= a < r0.len() implies o.arena().lits(r0[a]).len() <= o.arena().lits(cr@[q as int]).len() by {
                        assert(r0.contains(r0[a]));
                        let q2 = choose|q2: int| 0 <= q2 < q && cr@[q2] == r0[a] && !dead.contains(q2);
                    }
                }
                r.push(cr[q]);
                proof {
                    assert(r@[r@.len() - 1] == cr@[q as int]);
                    assert forall|c: CRef| #[trigger] r@.contains(c) <==> exists|q2: int| 0 <= q2 < q + 1 && cr@[q2] == c && !dead.contains(q2) by {
                        if r@.contains(c) {
                            if c == cr@[q as int] {
                                assert(0 <= q < q + 1 && cr@[q as int] == c && !dead.contains(q as int));
                            } else {
                                let k = choose|k: int| 0 <= k < r@.len() && r@[k] == c;
                                assert(k < r0.len());
                                assert(r0[k] == c);
                                assert(r0.contains(c));
                                let q2 = choose|q2: int| 0 <= q2 < q && cr@[q2] == c && !dead.contains(q2);
                                assert(0 <= q2 < q + 1 && cr@[q2] == c && !dead.contains(q2));
                            }
                        }
                        if exists|q2: int| 0 <= q2 < q + 1 && cr@[q2] == c && !dead.contains(q2) {
                            let q2 = choose|q2: int| 0 <= q2 < q + 1 && cr@[q2] == c && !dead.contains(q2);
                            if q2 < q {
                                assert(r0.contains(c));
                                let k = choose|k: int| 0 <= k < r0.len() && r0[k] == c;
                                assert(r@[k] == c);
                            } else {
                                assert(r@.contains(r@[r@.len() - 1]));
                            }
                        }
                    }
                }
            } else {
                proof {
                    assert(dead.contains(q as int));
                }
            }
            q = q + 1;
        }
        proof {
            lemma_sub_final(o, *self, cs, cr@, pos, lem@, dead, wit, tt, r@);
            assert forall|a: int, b: int| #![trigger strictly_shortest(o, cs, a), cs[b]]
                strictly_shortest(o, cs, a) && 0 <= b < cs.len() && b != a
                && no_taut(o.arena().lits(cs[b]))
                && subsumes(o.arena().lits(cs[a]), o.arena().lits(cs[b]))
                implies !r@.contains(cs[b]) by {
                assert(cr@[0] == cs[a]);
                let pb = pos[b];
                assert(cr@[pb] == cs[b]);
                assert(pb != 0);
                assert(sup_first(o, cr@, pb)) by {
                    assert(o.arena().lits(cs[a]).len() < o.arena().lits(cs[b]).len());
                }
                assert(dead.contains(pb));
                if r@.contains(cs[b]) {
                    let q2 = choose|q2: int| 0 <= q2 < n && cr@[q2] == cs[b] && !dead.contains(q2);
                    assert(q2 == pb);
                }
            }
        }
        r
    }
}

/// A watched clause can be watched: its literals are below the number of
/// watch lists.
proof fn lemma_watched_bound(s: Solver, c: CRef)
    requires
        s.inv(),
        s.watched(c),
    ensures
        watchable(s.arena(), c, 2 * s.nv()),
        s.watchers.wtrs.len() == 2 * s.nv(),
        forall|k: int| 0 <= k < s.arena().lits(c).len() ==> ((#[trigger] s.arena().lits(c)[k]).0 as int) < s.watchers.wtrs.len(),
{
    let (q, w) = choose|q: int, w: int| #[trigger] s.is_watch(q, w) && s.wclause(q, w) == c;
    assert(watchable(s.arena(), c, 2 * s.nv()));
}

/// Before any clause is touched, the subsumption stands at its start.
proof fn lemma_sub_init(o: Solver, cs: Seq<CRef>, cr: Seq<CRef>, pos: Seq<int>, lem: Seq<Lemma>, order: Seq<usize>, tt: bool)
    requires
        o.inv(),
        forall|k: int| 0 <= k < cs.len() ==> o.watched(#[trigger] cs[k]),
        forall|a: int, b: int| 0 <= a < b < cs.len() ==> #[trigger] cs[a] != #[trigger] cs[b],
        forall|k: int| 0 <= k < cs.len() ==> !h_removed(o.arena().header(#[trigger] cs[k])),
        order.len() == cs.len(),
        forall|q: int| 0 <= q < cs.len() ==> (#[trigger] order[q] as int) < cs.len(),
        forall|p: int, q: int| 0 <= p < q < cs.len() ==> #[trigger] order[p] != #[trigger] order[q],
        forall|k: int| 0 <= k < cs.len() ==> #[trigger] takes(order, k),
        pos == Seq::new(cs.len(), |k: int| choose|q: int| 0 <= q < cs.len() && order[q] as int == k),
        cr.len() == cs.len(),
        lem.len() == cs.len(),
        forall|q: int| 0 <= q < cs.len() ==> #[trigger] cr[q] == cs[order[q] as int],
        forall|q: int| 0 <= q < cs.len() ==> (#[trigger] lem[q]).wf() && lem[q].lits().to_multiset() == o.arena().lits(cr[q]).to_multiset()
            && lem[q].lits().len() == o.arena().lits(cr[q]).len(),
        tt == forall|k: int| 0 <= k < cs.len() ==> no_taut(o.arena().lits(#[trigger] cs[k])),
    ensures
        sub_ok(o, o, cs, cr, pos, lem, Set::empty(), Seq::new(cs.len(), |q: int| q), tt),
{
    let n = cs.len();
    let wit = Seq::new(cs.len(), |q: int| q);
    assert forall|k: int| 0 <= k < n implies 0 <= #[trigger] pos[k] < n && cr[pos[k]] == cs[k] by {
        assert(takes(order, k));
    }
    assert forall|p: int| 0 <= p < n implies cs.contains(#[trigger] cr[p]) by {
        assert(cs[order[p] as int] == cr[p]);
    }
    assert forall|p: int, q: int| 0 <= p < q < n implies #[trigger] cr[p] != #[trigger] cr[q] by {
        assert(order[p] != order[q]);
        if (order[p] as int) < (order[q] as int) {
            assert(cs[order[p] as int] != cs[order[q] as int]);
        } else {
            assert(cs[order[q] as int] != cs[order[p] as int]);
        }
    }
    assert forall|p: int| 0 <= p < n implies o.arena().valid(#[trigger] cr[p])
        && (Set::<int>::empty().contains(p) <==> h_removed(o.arena().header(cr[p])))
        && (Set::<int>::empty().contains(p) <==> !o.watched(cr[p])) by {
        assert(o.watched(cs[order[p] as int]));
        lemma_watched_bound(o, cr[p]);
    }
    assert forall|p: int, q: int| 0 <= p < n && 0 <= q < n && p != q implies apart(o.arena(), #[trigger] cr[p], #[trigger] cr[q]) by {
        assert(o.watched(cr[p]) && o.watched(cr[q]));
        let (q1, i1) = choose|q1: int, i1: int| #[trigger] o.is_watch(q1, i1) && o.wclause(q1, i1) == cr[p];
        let (q2, i2) = choose|q2: int, i2: int| #[trigger] o.is_watch(q2, i2) && o.wclause(q2, i2) == cr[q];
        assert(o.wclause(q1, i1) == o.wclause(q2, i2) || apart(o.arena(), o.wclause(q1, i1), o.wclause(q2, i2)));
        if p < q {
            assert(cr[p] != cr[q]);
        } else {
            assert(cr[q] != cr[p]);
        }
    }
    assert forall|p: int| 0 <= p < n implies 0 <= #[trigger] wit[p] < n && !Set::<int>::empty().contains(wit[p])
        && subsumes(o.arena().lits(cr[wit[p]]), o.arena().lits(cr[p])) by {
        assert(subsumes(o.arena().lits(cr[p]), o.arena().lits(cr[p]))) by {
            assert forall|j: int| 0 <= j < o.arena().lits(cr[p]).len() implies o.arena().lits(cr[p]).contains(#[trigger] o.arena().lits(cr[p])[j]) by {}
        }
    }
    assert forall|p: int| 0 <= p < n && !Set::<int>::empty().contains(p) implies (#[trigger] lem[p]).wf()
        && lem[p].lits().to_multiset() == o.arena().lits(cr[p]).to_multiset()
        && lem[p].lits().len() == o.arena().lits(cr[p]).len()
        && subsumes(o.arena().lits(cr[p]), o.arena().lits(cr[p])) by {
        assert forall|j: int| 0 <= j < o.arena().lits(cr[p]).len() implies o.arena().lits(cr[p]).contains(#[trigger] o.arena().lits(cr[p])[j]) by {}
    }
    if tt {
        assert forall|p: int| 0 <= p < n implies no_taut(o.arena().lits(#[trigger] cr[p])) by {
            assert(no_taut(o.arena().lits(cs[order[p] as int])));
        }
        assert forall|sigma: spec_fn(Var) -> bool| #[trigger] old_holds(o, cs, sigma) implies cur_holds(o, cr, Set::empty(), sigma) by {
            assert forall|p: int| 0 <= p < cr.len() && !Set::<int>::empty().contains(p) implies sat_by(sigma, #[trigger] o.arena().lits(cr[p])) by {
                assert(sat_by(sigma, o.arena().lits(cs[order[p] as int])));
            }
        }
    }
}

/// A clause of the list still in use is watched, and its lemma has its
/// literals, at least two, each below the number of watch lists.
proof fn lemma_sub_live(o: Solver, s: Solver, cs: Seq<CRef>, cr: Seq<CRef>, pos: Seq<int>, lem: Seq<Lemma>,
    dead: Set<int>, wit: Seq<int>, tt: bool, p: int)
    requires
        s.inv(),
        sub_ok(o, s, cs, cr, pos, lem, dead, wit, tt),
        0 <= p < cs.len(),
        !dead.contains(p),
    ensures
        s.watched(cr[p]),
        watchable(s.arena(), cr[p], 2 * s.nv()),
        lem[p].wf(),
        lem[p].lits().len() == s.arena().clause_len(cr[p]),
        lem[p].lits().len() >= 2,
        forall|x: Lit| #[trigger] lem[p].lits().contains(x) == s.arena().lits(cr[p]).contains(x),
        forall|j: int| 0 <= j < lem[p].lits().len() ==> ((#[trigger] lem[p].lits()[j]).0 as int) < s.watchers.wtrs.len(),
{
    lemma_watched_bound(s, cr[p]);
    lemma_same_lits(lem[p].lits(), s.arena().lits(cr[p]));
    assert forall|j: int| 0 <= j < lem[p].lits().len() implies ((#[trigger] lem[p].lits()[j]).0 as int) < s.watchers.wtrs.len() by {
        assert(lem[p].lits().contains(lem[p].lits()[j]));
        assert(s.arena().lits(cr[p]).contains(lem[p].lits()[j]));
    }
}

/// Before a clause of the list still in use is detached, the waste it adds
/// fits.
proof fn lemma_budget_room(o: Solver, s: Solver, cs: Seq<CRef>, cr: Seq<CRef>, pos: Seq<int>, lem: Seq<Lemma>,
    dead: Set<int>, wit: Seq<int>, tt: bool, sub: int, dlen: int)
    requires
        sub_ok(o, s, cs, cr, pos, lem, dead, wit, tt),
        0 <= sub < cs.len(),
        !dead.contains(sub),
        dlen == s.arena().data@.len(),
        s.cdb.allocator.wasted <= o.cdb.allocator.wasted + dead.len() * dlen,
        o.cdb.allocator.wasted + (cs.len() + 1) * dlen < usize::MAX,
    ensures
        s.cdb.allocator.wasted + s.arena().data@.len() < usize::MAX,
{
    let n = cs.len() as int;
    let rest = vstd::set_lib::set_int_range(0, n).remove(sub);
    vstd::set_lib::lemma_int_range(0, n);
    assert(dead.subset_of(rest));
    vstd::set_lib::lemma_len_subset(dead, rest);
    crate::solver_clauses::lemma_mul_le(dead.len() as int, n - 1, dlen);
    crate::solver_clauses::lemma_mul_succ(n - 1, dlen);
    crate::solver_clauses::lemma_mul_succ(n, dlen);
}

/// Detaching a clause adds its size to the waste, once per position.
proof fn lemma_budget_step(dead: Set<int>, sub: int, dlen: int, ow: int, w1: int, w2: int, sz: int)
    requires
        dead.finite(),
        !dead.contains(sub),
        dlen >= 0,
        w1 <= ow + dead.len() * dlen,
        w2 == w1 + sz,
        sz <= dlen,
    ensures
        dead.insert(sub).finite(),
        w2 <= ow + dead.insert(sub).len() * dlen,
{
    crate::solver_clauses::lemma_mul_succ(dead.len() as int, dlen);
}

/// What `detach_clause` ensures, gathered.
proof fn lemma_detached(s1: Solver, s2: Solver, c: CRef)
    requires
        s2.watchers.unwatched(c),
        h_removed(s2.arena().header(c)),
        s2.arena().valid(c),
        s2.arena().lits(c) == s1.arena().lits(c),
        crate::cdb::h_same_except(s2.arena().header(c), s1.arena().header(c), false, false, false, false, true),
        forall|d: CRef| d != c && #[trigger] s1.watched(d) ==> s2.watched(d),
        forall|d: CRef| #[trigger] s2.watched(d) ==> d != c && s1.watched(d),
        forall|d: CRef| #[trigger] s1.arena().valid(d) && apart(s1.arena(), c, d) ==> s2.arena().valid(d)
            && s2.arena().lits(d) == s1.arena().lits(d) && s2.arena().header(d) == s1.arena().header(d),
    ensures
        detached(s1, s2, c),
{
    if s2.watched(c) {
        let (q, w) = choose|q: int, w: int| #[trigger] s2.is_watch(q, w) && s2.wclause(q, w) == c;
        assert(s2.watchers.wtrs@[q]@[w].clause != c);
    }
}

/// Two lemmas, one covering the other, tell of the clauses they hold.
proof fn lemma_covers_lits(l1: Lemma, l2: Lemma, a: Seq<Lit>, b: Seq<Lit>)
    requires
        covers(l1.lits(), l2.lits()),
        l1.lits().to_multiset() == a.to_multiset(),
        l2.lits().to_multiset() == b.to_multiset(),
    ensures
        subsumes(a, b),
{
    lemma_same_lits(l1.lits(), a);
    lemma_same_lits(l2.lits(), b);
    assert forall|i: int| 0 <= i < a.len() implies b.contains(#[trigger] a[i]) by {
        assert(a.contains(a[i]));
        assert(l1.lits().contains(a[i]));
        let j = choose|j: int| 0 <= j < l1.lits().len() && l1.lits()[j] == a[i];
        assert(l2.lits().contains(l1.lits()[j]));
    }
}

/// The watched clauses outside the list stay as they were when a clause of
/// the list is detached.
proof fn lemma_others_detach(o: Solver, s1: Solver, s2: Solver, cs: Seq<CRef>, cr: Seq<CRef>, pos: Seq<int>, lem: Seq<Lemma>,
    dead: Set<int>, wit: Seq<int>, tt: bool, sub: int)
    requires
        s1.inv(),
        sub_ok(o, s1, cs, cr, pos, lem, dead, wit, tt),
        0 <= sub < cs.len(),
        !dead.contains(sub),
        detached(s1, s2, cr[sub]),
        forall|d: CRef| #[trigger] o.watched(d) && !cs.contains(d) ==> s1.watched(d)
            && s1.arena().lits(d) == o.arena().lits(d) && s1.arena().header(d) == o.arena().header(d),
        forall|d: CRef| #[trigger] s1.watched(d) ==> o.watched(d),
    ensures
        forall|d: CRef| #[trigger] o.watched(d) && !cs.contains(d) ==> s2.watched(d)
            && s2.arena().lits(d) == o.arena().lits(d) && s2.arena().header(d) == o.arena().header(d),
        forall|d: CRef| #[trigger] s2.watched(d) ==> o.watched(d),
{
    let c = cr[sub];
    assert(cs.contains(c));
    assert(s1.watched(c));
    assert forall|d: CRef| #[trigger] o.watched(d) && !cs.contains(d) implies s2.watched(d)
        && s2.arena().lits(d) == o.arena().lits(d) && s2.arena().header(d) == o.arena().header(d) by {
        assert(s1.watched(d));
        assert(d != c);
        let (q1, i1) = choose|q1: int, i1: int| #[trigger] s1.is_watch(q1, i1) && s1.wclause(q1, i1) == c;
        let (q2, i2) = choose|q2: int, i2: int| #[trigger] s1.is_watch(q2, i2) && s1.wclause(q2, i2) == d;
        assert(s1.wclause(q1, i1) == s1.wclause(q2, i2) || apart(s1.arena(), s1.wclause(q1, i1), s1.wclause(q2, i2)));
        lemma_watched_bound(s1, d);
    }
}

/// The watched clauses outside the list stay as they were when a clause of
/// the list is strengthened.
proof fn lemma_others_strengthen(o: Solver, s1: Solver, s2: Solver, cs: Seq<CRef>, cr: Seq<CRef>, x: int)
    requires
        s1.inv(),
        0 <= x < cr.len(),
        cs.contains(cr[x]),
        s1.watched(cr[x]),
        forall|d: CRef| #[trigger] s2.watched(d) == s1.watched(d),
        forall|d: CRef| #[trigger] s1.arena().valid(d) && apart(s1.arena(), cr[x], d) ==> s2.arena().valid(d)
            && s2.arena().lits(d) == s1.arena().lits(d) && s2.arena().header(d) == s1.arena().header(d),
        forall|d: CRef| #[trigger] o.watched(d) && !cs.contains(d) ==> s1.watched(d)
            && s1.arena().lits(d) == o.arena().lits(d) && s1.arena().header(d) == o.arena().header(d),
        forall|d: CRef| #[trigger] s1.watched(d) ==> o.watched(d),
    ensures
        forall|d: CRef| #[trigger] o.watched(d) && !cs.contains(d) ==> s2.watched(d)
            && s2.arena().lits(d) == o.arena().lits(d) && s2.arena().header(d) == o.arena().header(d),
        forall|d: CRef| #[trigger] s2.watched(d) ==> o.watched(d),
{
    let c = cr[x];
    assert forall|d: CRef| #[trigger] o.watched(d) && !cs.contains(d) implies s2.watched(d)
        && s2.arena().lits(d) == o.arena().lits(d) && s2.arena().header(d) == o.arena().header(d) by {
        assert(s1.watched(d));
        assert(d != c);
        let (q1, i1) = choose|q1: int, i1: int| #[trigger] s1.is_watch(q1, i1) && s1.wclause(q1, i1) == c;
        let (q2, i2) = choose|q2: int, i2: int| #[trigger] s1.is_watch(q2, i2) && s1.wclause(q2, i2) == d;
        assert(s1.wclause(q1, i1) == s1.wclause(q2, i2) || apart(s1.arena(), s1.wclause(q1, i1), s1.wclause(q2, i2)));
        lemma_watched_bound(s1, d);
    }
}

/// After the clause at `sub` is detached, the clause at `cls` can be
/// strengthened by `d`.
proof fn lemma_sub_strengthen_ready(o: Solver, s1: Solver, s2: Solver, cs: Seq<CRef>, cr: Seq<CRef>, pos: Seq<int>, lem: Seq<Lemma>,
    dead: Set<int>, wit: Seq<int>, tt: bool, cls: int, sub: int, d: Lit)
    requires
        s1.inv(),
        sub_ok(o, s1, cs, cr, pos, lem, dead, wit, tt),
        0 <= cls < cs.len(),
        0 <= sub < cs.len(),
        cls != sub,
        !dead.contains(cls),
        !dead.contains(sub),
        detached(s1, s2, cr[sub]),
        lem[cls].lits().len() > 2,
        lem[cls].lits().contains(d),
    ensures
        s2.watched(cr[cls]),
        s2.arena().clause_len(cr[cls]) > 2,
        s2.arena().lits(cr[cls]).contains(d),
        s1.arena().lits(cr[cls]).no_duplicates(),
        s1.arena().lits(cr[sub]).no_duplicates(),
{
    lemma_sub_live(o, s1, cs, cr, pos, lem, dead, wit, tt, cls);
    lemma_sub_live(o, s1, cs, cr, pos, lem, dead, wit, tt, sub);
    assert(apart(s1.arena(), cr[sub], cr[cls]));
    assert(cr[cls] != cr[sub]);
    assert(s2.arena().lits(cr[cls]) == s1.arena().lits(cr[cls]));
}

/// The longer clause at `sub` can be strengthened by the negation of `d`.
proof fn lemma_sub_longer_ready(o: Solver, s: Solver, cs: Seq<CRef>, cr: Seq<CRef>, pos: Seq<int>, lem: Seq<Lemma>,
    dead: Set<int>, wit: Seq<int>, tt: bool, cls: int, sub: int, d: Lit)
    requires
        s.inv(),
        sub_ok(o, s, cs, cr, pos, lem, dead, wit, tt),
        0 <= cls < cs.len(),
        0 <= sub < cs.len(),
        cls != sub,
        !dead.contains(cls),
        !dead.contains(sub),
        lem[cls].lits().len() <= lem[sub].lits().len(),
        lem[cls].lits().len() != lem[sub].lits().len(),
        lem[sub].lits().contains(d.negated()),
    ensures
        s.watched(cr[sub]),
        s.arena().clause_len(cr[sub]) > 2,
        s.arena().lits(cr[sub]).contains(d.negated()),
{
    lemma_sub_live(o, s, cs, cr, pos, lem, dead, wit, tt, cls);
    lemma_sub_live(o, s, cs, cr, pos, lem, dead, wit, tt, sub);
}

/// When the list is done, the clauses left are the list's still watched,
/// each holding only literals it held before, every clause of the list
/// holds all the literals of one left, and, with no clause holding a
/// literal and its negation, the clauses left hold exactly where the list
/// held.
proof fn lemma_sub_final(o: Solver, s: Solver, cs: Seq<CRef>, cr: Seq<CRef>, pos: Seq<int>, lem: Seq<Lemma>,
    dead: Set<int>, wit: Seq<int>, tt: bool, r: Seq<CRef>)
    requires
        sub_ok(o, s, cs, cr, pos, lem, dead, wit, tt),
        forall|c: CRef| #[trigger] r.contains(c) <==> exists|q2: int| 0 <= q2 < cs.len() && cr[q2] == c && !dead.contains(q2),
        tt == forall|k: int| 0 <= k < cs.len() ==> no_taut(o.arena().lits(#[trigger] cs[k])),
    ensures
        forall|c: CRef| #[trigger] r.contains(c) <==> cs.contains(c) && s.watched(c),
        forall|c: CRef| #[trigger] r.contains(c) ==> !h_removed(s.arena().header(c)),
        forall|c: CRef| #[trigger] cs.contains(c) && !s.watched(c) ==> h_removed(s.arena().header(c)),
        forall|c: CRef| #[trigger] r.contains(c) ==> subsumes(s.arena().lits(c), o.arena().lits(c)),
        forall|k: int| 0 <= k < cs.len() ==> kept_below(s, r, o.arena().lits(#[trigger] cs[k])),
        tt ==> forall|sigma: spec_fn(Var) -> bool| #[trigger] old_holds(o, cs, sigma) == kept_holds(s, r, sigma),
{
    let n = cs.len();
    assert forall|c: CRef| #[trigger] r.contains(c) <==> cs.contains(c) && s.watched(c) by {
        if r.contains(c) {
            let q2 = choose|q2: int| 0 <= q2 < n && cr[q2] == c && !dead.contains(q2);
            assert(cs.contains(cr[q2]));
        }
        if cs.contains(c) && s.watched(c) {
            let k = choose|k: int| 0 <= k < n && cs[k] == c;
            assert(cr[pos[k]] == c);
            assert(!dead.contains(pos[k]));
        }
    }
    assert forall|c: CRef| #[trigger] r.contains(c) implies !h_removed(s.arena().header(c)) by {
        let q2 = choose|q2: int| 0 <= q2 < n && cr[q2] == c && !dead.contains(q2);
    }
    assert forall|c: CRef| #[trigger] cs.contains(c) && !s.watched(c) implies h_removed(s.arena().header(c)) by {
        let k = choose|k: int| 0 <= k < n && cs[k] == c;
        assert(cr[pos[k]] == c);
    }
    assert forall|c: CRef| #[trigger] r.contains(c) implies subsumes(s.arena().lits(c), o.arena().lits(c)) by {
        let q2 = choose|q2: int| 0 <= q2 < n && cr[q2] == c && !dead.contains(q2);
        assert(lem[q2].wf());
        assert(subsumes(s.arena().lits(cr[q2]), o.arena().lits(cr[q2])));
    }
    assert forall|k: int| 0 <= k < n implies kept_below(s, r, o.arena().lits(#[trigger] cs[k])) by {
        let p = pos[k];
        let w = wit[p];
        assert(cr[p] == cs[k]);
        assert(0 <= w < n && !dead.contains(w));
        assert(subsumes(s.arena().lits(cr[w]), o.arena().lits(cr[p])));
        assert(exists|q2: int| 0 <= q2 < cs.len() && cr[q2] == cr[w] && !dead.contains(q2));
        assert(r.contains(cr[w]));
        let j = choose|j: int| 0 <= j < r.len() && r[j] == cr[w];
        assert(subsumes(s.arena().lits(r[j]), o.arena().lits(cs[k])));
    }
    if tt {
        assert forall|sigma: spec_fn(Var) -> bool| #[trigger] old_holds(o, cs, sigma) == kept_holds(s, r, sigma) by {
            if old_holds(o, cs, sigma) {
                assert(cur_holds(s, cr, dead, sigma));
                assert forall|j: int| 0 <= j < r.len() implies sat_by(sigma, #[trigger] s.arena().lits(r[j])) by {
                    assert(r.contains(r[j]));
                    let q2 = choose|q2: int| 0 <= q2 < n && cr[q2] == r[j] && !dead.contains(q2);
                    assert(sat_by(sigma, s.arena().lits(cr[q2])));
                }
            }
            if kept_holds(s, r, sigma) {
                assert forall|k: int| 0 <= k < cs.len() implies sat_by(sigma, #[trigger] o.arena().lits(cs[k])) by {
                    let p = pos[k];
                    let w = wit[p];
                    assert(cr[p] == cs[k]);
                    assert(r.contains(cr[w]));
                    let j = choose|j: int| 0 <= j < r.len() && r[j] == cr[w];
                    assert(sat_by(sigma, s.arena().lits(r[j])));
                    lemma_sat_superset(sigma, s.arena().lits(cr[w]), o.arena().lits(cr[p]));
                }
            }
        }
    }
}

} // verus!
