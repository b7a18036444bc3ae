//! Steps of IC3's generalization and predecessor extraction that decide on
//! values the solver already holds: the checks that end a `down` round
//! early and the cut a round makes after a counterexample, the input and
//! latch parts of a predecessor with the reorderings tried to shrink it,
//! and, for the XOR generalization, its candidates, the scan over pairs,
//! the cube it tries and the clauses that define an XOR variable.
use crate::cube::{covers, lemma_covers_same_lits, sort_cube, sorted, Lemma};
use crate::frame::{lits_of, FrameLemma};
use crate::mic::contains_lit;
use crate::lit::{lemma_negated, Lit, Var, MAX_VAR};
use crate::model::{init_of, Model};
use crate::solver::Solver;
use crate::solver_clauses::assigned_lits;
use crate::subsume::{lit_holds, sat_by};
use vstd::prelude::*;

verus! {

/// `cube` meets the initial states: none of its literals contradicts an
/// initial value.
pub open spec fn meets_init(model: Model, cube: Seq<Lit>) -> bool {
    forall|i: int|
        0 <= i < cube.len() ==> match init_of(model.init_map@, (#[trigger] cube[i]).var()) {
            Some(b) => b == cube[i].polarity(),
            None => true,
        }
}

/// Some recorded pair `(s, t)` of `cex` has `t` covered by `cube` and `s`
/// not: `cube` would keep a known counterexample to induction.
pub open spec fn cex_cut(cube: Seq<Lit>, cex: Seq<(Lemma, Lemma)>) -> bool {
    exists|k: int| 0 <= k < cex.len() && !covers(cube, (#[trigger] cex[k]).0.lits()) && covers(cube, cex[k].1.lits())
}

/// Whether a round of `down` gives `cube` up before asking the solver: it
/// meets the initial states, or it keeps a recorded counterexample pair.
pub fn down_precheck(model: &Model, cube: &Vec<Lit>, cex: &Vec<(Lemma, Lemma)>) -> (r: bool)
    requires
        forall|k: int| 0 <= k < cex@.len() ==> (#[trigger] cex@[k]).0.wf() && cex@[k].1.wf(),
    ensures
        r == (meets_init(*model, cube@) || cex_cut(cube@, cex@)),
{
    if model.cube_subsume_init(cube) {
        return true;
    }
    let mut copy: Vec<Lit> = Vec::new();
    let mut i: usize = 0;
    while i < cube.len()
        invariant
            0 <= i <= cube@.len(),
            copy@ == cube@.subrange(0, i as int),
        decreases cube@.len() - i,
    {
        copy.push(cube[i]);
        i = i + 1;
    }
    proof {
        assert(copy@ == cube@.subrange(0, cube@.len() as int));
        assert(cube@.subrange(0, cube@.len() as int) == cube@);
    }
    let lemma = Lemma::new(copy);
    let mut k: usize = 0;
    while k < cex.len()
        invariant
            0 <= k <= cex@.len(),
            lemma.wf(),
            lemma.lits().to_multiset() == cube@.to_multiset(),
            forall|k2: int| 0 <= k2 < cex@.len() ==> (#[trigger] cex@[k2]).0.wf() && cex@[k2].1.wf(),
            forall|k2: int| 0 <= k2 < k ==> !(!covers(cube@, (#[trigger] cex@[k2]).0.lits()) && covers(cube@, cex@[k2].1.lits())),
        decreases cex@.len() - k,
    {
        let s = &cex[k].0;
        let t = &cex[k].1;
        proof {
            lemma_covers_same_lits(s.lits(), lemma.lits(), cube@);
            lemma_covers_same_lits(t.lits(), lemma.lits(), cube@);
        }
        if !lemma.subsume(s) && lemma.subsume(t) {
            return true;
        }
        k = k + 1;
    }
    false
}

/// The input part of a predecessor: each input of `model` that the solver
/// assigns, as the literal that holds, in the order of the inputs.
pub fn pred_inputs(solver: &Solver, model: &Model) -> (r: Vec<Lit>)
    requires
        solver.value.wf(),
        forall|k: int| 0 <= k < model.inputs@.len() ==> (#[trigger] model.inputs@[k]).0 <= MAX_VAR
            && solver.value.covers(model.inputs@[k].spec_lit()),
    ensures
        r@ == assigned_lits(model.inputs@, solver.value),
{
    solver.trivial_predecessor(&model.inputs)
}

/// How the latch part of a predecessor is reordered before an attempt to
/// shrink it: by code, largest first; by activity; reversed; shuffled.
#[derive(Clone, Copy, Debug, PartialEq, Eq, Structural)]
pub enum PredOrder {
    Inn,
    Activity,
    Reverse,
    Shuffle,
}

/// The reordering before attempt `i` (from zero): with `inn`, by code
/// first; then by activity, then reversed, and shuffled from then on.
pub open spec fn pred_order_spec(i: int, inn: bool) -> PredOrder {
    let k = if inn {
        i
    } else {
        i + 1
    };
    if k == 0 {
        PredOrder::Inn
    } else if k == 1 {
        PredOrder::Activity
    } else if k == 2 {
        PredOrder::Reverse
    } else {
        PredOrder::Shuffle
    }
}

/// The reordering of the latch part before attempt `i`.
pub fn pred_order(i: usize, inn: bool) -> (r: PredOrder)
    ensures
        r == pred_order_spec(i as int, inn),
{
    let k: usize = if inn {
        i
    } else if i < 3 {
        i + 1
    } else {
        3
    };
    if k == 0 {
        PredOrder::Inn
    } else if k == 1 {
        PredOrder::Activity
    } else if k == 2 {
        PredOrder::Reverse
    } else {
        PredOrder::Shuffle
    }
}

/// The latch part in the `Inn` order: the same literals, by code, largest
/// first.
pub fn inn_order(latchs: &Vec<Lit>) -> (r: Vec<Lit>)
    ensures
        r@.to_multiset() == latchs@.to_multiset(),
        forall|i: int, j: int| 0 <= i <= j < r@.len() ==> r@[i].0 >= r@[j].0,
{
    let mut c: Vec<Lit> = Vec::new();
    let mut k: usize = 0;
    while k < latchs.len()
        invariant
            0 <= k <= latchs@.len(),
            c@ == latchs@.subrange(0, k as int),
        decreases latchs@.len() - k,
    {
        c.push(latchs[k]);
        k = k + 1;
    }
    proof {
        assert(latchs@.subrange(0, latchs@.len() as int) == latchs@);
    }
    sort_cube(&mut c);
    let mut r: Vec<Lit> = Vec::new();
    let mut m: usize = c.len();
    while m > 0
        invariant
            0 <= m <= c@.len(),
            r@ == c@.reverse().subrange(0, c@.len() - m),
        decreases m,
    {
        m = m - 1;
        proof {
            assert(c@.reverse()[c@.len() - 1 - m] == c@[m as int]);
            assert(c@.reverse().subrange(0, c@.len() - m) =~= c@.reverse().subrange(0, c@.len() - 1 - m).push(c@[m as int]));
        }
        r.push(c[m]);
    }
    proof {
        assert(r@ =~= c@.reverse());
        c@.lemma_reverse_to_multiset();
        assert(sorted(c@));
        assert forall|i: int, j: int| 0 <= i <= j < r@.len() implies r@[i].0 >= r@[j].0 by {
            assert(r@[i] == c@[c@.len() - 1 - i]);
            assert(r@[j] == c@[c@.len() - 1 - j]);
        }
    }
    r
}

/// How the XOR table keys the pair of literals `x`, `y`: ordered by
/// variable, and both negated when the first is negative.
pub open spec fn xor_key(x: Lit, y: Lit) -> (Lit, Lit) {
    let (a, b) = if x.var().0 > y.var().0 {
        (y, x)
    } else {
        (x, y)
    };
    if !a.polarity() {
        (a.negated(), b.negated())
    } else {
        (a, b)
    }
}

/// The key of the pair `x`, `y` in the XOR table.
pub fn xor_pair(x: Lit, y: Lit) -> (r: (Lit, Lit))
    ensures
        r == xor_key(x, y),
{
    let (a, b) = if x.var_of().0 > y.var_of().0 {
        (y, x)
    } else {
        (x, y)
    };
    if !a.is_positive() {
        (a.not(), b.not())
    } else {
        (a, b)
    }
}

/// The pair at `(i, j)` of `lemma` is tried in a round of the XOR
/// generalization: in the first round only when the table has a variable
/// for it (`known` holds the table's keys), in the second always.
pub open spec fn xor_tried(lemma: Seq<Lit>, known: Seq<(Lit, Lit)>, second: bool, i: int, j: int) -> bool {
    0 <= i < j < lemma.len() && (second || known.contains(xor_key(lemma[i], lemma[j])))
}

/// `(a, b)` comes before `(c, d)` in the order in which a round scans the
/// pairs: by first index, then by second.
pub open spec fn pair_before(a: int, b: int, c: int, d: int) -> bool {
    a < c || (a == c && b < d)
}

/// Whether `known` holds `key`.
fn has_key(known: &Vec<(Lit, Lit)>, key: (Lit, Lit)) -> (b: bool)
    ensures
        b == known@.contains(key),
{
    let mut k: usize = 0;
    while k < known.len()
        invariant
            0 <= k <= known@.len(),
            forall|m: int| 0 <= m < k ==> known@[m] != key,
        decreases known@.len() - k,
    {
        let e = known[k];
        if e.0 == key.0 && e.1 == key.1 {
            proof {
                assert(known@[k as int] == key);
            }
            return true;
        }
        k = k + 1;
    }
    false
}

/// The next pair of `lemma` that a round of the XOR generalization tries,
/// from `(i, j)` on in the scan order; `None` when no pair is left.
pub fn xor_next(lemma: &Vec<Lit>, known: &Vec<(Lit, Lit)>, second: bool, i: usize, j: usize) -> (r: Option<(usize, usize)>)
    ensures
        r matches Some(p) ==> xor_tried(lemma@, known@, second, p.0 as int, p.1 as int)
            && !pair_before(p.0 as int, p.1 as int, i as int, j as int),
        r matches Some(p) ==> forall|a: int, b: int|
            !pair_before(a, b, i as int, j as int) && pair_before(a, b, p.0 as int, p.1 as int)
                ==> !#[trigger] xor_tried(lemma@, known@, second, a, b),
        r is None ==> forall|a: int, b: int| !pair_before(a, b, i as int, j as int) ==> !#[trigger] xor_tried(lemma@, known@, second, a, b),
{
    let n = lemma.len();
    let mut a: usize = i;
    let mut b: usize = j;
    while a < n
        invariant
            n == lemma@.len(),
            i <= a,
            !pair_before(a as int, b as int, i as int, j as int),
            forall|a2: int, b2: int|
                !pair_before(a2, b2, i as int, j as int) && pair_before(a2, b2, a as int, b as int)
                    ==> !#[trigger] xor_tried(lemma@, known@, second, a2, b2),
        decreases n - a, n + 1 - b,
    {
        if b <= a {
            b = a + 1;
            proof {
                assert forall|a2: int, b2: int|
                    !pair_before(a2, b2, i as int, j as int) && pair_before(a2, b2, a as int, b as int)
                        implies !#[trigger] xor_tried(lemma@, known@, second, a2, b2) by {}
            }
        }
        if b < n {
            let key = xor_pair(lemma[a], lemma[b]);
            let tried = second || has_key(known, key);
            if tried {
                return Some((a, b));
            }
            proof {
                assert forall|a2: int, b2: int|
                    !pair_before(a2, b2, i as int, j as int) && pair_before(a2, b2, a as int, b + 1)
                        implies !#[trigger] xor_tried(lemma@, known@, second, a2, b2) by {
                    if a2 == a && b2 == b {
                    }
                }
            }
            b = b + 1;
        } else {
            proof {
                assert forall|a2: int, b2: int|
                    !pair_before(a2, b2, i as int, j as int) && pair_before(a2, b2, a + 1, 0)
                        implies !#[trigger] xor_tried(lemma@, known@, second, a2, b2) by {
                    if a2 == a && b2 >= b {
                    }
                }
            }
            a = a + 1;
            b = 0;
        }
    }
    proof {
        assert forall|a2: int, b2: int| !pair_before(a2, b2, i as int, j as int) implies !#[trigger] xor_tried(lemma@, known@, second, a2, b2) by {
            if xor_tried(lemma@, known@, second, a2, b2) {
                assert(pair_before(a2, b2, a as int, b as int));
            }
        }
    }
    None
}

/// The cube that the XOR generalization tries for the literals at `i` and
/// `j` of `lemma`: with an XOR variable `c` for them, `c` in place of the
/// first and the second left out; without one, both negated.
pub fn xor_try(lemma: &Vec<Lit>, i: usize, j: usize, c: Option<Lit>) -> (r: Vec<Lit>)
    requires
        i < j < lemma@.len(),
    ensures
        c is Some ==> r@ == lemma@.update(i as int, c->0).remove(j as int),
        c is None ==> r@ == lemma@.update(i as int, lemma@[i as int].negated()).update(j as int, lemma@[j as int].negated()),
{
    let mut r: Vec<Lit> = Vec::new();
    let mut k: usize = 0;
    while k < lemma.len()
        invariant
            0 <= k <= lemma@.len(),
            r@ == lemma@.subrange(0, k as int),
        decreases lemma@.len() - k,
    {
        r.push(lemma[k]);
        k = k + 1;
    }
    proof {
        assert(lemma@.subrange(0, lemma@.len() as int) == lemma@);
    }
    match c {
        Some(c) => {
            r.set(i, c);
            r.remove(j);
        },
        None => {
            let ni = lemma[i].not();
            let nj = lemma[j].not();
            r.set(i, ni);
            r.set(j, nj);
        },
    }
    r
}

/// The clauses that make `c` true exactly when `a` and `b` agree.
pub fn xor_def_clauses(a: Lit, b: Lit, c: Lit) -> (r: Vec<Vec<Lit>>)
    ensures
        r@.len() == 4,
        r@[0]@ == seq![a.negated(), b.negated(), c],
        r@[1]@ == seq![a, b, c],
        r@[2]@ == seq![a.negated(), b, c.negated()],
        r@[3]@ == seq![a, b.negated(), c.negated()],
{
    let na = a.not();
    let nb = b.not();
    let nc = c.not();
    let mut r: Vec<Vec<Lit>> = Vec::new();
    r.push(vec![na, nb, c]);
    r.push(vec![a, b, c]);
    r.push(vec![na, b, nc]);
    r.push(vec![a, nb, nc]);
    r
}

/// The four clauses of `xor_def_clauses` hold under an assignment exactly
/// when the variable of `c` takes, as `c`, the value of "`a` agrees with
/// `b`".
pub proof fn lemma_xor_def(a: Lit, b: Lit, c: Lit, sigma: spec_fn(Var) -> bool)
    ensures
        (sat_by(sigma, seq![a.negated(), b.negated(), c]) && sat_by(sigma, seq![a, b, c])
            && sat_by(sigma, seq![a.negated(), b, c.negated()]) && sat_by(sigma, seq![a, b.negated(), c.negated()]))
            <==> (lit_holds(sigma, c) == (lit_holds(sigma, a) == lit_holds(sigma, b))),
{
    lemma_negated(a);
    lemma_negated(b);
    lemma_negated(c);
    let c0 = seq![a.negated(), b.negated(), c];
    let c1 = seq![a, b, c];
    let c2 = seq![a.negated(), b, c.negated()];
    let c3 = seq![a, b.negated(), c.negated()];
    let ha = lit_holds(sigma, a);
    let hb = lit_holds(sigma, b);
    let hc = lit_holds(sigma, c);
    assert(lit_holds(sigma, a.negated()) == !ha);
    assert(lit_holds(sigma, b.negated()) == !hb);
    assert(lit_holds(sigma, c.negated()) == !hc);
    assert(sat_by(sigma, c0) == (!ha || !hb || hc)) by {
        if !ha || !hb || hc {
            if !ha { assert(lit_holds(sigma, c0[0])); } else if !hb { assert(lit_holds(sigma, c0[1])); } else { assert(lit_holds(sigma, c0[2])); }
        }
    }
    assert(sat_by(sigma, c1) == (ha || hb || hc)) by {
        if ha || hb || hc {
            if ha { assert(lit_holds(sigma, c1[0])); } else if hb { assert(lit_holds(sigma, c1[1])); } else { assert(lit_holds(sigma, c1[2])); }
        }
    }
    assert(sat_by(sigma, c2) == (!ha || hb || !hc)) by {
        if !ha || hb || !hc {
            if !ha { assert(lit_holds(sigma, c2[0])); } else if hb { assert(lit_holds(sigma, c2[1])); } else { assert(lit_holds(sigma, c2[2])); }
        }
    }
    assert(sat_by(sigma, c3) == (ha || !hb || !hc)) by {
        if ha || !hb || !hc {
            if ha { assert(lit_holds(sigma, c3[0])); } else if !hb { assert(lit_holds(sigma, c3[1])); } else { assert(lit_holds(sigma, c3[2])); }
        }
    }
}

/// Some literal of `b` is over the variable of `x`.
pub open spec fn var_in(b: Seq<Lit>, x: Lit) -> bool {
    exists|j: int| 0 <= j < b.len() && (#[trigger] b[j]).var() == x.var()
}

/// Every literal of `a` is over a variable of `b`.
pub open spec fn vars_within(a: Seq<Lit>, b: Seq<Lit>) -> bool {
    forall|k: int| 0 <= k < a.len() ==> #[trigger] var_in(b, a[k])
}

/// `l` is a candidate of the second XOR generalization of `lemma`: some
/// lemma of the frame, over variables of `lemma` alone, holds its negation.
pub open spec fn xor_candidate(frame: Seq<FrameLemma>, lemma: Seq<Lit>, l: Lit) -> bool {
    exists|m: int| 0 <= m < frame.len() && vars_within(lits_of(#[trigger] frame[m]), lemma) && lits_of(frame[m]).contains(l.negated())
}

/// Whether some literal of `b` is over the variable of `l`.
fn has_var(b: &Vec<Lit>, l: Lit) -> (r: bool)
    ensures
        r == var_in(b@, l),
{
    let mut j: usize = 0;
    while j < b.len()
        invariant
            0 <= j <= b@.len(),
            forall|j2: int| 0 <= j2 < j ==> (#[trigger] b@[j2]).var() != l.var(),
        decreases b@.len() - j,
    {
        if b[j].var_of().0 == l.var_of().0 {
            return true;
        }
        j = j + 1;
    }
    false
}

/// Whether every literal of `a` is over a variable of `b`.
fn all_vars_within(a: &Vec<Lit>, b: &Vec<Lit>) -> (r: bool)
    ensures
        r == vars_within(a@, b@),
{
    let mut k: usize = 0;
    while k < a.len()
        invariant
            0 <= k <= a@.len(),
            forall|k2: int| 0 <= k2 < k ==> #[trigger] var_in(b@, a@[k2]),
        decreases a@.len() - k,
    {
        if !has_var(b, a[k]) {
            return false;
        }
        k = k + 1;
    }
    true
}

/// For each literal of `lemma`, whether it is a candidate of the second
/// XOR generalization against the lemmas of `frame`.
pub fn xor_candidates(frame: &Vec<FrameLemma>, lemma: &Vec<Lit>) -> (r: Vec<bool>)
    ensures
        r@.len() == lemma@.len(),
        forall|i: int| 0 <= i < lemma@.len() ==> #[trigger] r@[i] == xor_candidate(frame@, lemma@, lemma@[i]),
{
    let mut within: Vec<bool> = Vec::new();
    let mut m: usize = 0;
    while m < frame.len()
        invariant
            0 <= m <= frame@.len(),
            within@.len() == m,
            forall|m2: int| 0 <= m2 < m ==> #[trigger] within@[m2] == vars_within(lits_of(frame@[m2]), lemma@),
        decreases frame@.len() - m,
    {
        within.push(all_vars_within(&frame[m].lemma.cube, lemma));
        m = m + 1;
    }
    let mut r: Vec<bool> = Vec::new();
    let mut i: usize = 0;
    while i < lemma.len()
        invariant
            0 <= i <= lemma@.len(),
            within@.len() == frame@.len(),
            forall|m2: int| 0 <= m2 < frame@.len() ==> #[trigger] within@[m2] == vars_within(lits_of(frame@[m2]), lemma@),
            r@.len() == i,
            forall|i2: int| 0 <= i2 < i ==> #[trigger] r@[i2] == xor_candidate(frame@, lemma@, lemma@[i2]),
        decreases lemma@.len() - i,
    {
        let nl = lemma[i].not();
        let mut found = false;
        let mut m: usize = 0;
        while m < frame.len()
            invariant
                0 <= m <= frame@.len(),
                0 <= i < lemma@.len(),
                nl == lemma@[i as int].negated(),
                within@.len() == frame@.len(),
                forall|m2: int| 0 <= m2 < frame@.len() ==> #[trigger] within@[m2] == vars_within(lits_of(frame@[m2]), lemma@),
                found == exists|m2: int| 0 <= m2 < m && vars_within(lits_of(#[trigger] frame@[m2]), lemma@) && lits_of(frame@[m2]).contains(nl),
            decreases frame@.len() - m,
        {
            if within[m] && contains_lit(&frame[m].lemma.cube, nl) {
                found = true;
            }
            proof {
                if found {
                    if !(exists|m2: int| 0 <= m2 < m && vars_within(lits_of(#[trigger] frame@[m2]), lemma@) && lits_of(frame@[m2]).contains(nl)) {
                        assert(vars_within(lits_of(frame@[m as int]), lemma@) && lits_of(frame@[m as int]).contains(nl));
                    } else {
                        let m2 = choose|m2: int| 0 <= m2 < m && vars_within(lits_of(#[trigger] frame@[m2]), lemma@) && lits_of(frame@[m2]).contains(nl);
                        assert(0 <= m2 < m + 1);
                    }
                } else {
                    assert forall|m2: int| 0 <= m2 < m + 1 implies !(vars_within(lits_of(#[trigger] frame@[m2]), lemma@) && lits_of(frame@[m2]).contains(nl)) by {
                        if m2 < m {
                            if vars_within(lits_of(frame@[m2]), lemma@) && lits_of(frame@[m2]).contains(nl) {
                                assert(exists|m3: int| 0 <= m3 < m && vars_within(lits_of(#[trigger] frame@[m3]), lemma@) && lits_of(frame@[m3]).contains(nl));
                            }
                        }
                    }
                }
            }
            m = m + 1;
        }
        r.push(found);
        i = i + 1;
    }
    r
}

/// `l` as it is valued: itself when `v`, its negation otherwise.
pub open spec fn valued(l: Lit, v: bool) -> Lit {
    if v {
        l
    } else {
        l.negated()
    }
}

/// The cut of the first `i` literals of `cube` in a round of `down`, with
/// `vals` the solver's values of the literals and `flips` whether each one
/// could be unassigned: a kept literal stays when true and stops the round
/// otherwise; another one stays when true and not unassigned.
pub open spec fn down_cut(cube: Seq<Lit>, keep: Seq<Lit>, vals: Seq<Option<bool>>, flips: Seq<bool>, i: int) -> (Seq<Lit>, bool)
    decreases i,
{
    if i <= 0 {
        (Seq::empty(), false)
    } else {
        let (c, stop) = down_cut(cube, keep, vals, flips, i - 1);
        let l = cube[i - 1];
        if stop {
            (c, true)
        } else if keep.contains(l) {
            if vals[i - 1] == Some(true) {
                (c.push(l), false)
            } else {
                (c, true)
            }
        } else if vals[i - 1] == Some(true) && !flips[i - 1] {
            (c.push(l), false)
        } else {
            (c, false)
        }
    }
}

/// The state part `s` of the counterexample pair recorded for the first `j`
/// literals of `full`: each assigned one that could not be unassigned, as
/// valued.
pub open spec fn cex_state(full: Seq<Lit>, vals: Seq<Option<bool>>, flips: Seq<bool>, j: int) -> Seq<Lit>
    decreases j,
{
    if j <= 0 {
        Seq::empty()
    } else {
        let r = cex_state(full, vals, flips, j - 1);
        if vals[j - 1] is Some && !flips[j - 1] {
            r.push(valued(full[j - 1], vals[j - 1]->0))
        } else {
            r
        }
    }
}

/// The successor part `t` of the counterexample pair for the first `j`
/// literals of `full`: each one whose next-state literal is assigned, valued
/// as that literal.
pub open spec fn cex_next(full: Seq<Lit>, next_vals: Seq<Option<bool>>, j: int) -> Seq<Lit>
    decreases j,
{
    if j <= 0 {
        Seq::empty()
    } else {
        let r = cex_next(full, next_vals, j - 1);
        if next_vals[j - 1] is Some {
            r.push(valued(full[j - 1], next_vals[j - 1]->0))
        } else {
            r
        }
    }
}

/// What a round of `down` keeps of the cube: each literal it keeps is a
/// literal of the cube that the solver makes true and that is to be kept
/// or cannot be unassigned; the round stops only on a literal to be kept
/// that is not true; and when it does not stop, it keeps every literal to
/// be kept, all of them true, and every true literal that cannot be
/// unassigned.
#[verifier::rlimit(50)]
#[verifier::spinoff_prover]
pub proof fn lemma_down_cut_members(cube: Seq<Lit>, keep: Seq<Lit>, vals: Seq<Option<bool>>, flips: Seq<bool>, i: int)
    requires
        0 <= i <= cube.len(),
        vals.len() == cube.len(),
        flips.len() == cube.len(),
    ensures
        forall|x: Lit| #[trigger] down_cut(cube, keep, vals, flips, i).0.contains(x) ==> exists|k: int|
            0 <= k < i && cube[k] == x && vals[k] == Some(true) && (keep.contains(x) || !flips[k]),
        down_cut(cube, keep, vals, flips, i).1 ==> exists|k: int| 0 <= k < i && keep.contains(cube[k]) && vals[k] != Some(true),
        !down_cut(cube, keep, vals, flips, i).1 ==> forall|k: int| 0 <= k < i && #[trigger] keep.contains(cube[k]) ==> vals[k] == Some(true),
        !down_cut(cube, keep, vals, flips, i).1 ==> forall|k: int|
            0 <= k < i && vals[k] == Some(true) && (keep.contains(cube[k]) || !flips[k])
                ==> down_cut(cube, keep, vals, flips, i).0.contains(#[trigger] cube[k]),
    decreases i,
{
    if i > 0 {
        lemma_down_cut_members(cube, keep, vals, flips, i - 1);
        let (c0, st0) = down_cut(cube, keep, vals, flips, i - 1);
        let (c, st) = down_cut(cube, keep, vals, flips, i);
        let l = cube[i - 1];
        assert forall|x: Lit| #[trigger] c.contains(x) implies exists|k: int|
            0 <= k < i && cube[k] == x && vals[k] == Some(true) && (keep.contains(x) || !flips[k]) by {
            let m = choose|m: int| 0 <= m < c.len() && c[m] == x;
            if m < c0.len() {
                assert(c[m] == c0[m]);
                assert(c0.contains(x));
            } else {
                assert(x == l);
                assert(cube[i - 1] == x);
            }
        }
        if !st {
            assert forall|k: int| 0 <= k < i && vals[k] == Some(true) && (keep.contains(cube[k]) || !flips[k])
                implies c.contains(#[trigger] cube[k]) by {
                if k < i - 1 {
                    assert(c0.contains(cube[k]));
                    let m = choose|m: int| 0 <= m < c0.len() && c0[m] == cube[k];
                    assert(c[m] == cube[k]);
                } else {
                    assert(c[c.len() - 1] == cube[k]);
                }
            }
        }
    }
}

/// Each literal of the recorded state comes from a literal of `full` that
/// has a value and cannot be unassigned, taken as that value makes it
/// hold: itself when true, its negation when false; and each such literal
/// is recorded.
#[verifier::rlimit(50)]
#[verifier::spinoff_prover]
pub proof fn lemma_cex_state_members(full: Seq<Lit>, vals: Seq<Option<bool>>, flips: Seq<bool>, j: int)
    requires
        0 <= j <= full.len(),
        vals.len() == full.len(),
        flips.len() == full.len(),
    ensures
        forall|x: Lit| #[trigger] cex_state(full, vals, flips, j).contains(x) ==> exists|k: int|
            0 <= k < j && vals[k] is Some && !flips[k] && (vals[k] == Some(true) ==> x == full[k])
                && (vals[k] == Some(false) ==> x == full[k].negated()),
        forall|k: int| 0 <= k < j && vals[k] == Some(true) && !flips[k] ==> cex_state(full, vals, flips, j).contains(#[trigger] full[k]),
        forall|k: int| 0 <= k < j && vals[k] == Some(false) && !flips[k] ==> cex_state(full, vals, flips, j).contains((#[trigger] full[k]).negated()),
    decreases j,
{
    if j > 0 {
        lemma_cex_state_members(full, vals, flips, j - 1);
        let r0 = cex_state(full, vals, flips, j - 1);
        let r = cex_state(full, vals, flips, j);
        assert forall|x: Lit| #[trigger] r.contains(x) implies exists|k: int|
            0 <= k < j && vals[k] is Some && !flips[k] && (vals[k] == Some(true) ==> x == full[k])
                && (vals[k] == Some(false) ==> x == full[k].negated()) by {
            let m = choose|m: int| 0 <= m < r.len() && r[m] == x;
            if m < r0.len() {
                assert(r[m] == r0[m]);
                assert(r0.contains(x));
            } else {
                assert(vals[j - 1] is Some && !flips[j - 1]);
            }
        }
        assert forall|k: int| 0 <= k < j && vals[k] is Some && !flips[k] implies r.contains(valued(full[k], vals[k]->0)) by {
            if k < j - 1 {
                let y = valued(full[k], vals[k]->0);
                if vals[k] == Some(true) {
                    assert(r0.contains(full[k]));
                } else {
                    assert(r0.contains(full[k].negated()));
                }
                let m = choose|m: int| 0 <= m < r0.len() && r0[m] == y;
                assert(r[m] == y);
            } else {
                assert(r[r.len() - 1] == valued(full[k], vals[k]->0));
            }
        }
        assert forall|k: int| 0 <= k < j && vals[k] == Some(true) && !flips[k] implies r.contains(#[trigger] full[k]) by {
            assert(r.contains(valued(full[k], vals[k]->0)));
        }
        assert forall|k: int| 0 <= k < j && vals[k] == Some(false) && !flips[k] implies r.contains((#[trigger] full[k]).negated()) by {
            assert(r.contains(valued(full[k], vals[k]->0)));
        }
    }
}

/// Each literal of the recorded successor comes from a literal of `full`
/// whose next-state literal has a value, taken as that value makes it
/// hold; and each such literal is recorded.
#[verifier::rlimit(50)]
#[verifier::spinoff_prover]
pub proof fn lemma_cex_next_members(full: Seq<Lit>, next_vals: Seq<Option<bool>>, j: int)
    requires
        0 <= j <= full.len(),
        next_vals.len() == full.len(),
    ensures
        forall|x: Lit| #[trigger] cex_next(full, next_vals, j).contains(x) ==> exists|k: int|
            0 <= k < j && next_vals[k] is Some && (next_vals[k] == Some(true) ==> x == full[k])
                && (next_vals[k] == Some(false) ==> x == full[k].negated()),
        forall|k: int| 0 <= k < j && next_vals[k] == Some(true) ==> cex_next(full, next_vals, j).contains(#[trigger] full[k]),
        forall|k: int| 0 <= k < j && next_vals[k] == Some(false) ==> cex_next(full, next_vals, j).contains((#[trigger] full[k]).negated()),
    decreases j,
{
    if j > 0 {
        lemma_cex_next_members(full, next_vals, j - 1);
        let r0 = cex_next(full, next_vals, j - 1);
        let r = cex_next(full, next_vals, j);
        assert forall|x: Lit| #[trigger] r.contains(x) implies exists|k: int|
            0 <= k < j && next_vals[k] is Some && (next_vals[k] == Some(true) ==> x == full[k])
                && (next_vals[k] == Some(false) ==> x == full[k].negated()) by {
            let m = choose|m: int| 0 <= m < r.len() && r[m] == x;
            if m < r0.len() {
                assert(r[m] == r0[m]);
                assert(r0.contains(x));
            }
        }
        assert forall|k: int| 0 <= k < j && next_vals[k] is Some implies r.contains(valued(full[k], next_vals[k]->0)) by {
            if k < j - 1 {
                let y = valued(full[k], next_vals[k]->0);
                if next_vals[k] == Some(true) {
                    assert(r0.contains(full[k]));
                } else {
                    assert(r0.contains(full[k].negated()));
                }
                let m = choose|m: int| 0 <= m < r0.len() && r0[m] == y;
                assert(r[m] == y);
            } else {
                assert(r[r.len() - 1] == valued(full[k], next_vals[k]->0));
            }
        }
        assert forall|k: int| 0 <= k < j && next_vals[k] == Some(true) implies r.contains(#[trigger] full[k]) by {
            assert(r.contains(valued(full[k], next_vals[k]->0)));
        }
        assert forall|k: int| 0 <= k < j && next_vals[k] == Some(false) implies r.contains((#[trigger] full[k]).negated()) by {
            assert(r.contains(valued(full[k], next_vals[k]->0)));
        }
    }
}

/// One round of `down` after the solver found a counterexample to
/// induction: the cube cut to the literals that stay (see `down_cut`),
/// whether a kept literal was lost, and the recorded pair `(s, t)` as
/// lemmas of the literals that `cex_state` and `cex_next` give. `vals` and `flips` are the
/// solver's values of the cube's literals and whether each could be
/// unassigned; `full_vals`, `full_flips` and `next_vals` those of `full` and
/// of its next-state literals.
pub fn down_step(cube: &Vec<Lit>, keep: &Vec<Lit>, vals: &Vec<Option<bool>>, flips: &Vec<bool>, full: &Vec<Lit>,
    full_vals: &Vec<Option<bool>>, full_flips: &Vec<bool>, next_vals: &Vec<Option<bool>>) -> (r: (Vec<Lit>, bool, (Lemma, Lemma)))
    requires
        vals@.len() == cube@.len(),
        flips@.len() == cube@.len(),
        full_vals@.len() == full@.len(),
        full_flips@.len() == full@.len(),
        next_vals@.len() == full@.len(),
    ensures
        (r.0@, r.1) == down_cut(cube@, keep@, vals@, flips@, cube@.len() as int),
        r.2.0.wf(),
        r.2.0.lits().to_multiset() == cex_state(full@, full_vals@, full_flips@, full@.len() as int).to_multiset(),
        r.2.1.wf(),
        r.2.1.lits().to_multiset() == cex_next(full@, next_vals@, full@.len() as int).to_multiset(),
        forall|x: Lit| #[trigger] r.0@.contains(x) ==> exists|k: int|
            0 <= k < cube@.len() && cube@[k] == x && vals@[k] == Some(true) && (keep@.contains(x) || !flips@[k]),
        forall|x: Lit| #[trigger] r.2.0.lits().contains(x) ==> exists|k: int|
            0 <= k < full@.len() && full_vals@[k] is Some && !full_flips@[k]
                && (full_vals@[k] == Some(true) ==> x == full@[k]) && (full_vals@[k] == Some(false) ==> x == full@[k].negated()),
{
    let mut c: Vec<Lit> = Vec::new();
    let mut stop = false;
    let mut i: usize = 0;
    while i < cube.len()
        invariant
            0 <= i <= cube@.len(),
            vals@.len() == cube@.len(),
            flips@.len() == cube@.len(),
            (c@, stop) == down_cut(cube@, keep@, vals@, flips@, i as int),
        decreases cube@.len() - i,
    {
        let l = cube[i];
        if !stop {
            if contains_lit(keep, l) {
                if vals[i] == Some(true) {
                    c.push(l);
                } else {
                    stop = true;
                }
            } else if vals[i] == Some(true) && !flips[i] {
                c.push(l);
            }
        }
        i = i + 1;
    }
    let mut st: Vec<Lit> = Vec::new();
    let mut nt: Vec<Lit> = Vec::new();
    let mut j: usize = 0;
    while j < full.len()
        invariant
            0 <= j <= full@.len(),
            full_vals@.len() == full@.len(),
            full_flips@.len() == full@.len(),
            next_vals@.len() == full@.len(),
            st@ == cex_state(full@, full_vals@, full_flips@, j as int),
            nt@ == cex_next(full@, next_vals@, j as int),
        decreases full@.len() - j,
    {
        let l = full[j];
        match full_vals[j] {
            Some(v) => {
                if !full_flips[j] {
                    st.push(l.not_if(!v));
                }
            },
            None => {},
        }
        match next_vals[j] {
            Some(v) => {
                nt.push(l.not_if(!v));
            },
            None => {},
        }
        j = j + 1;
    }
    let ls = Lemma::new(st);
    let lt = Lemma::new(nt);
    proof {
        broadcast use vstd::seq_lib::group_to_multiset_ensures;
        lemma_down_cut_members(cube@, keep@, vals@, flips@, cube@.len() as int);
        lemma_cex_state_members(full@, full_vals@, full_flips@, full@.len() as int);
        assert forall|x: Lit| #[trigger] ls.lits().contains(x) implies
            cex_state(full@, full_vals@, full_flips@, full@.len() as int).contains(x) by {
            assert(ls.lits().to_multiset().count(x) > 0);
        }
    }
    (c, stop, (ls, lt))
}

/// The latch part of a predecessor for the first `i` latches: each latch in
/// the lifting domain that the solver assigns and that is in the blocked
/// cube or could not be unassigned, as valued.
pub open spec fn pred_latch_part(latchs: Seq<Var>, in_dom: Seq<bool>, vals: Seq<Option<bool>>, in_cls: Seq<bool>,
    flips: Seq<bool>, i: int) -> Seq<Lit>
    decreases i,
{
    if i <= 0 {
        Seq::empty()
    } else {
        let r = pred_latch_part(latchs, in_dom, vals, in_cls, flips, i - 1);
        if in_dom[i - 1] && vals[i - 1] is Some && (in_cls[i - 1] || !flips[i - 1]) {
            r.push(valued(latchs[i - 1].spec_lit(), vals[i - 1]->0))
        } else {
            r
        }
    }
}

/// Each literal of the latch part is of a latch in the lifting domain that
/// the solver assigns and that is in the blocked cube or cannot be
/// unassigned, and holds under the solver's value: positive exactly when
/// the latch is true, in or out of the blocked cube. Each such latch has
/// its literal in the part.
#[verifier::rlimit(50)]
#[verifier::spinoff_prover]
pub proof fn lemma_pred_latch_members(latchs: Seq<Var>, in_dom: Seq<bool>, vals: Seq<Option<bool>>, in_cls: Seq<bool>,
    flips: Seq<bool>, i: int)
    requires
        0 <= i <= latchs.len(),
        in_dom.len() == latchs.len(),
        vals.len() == latchs.len(),
        in_cls.len() == latchs.len(),
        flips.len() == latchs.len(),
        forall|k: int| 0 <= k < latchs.len() ==> (#[trigger] latchs[k]).0 <= MAX_VAR,
    ensures
        forall|x: Lit| #[trigger] pred_latch_part(latchs, in_dom, vals, in_cls, flips, i).contains(x) ==> exists|k: int|
            0 <= k < i && in_dom[k] && vals[k] is Some && (in_cls[k] || !flips[k]) && x.var() == latchs[k]
                && x.polarity() == vals[k]->0,
        forall|k: int| 0 <= k < i && in_dom[k] && vals[k] is Some && (in_cls[k] || !flips[k]) ==> exists|x: Lit|
            pred_latch_part(latchs, in_dom, vals, in_cls, flips, i).contains(x) && x.var() == #[trigger] latchs[k]
                && x.polarity() == vals[k]->0,
    decreases i,
{
    if i > 0 {
        lemma_pred_latch_members(latchs, in_dom, vals, in_cls, flips, i - 1);
        let r0 = pred_latch_part(latchs, in_dom, vals, in_cls, flips, i - 1);
        let r = pred_latch_part(latchs, in_dom, vals, in_cls, flips, i);
        let l = latchs[i - 1].spec_lit();
        assert(latchs[i - 1].0 <= MAX_VAR);
        assert(l.var() == latchs[i - 1] && l.polarity());
        lemma_negated(l);
        assert forall|x: Lit| #[trigger] r.contains(x) implies exists|k: int|
            0 <= k < i && in_dom[k] && vals[k] is Some && (in_cls[k] || !flips[k]) && x.var() == latchs[k]
                && x.polarity() == vals[k]->0 by {
            let m = choose|m: int| 0 <= m < r.len() && r[m] == x;
            if m < r0.len() {
                assert(r[m] == r0[m]);
                assert(r0.contains(x));
            } else {
                assert(x == valued(l, vals[i - 1]->0));
            }
        }
        assert forall|k: int| 0 <= k < i && in_dom[k] && vals[k] is Some && (in_cls[k] || !flips[k]) implies exists|x: Lit|
            r.contains(x) && x.var() == #[trigger] latchs[k] && x.polarity() == vals[k]->0 by {
            if k < i - 1 {
                let x = choose|x: Lit| r0.contains(x) && x.var() == latchs[k] && x.polarity() == vals[k]->0;
                let m = choose|m: int| 0 <= m < r0.len() && r0[m] == x;
                assert(r[m] == x);
                assert(r.contains(x));
            } else {
                let x = valued(l, vals[i - 1]->0);
                assert(r[r.len() - 1] == x);
                assert(r.contains(x));
            }
        }
    }
}

/// The latch part of a predecessor, from what the lifting solver says of
/// each latch: whether it is in the domain, its value, whether it is in the
/// blocked cube, and whether it could be unassigned.
pub fn pred_latches(latchs: &Vec<Var>, in_dom: &Vec<bool>, vals: &Vec<Option<bool>>, in_cls: &Vec<bool>,
    flips: &Vec<bool>) -> (r: Vec<Lit>)
    requires
        in_dom@.len() == latchs@.len(),
        vals@.len() == latchs@.len(),
        in_cls@.len() == latchs@.len(),
        flips@.len() == latchs@.len(),
        forall|k: int| 0 <= k < latchs@.len() ==> (#[trigger] latchs@[k]).0 <= MAX_VAR,
    ensures
        r@ == pred_latch_part(latchs@, in_dom@, vals@, in_cls@, flips@, latchs@.len() as int),
        forall|x: Lit| #[trigger] r@.contains(x) ==> exists|k: int|
            0 <= k < latchs@.len() && in_dom@[k] && vals@[k] is Some && (in_cls@[k] || !flips@[k])
                && x.var() == latchs@[k] && x.polarity() == vals@[k]->0,
{
    let mut r: Vec<Lit> = Vec::new();
    let mut i: usize = 0;
    while i < latchs.len()
        invariant
            0 <= i <= latchs@.len(),
            in_dom@.len() == latchs@.len(),
            vals@.len() == latchs@.len(),
            in_cls@.len() == latchs@.len(),
            flips@.len() == latchs@.len(),
            forall|k: int| 0 <= k < latchs@.len() ==> (#[trigger] latchs@[k]).0 <= MAX_VAR,
            r@ == pred_latch_part(latchs@, in_dom@, vals@, in_cls@, flips@, i as int),
        decreases latchs@.len() - i,
    {
        if in_dom[i] {
            match vals[i] {
                Some(v) => {
                    if in_cls[i] || !flips[i] {
                        let l = latchs[i].lit();
                        proof {
                            assert(latchs@[i as int].0 <= MAX_VAR);
                        }
                        r.push(l.not_if(!v));
                    }
                },
                None => {},
            }
        }
        i = i + 1;
    }
    proof {
        lemma_pred_latch_members(latchs@, in_dom@, vals@, in_cls@, flips@, latchs@.len() as int);
    }
    r
}

} // verus!
