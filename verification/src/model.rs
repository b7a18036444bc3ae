//! The transition system that IC3 works on: its latches and their next
//! states, the initial values, the bad states, the clauses of the
//! transition relation and, for each variable, the variables it depends on.
use crate::lit::{lemma_lit_determined, lemma_negated, Lit, Var, MAX_VAR};
use vstd::prelude::*;

verus! {

/// A transition system in clauses.
pub struct Model {
    pub inputs: Vec<Var>,
    pub latchs: Vec<Var>,
    pub primes: Vec<Lit>,
    pub init: Vec<Lit>,
    pub bad: Vec<Lit>,
    /// The initial value of each variable that has one, by variable index.
    pub init_map: Vec<Option<bool>>,
    pub constraints: Vec<Lit>,
    pub trans: Vec<Vec<Lit>>,
    pub num_var: usize,
    /// The next-state literal of each latch literal, by literal code.
    pub next_map: Vec<Lit>,
    pub dependence: Vec<Vec<Var>>,
}

/// The initial value of `v` in `init_map`, if it has one.
pub open spec fn init_of(init_map: Seq<Option<bool>>, v: Var) -> Option<bool> {
    if v.0 < init_map.len() {
        init_map[v.0 as int]
    } else {
        None
    }
}

/// The variables that occur in the clauses `cnf`.
pub open spec fn cnf_vars(cnf: Seq<Vec<Lit>>) -> Set<Var> {
    Set::new(|v: Var| exists|i: int, j: int| 0 <= i < cnf.len() && 0 <= j < cnf[i]@.len() && (#[trigger] cnf[i]@[j]).var() == v)
}

/// `rank` witnesses that `deps` has no cycle: every dependency is a
/// variable of the map, of smaller rank than the variable that has it.
pub open spec fn ranked(deps: Seq<Vec<Var>>, rank: spec_fn(int) -> nat) -> bool {
    forall|v: int, k: int|
        0 <= v < deps.len() && 0 <= k < deps[v]@.len() ==> (#[trigger] deps[v]@[k]).0 < deps.len()
            && rank(deps[v]@[k].0 as int) < rank(v)
}

/// The dependencies form no cycle, and each names a variable of the map.
pub open spec fn acyclic(deps: Seq<Vec<Var>>) -> bool {
    exists|rank: spec_fn(int) -> nat| ranked(deps, rank)
}

/// A rank that witnesses `acyclic(deps)`, where there is one.
pub open spec fn dep_rank(deps: Seq<Vec<Var>>) -> spec_fn(int) -> nat {
    choose|rank: spec_fn(int) -> nat| ranked(deps, rank)
}

/// Whether `x` is reached from variable `v` through its first `k`
/// dependencies: a dependency in `dom` is reached itself; one outside
/// `dom` is passed through to what it reaches. The step down to a
/// dependency of smaller rank bounds the recursion; on acyclic
/// dependencies every step takes it.
pub open spec fn reaches(deps: Seq<Vec<Var>>, dom: Set<Var>, v: int, k: int, x: Var) -> bool
    decreases dep_rank(deps)(v), k,
{
    if v < 0 || v >= deps.len() || k <= 0 || k > deps[v]@.len() {
        false
    } else {
        let d = deps[v]@[k - 1];
        ||| reaches(deps, dom, v, k - 1, x)
        ||| dom.contains(d) && d == x
        ||| !dom.contains(d) && 0 <= d.0 < deps.len() && dep_rank(deps)(d.0 as int) < dep_rank(deps)(v)
            && reaches(deps, dom, d.0 as int, deps[d.0 as int]@.len() as int, x)
    }
}

/// The variables that `v` depends on in `dom`, through variables outside
/// it.
pub open spec fn reached(deps: Seq<Vec<Var>>, dom: Set<Var>, v: int) -> Set<Var> {
    Set::new(|x: Var| reaches(deps, dom, v, deps[v]@.len() as int, x))
}

/// The sequence is strictly increasing by index.
pub open spec fn strictly_sorted(s: Seq<Var>) -> bool {
    forall|i: int, j: int| 0 <= i < j < s.len() ==> s[i].0 < s[j].0
}

/// `row` is the compressed dependence list of `u`: what `u` reaches, in
/// increasing order.
pub open spec fn row_ok(deps: Seq<Vec<Var>>, dom: Set<Var>, row: Seq<Var>, u: int) -> bool {
    &&& strictly_sorted(row)
    &&& forall|x: Var| row.contains(x) <==> reached(deps, dom, u).contains(x)
}

/// Whether `v` occurs in the clauses `cnf`.
fn in_cnf(cnf: &Vec<Vec<Lit>>, v: Var) -> (b: bool)
    ensures
        b == cnf_vars(cnf@).contains(v),
{
    let mut i: usize = 0;
    while i < cnf.len()
        invariant
            0 <= i <= cnf@.len(),
            forall|i2: int, j: int| 0 <= i2 < i && 0 <= j < cnf@[i2]@.len() ==> (#[trigger] cnf@[i2]@[j]).var() != v,
        decreases cnf@.len() - i,
    {
        let mut j: usize = 0;
        while j < cnf[i].len()
            invariant
                0 <= i < cnf@.len(),
                0 <= j <= cnf@[i as int]@.len(),
                forall|i2: int, j2: int| 0 <= i2 < i && 0 <= j2 < cnf@[i2]@.len() ==> (#[trigger] cnf@[i2]@[j2]).var() != v,
                forall|j2: int| 0 <= j2 < j ==> (#[trigger] cnf@[i as int]@[j2]).var() != v,
            decreases cnf@[i as int]@.len() - j,
        {
            if cnf[i][j].var_of() == v {
                proof {
                    assert(cnf@[i as int]@[j as int].var() == v);
                }
                return true;
            }
            j = j + 1;
        }
        i = i + 1;
    }
    proof {
        if cnf_vars(cnf@).contains(v) {
            let (i2, j2) = choose|i2: int, j2: int| 0 <= i2 < cnf@.len() && 0 <= j2 < cnf@[i2]@.len() && (#[trigger] cnf@[i2]@[j2]).var() == v;
        }
    }
    false
}

/// Compresses the dependencies `deps` to the variables of `cnf`: each
/// variable that occurs in `cnf` depends afterwards on the variables of
/// `cnf` that it reached before through variables outside `cnf`, in
/// increasing order; every other variable depends on nothing.
#[verifier::rlimit(40)]
pub fn compress_deps(deps: Vec<Vec<Var>>, cnf: &Vec<Vec<Lit>>) -> (r: Vec<Vec<Var>>)
    requires
        acyclic(deps@),
        deps@.len() <= MAX_VAR,
    ensures
        r@.len() == deps@.len(),
        forall|v: int|
            0 <= v < deps@.len() ==> {
                &&& strictly_sorted(#[trigger] r@[v]@)
                &&& cnf_vars(cnf@).contains(Var(v as u32)) ==> forall|x: Var|
                    r@[v]@.contains(x) <==> reached(deps@, cnf_vars(cnf@), v).contains(x)
                &&& !cnf_vars(cnf@).contains(Var(v as u32)) ==> r@[v]@.len() == 0
            },
{
    let ghost dom = cnf_vars(cnf@);
    let n = deps.len();
    let mut in_dom: Vec<bool> = Vec::new();
    let mut out: Vec<Vec<Var>> = Vec::new();
    let mut done: Vec<bool> = Vec::new();
    let mut v: usize = 0;
    while v < n
        invariant
            0 <= v <= n,
            n == deps@.len(),
            n <= MAX_VAR,
            dom == cnf_vars(cnf@),
            in_dom@.len() == v,
            out@.len() == v,
            done@.len() == v,
            forall|u: int| 0 <= u < v ==> #[trigger] in_dom@[u] == dom.contains(Var(u as u32)),
            forall|u: int| 0 <= u < v ==> !#[trigger] done@[u],
        decreases n - v,
    {
        let b = in_cnf(cnf, Var(v as u32));
        in_dom.push(b);
        out.push(Vec::new());
        done.push(false);
        v = v + 1;
    }
    let mut v: usize = 0;
    while v < n
        invariant
            0 <= v <= n,
            n == deps@.len(),
            n <= MAX_VAR,
            acyclic(deps@),
            dom == cnf_vars(cnf@),
            in_dom@.len() == n,
            forall|u: int| 0 <= u < n ==> #[trigger] in_dom@[u] == dom.contains(Var(u as u32)),
            out@.len() == n,
            done@.len() == n,
            forall|u: int| 0 <= u < v ==> #[trigger] done@[u],
            forall|u: int| 0 <= u < n && #[trigger] done@[u] ==> row_ok(deps@, dom, out@[u]@, u),
        decreases n - v,
    {
        let ghost db = done@;
        compress_rec(&deps, &in_dom, &mut out, &mut done, v, Ghost(dom));
        proof {
            assert forall|u: int| 0 <= u < v + 1 implies #[trigger] done@[u] by {
                if u < v {
                    assert(db[u]);
                }
            }
        }
        v = v + 1;
    }
    proof {
        assert forall|u: int| 0 <= u < n implies row_ok(deps@, dom, out@[u]@, u) by {
            assert(done@[u]);
        }
    }
    let mut v: usize = 0;
    while v < n
        invariant
            0 <= v <= n,
            n == deps@.len(),
            in_dom@.len() == n,
            forall|u: int| 0 <= u < n ==> #[trigger] in_dom@[u] == dom.contains(Var(u as u32)),
            dom == cnf_vars(cnf@),
            out@.len() == n,
            forall|u: int|
                0 <= u < n ==> {
                    &&& strictly_sorted(#[trigger] out@[u]@)
                    &&& (u >= v || dom.contains(Var(u as u32))) ==> forall|x: Var|
                        out@[u]@.contains(x) <==> reached(deps@, dom, u).contains(x)
                    &&& u < v && !dom.contains(Var(u as u32)) ==> out@[u]@.len() == 0
                },
        decreases n - v,
    {
        if !in_dom[v] {
            let ghost ob = out@;
            out.set(v, Vec::new());
            proof {
                assert forall|u: int| 0 <= u < n && u != v implies #[trigger] out@[u] == ob[u] by {}
            }
        }
        v = v + 1;
    }
    out
}

/// Compresses the dependencies of `v` and, first, of each variable it
/// depends on, where `done` does not mark them compressed yet; each list
/// that `done` marks is the compressed one.
fn compress_rec(deps: &Vec<Vec<Var>>, in_dom: &Vec<bool>, out: &mut Vec<Vec<Var>>, done: &mut Vec<bool>, v: usize,
    Ghost(dom): Ghost<Set<Var>>)
    requires
        v < deps@.len(),
        deps@.len() <= MAX_VAR,
        acyclic(deps@),
        in_dom@.len() == deps@.len(),
        forall|u: int| 0 <= u < deps@.len() ==> #[trigger] in_dom@[u] == dom.contains(Var(u as u32)),
        old(out)@.len() == deps@.len(),
        old(done)@.len() == deps@.len(),
        forall|u: int| 0 <= u < deps@.len() && #[trigger] old(done)@[u] ==> row_ok(deps@, dom, old(out)@[u]@, u),
    ensures
        final(out)@.len() == deps@.len(),
        final(done)@.len() == deps@.len(),
        final(done)@[v as int],
        forall|u: int| 0 <= u < deps@.len() && #[trigger] old(done)@[u] ==> final(done)@[u],
        forall|u: int| 0 <= u < deps@.len() && #[trigger] final(done)@[u] ==> row_ok(deps@, dom, final(out)@[u]@, u),
    decreases dep_rank(deps@)(v as int),
{
    if done[v] {
        return;
    }
    let ghost rank = dep_rank(deps@);
    proof {
        assert(ranked(deps@, rank));
    }
    let n = deps.len();
    let dv = &deps[v];
    let mut k: usize = 0;
    while k < dv.len()
        invariant
            0 <= k <= dv@.len(),
            *dv == deps@[v as int],
            v < n,
            n == deps@.len(),
            n <= MAX_VAR,
            acyclic(deps@),
            rank == dep_rank(deps@),
            ranked(deps@, rank),
            in_dom@.len() == n,
            forall|u: int| 0 <= u < n ==> #[trigger] in_dom@[u] == dom.contains(Var(u as u32)),
            out@.len() == n,
            done@.len() == n,
            forall|u: int| 0 <= u < n && #[trigger] old(done)@[u] ==> done@[u],
            forall|u: int| 0 <= u < n && #[trigger] done@[u] ==> row_ok(deps@, dom, out@[u]@, u),
            forall|j: int| 0 <= j < k ==> done@[(#[trigger] deps@[v as int]@[j]).0 as int],
        decreases dv@.len() - k,
    {
        let d = dv[k];
        proof {
            assert(deps@[v as int]@[k as int] == d);
            assert(d.0 < n && rank(d.0 as int) < rank(v as int));
        }
        let ghost db = done@;
        compress_rec(deps, in_dom, out, done, d.0 as usize, Ghost(dom));
        proof {
            assert forall|j: int| 0 <= j < k + 1 implies done@[(#[trigger] deps@[v as int]@[j]).0 as int] by {
                let e = deps@[v as int]@[j];
                assert(e.0 < n);
                if j < k {
                    assert(db[e.0 as int]);
                }
            }
        }
        k = k + 1;
    }
    let row = compress_one(deps, in_dom, out, done, v, Ghost(dom));
    let ghost ob = out@;
    let ghost db = done@;
    out.set(v, row);
    done.set(v, true);
    proof {
        assert forall|u: int| 0 <= u < n && #[trigger] done@[u] implies row_ok(deps@, dom, out@[u]@, u) by {
            if u != v {
                assert(db[u]);
                assert(out@[u] == ob[u]);
            }
        }
    }
}

/// The compressed dependencies of `v`, from those of the smaller variables
/// in `out`: each dependency in the domain itself, each other one through
/// its compressed dependencies; without repetition, in increasing order.
fn compress_one(deps: &Vec<Vec<Var>>, in_dom: &Vec<bool>, out: &Vec<Vec<Var>>, done: &Vec<bool>, v: usize,
    Ghost(dom): Ghost<Set<Var>>) -> (row: Vec<Var>)
    requires
        v < deps@.len(),
        deps@.len() <= MAX_VAR,
        acyclic(deps@),
        in_dom@.len() == deps@.len(),
        forall|u: int| 0 <= u < deps@.len() ==> #[trigger] in_dom@[u] == dom.contains(Var(u as u32)),
        out@.len() == deps@.len(),
        done@.len() == deps@.len(),
        forall|u: int| 0 <= u < deps@.len() && #[trigger] done@[u] ==> row_ok(deps@, dom, out@[u]@, u),
        forall|j: int| 0 <= j < deps@[v as int]@.len() ==> done@[(#[trigger] deps@[v as int]@[j]).0 as int],
    ensures
        strictly_sorted(row@),
        forall|x: Var| row@.contains(x) <==> reached(deps@, dom, v as int).contains(x),
{
    let n = deps.len();
    let mut mark: Vec<bool> = Vec::new();
    let mut i: usize = 0;
    while i < n
        invariant
            0 <= i <= n,
            n == deps@.len(),
            mark@.len() == i,
            forall|u: int| 0 <= u < i ==> !#[trigger] mark@[u],
        decreases n - i,
    {
        mark.push(false);
        i = i + 1;
    }
    let dv = &deps[v];
    let mut k: usize = 0;
    while k < dv.len()
        invariant
            0 <= k <= dv@.len(),
            n == deps@.len(),
            n <= MAX_VAR,
            *dv == deps@[v as int],
            v < n,
            acyclic(deps@),
            ranked(deps@, dep_rank(deps@)),
            mark@.len() == n,
            in_dom@.len() == n,
            forall|u: int| 0 <= u < n ==> #[trigger] in_dom@[u] == dom.contains(Var(u as u32)),
            out@.len() == n,
            done@.len() == n,
            forall|u: int| 0 <= u < n && #[trigger] done@[u] ==> row_ok(deps@, dom, out@[u]@, u),
            forall|j: int| 0 <= j < deps@[v as int]@.len() ==> done@[(#[trigger] deps@[v as int]@[j]).0 as int],
            forall|u: int| 0 <= u < n ==> #[trigger] mark@[u] == reaches(deps@, dom, v as int, k as int, Var(u as u32)),
            forall|x: Var| reaches(deps@, dom, v as int, k as int, x) ==> x.0 < n,
        decreases dv@.len() - k,
    {
        let d = dv[k];
        proof {
            assert(deps@[v as int]@[k as int] == d);
            assert(d.0 < n);
            assert(done@[d.0 as int]);
            assert(row_ok(deps@, dom, out@[d.0 as int]@, d.0 as int));
        }
        if in_dom[d.0 as usize] {
            mark.set(d.0 as usize, true);
            proof {
                assert forall|u: int| 0 <= u < n implies #[trigger] mark@[u] == reaches(deps@, dom, v as int, k + 1, Var(u as u32)) by {
                    if u == d.0 {
                        assert(Var(u as u32) == d);
                    }
                }
                assert forall|x: Var| reaches(deps@, dom, v as int, k + 1, x) implies x.0 < n by {
                    lemma_reaches_step(deps@, dom, v as int, k as int, x);
                }
            }
        } else {
            let ghost rank = dep_rank(deps@);
            let od = &out[d.0 as usize];
            let mut m: usize = 0;
            while m < od.len()
                invariant
                    0 <= m <= od@.len(),
                    *od == out@[d.0 as int],
                    n == deps@.len(),
                    n <= MAX_VAR,
                    v < n,
                    d.0 < n,
                    d == deps@[v as int]@[k as int],
                    k < deps@[v as int]@.len(),
                    !dom.contains(d),
                    mark@.len() == n,
                    acyclic(deps@),
                    rank == dep_rank(deps@),
                    ranked(deps@, rank),
                    out@.len() == n,
                    forall|x: Var| od@.contains(x) <==> reached(deps@, dom, d.0 as int).contains(x),
                    forall|u: int| 0 <= u < n ==> #[trigger] mark@[u] == (reaches(deps@, dom, v as int, k as int, Var(u as u32))
                        || od@.subrange(0, m as int).contains(Var(u as u32))),
                decreases od@.len() - m,
            {
                let x = od[m];
                proof {
                    assert(od@.contains(x));
                    assert(reached(deps@, dom, d.0 as int).contains(x));
                    lemma_reaches_within(deps@, dom, d.0 as int, deps@[d.0 as int]@.len() as int, x);
                }
                let ghost mb = mark@;
                mark.set(x.0 as usize, true);
                proof {
                    assert(od@.subrange(0, m + 1) =~= od@.subrange(0, m as int).push(x));
                    assert forall|u: int| 0 <= u < n implies #[trigger] mark@[u] == (reaches(deps@, dom, v as int, k as int, Var(u as u32))
                        || od@.subrange(0, m + 1).contains(Var(u as u32))) by {
                        assert(mb[u] == (reaches(deps@, dom, v as int, k as int, Var(u as u32))
                            || od@.subrange(0, m as int).contains(Var(u as u32))));
                        if u == x.0 {
                            assert(Var(u as u32) == x);
                            assert(od@.subrange(0, m + 1)[m as int] == x);
                        }
                        if u != x.0 {
                            assert(mark@[u] == mb[u]);
                            assert(Var(u as u32) != x);
                            if od@.subrange(0, m as int).contains(Var(u as u32)) {
                                let i = choose|i: int| 0 <= i < m && #[trigger] od@.subrange(0, m as int)[i] == Var(u as u32);
                                assert(od@.subrange(0, m + 1)[i] == Var(u as u32));
                            }
                            if od@.subrange(0, m + 1).contains(Var(u as u32)) {
                                let i = choose|i: int| 0 <= i < m + 1 && #[trigger] od@.subrange(0, m + 1)[i] == Var(u as u32);
                                assert(i < m);
                                assert(od@.subrange(0, m as int)[i] == Var(u as u32));
                            }
                        }
                        if u == x.0 {
                            assert(Var(u as u32) == x);
                        }
                    }
                }
                m = m + 1;
            }
            proof {
                assert(od@.subrange(0, od@.len() as int) =~= od@);
                assert(rank(d.0 as int) < rank(v as int));
                assert forall|u: int| 0 <= u < n implies #[trigger] mark@[u] == reaches(deps@, dom, v as int, k + 1, Var(u as u32)) by {
                    assert(reached(deps@, dom, d.0 as int).contains(Var(u as u32)) == reaches(deps@, dom, d.0 as int, deps@[d.0 as int]@.len() as int, Var(u as u32)));
                    lemma_reaches_step(deps@, dom, v as int, k as int, Var(u as u32));
                }
                assert forall|x: Var| reaches(deps@, dom, v as int, k + 1, x) implies x.0 < n by {
                    lemma_reaches_step(deps@, dom, v as int, k as int, x);
                    if reaches(deps@, dom, d.0 as int, deps@[d.0 as int]@.len() as int, x) {
                        lemma_reaches_within(deps@, dom, d.0 as int, deps@[d.0 as int]@.len() as int, x);
                    }
                }
            }
        }
        k = k + 1;
    }
    let mut row: Vec<Var> = Vec::new();
    let mut u: usize = 0;
    while u < n
        invariant
            0 <= u <= n,
            n == deps@.len(),
            n <= MAX_VAR,
            mark@.len() == n,
            forall|w: int| 0 <= w < n ==> #[trigger] mark@[w] == reached(deps@, dom, v as int).contains(Var(w as u32)),
            strictly_sorted(row@),
            forall|i: int| 0 <= i < row@.len() ==> (#[trigger] row@[i]).0 < u,
            forall|x: Var| row@.contains(x) <==> (x.0 < u && reached(deps@, dom, v as int).contains(x)),
        decreases n - u,
    {
        if mark[u] {
            let ghost rb = row@;
            row.push(Var(u as u32));
            proof {
                assert forall|x: Var| row@.contains(x) <==> (x.0 < u + 1 && reached(deps@, dom, v as int).contains(x)) by {
                    if x.0 == u {
                        assert(x == Var(u as u32));
                        assert(row@[rb.len() as int] == x);
                    }
                    if row@.contains(x) && x.0 != u {
                        let i = choose|i: int| 0 <= i < row@.len() && row@[i] == x;
                        assert(i < rb.len());
                        assert(rb.contains(x));
                    }
                    if x.0 < u && reached(deps@, dom, v as int).contains(x) {
                        assert(rb.contains(x));
                        let i = choose|i: int| 0 <= i < rb.len() && rb[i] == x;
                        assert(row@[i] == x);
                    }
                }
            }
        } else {
            proof {
                assert forall|x: Var| row@.contains(x) <==> (x.0 < u + 1 && reached(deps@, dom, v as int).contains(x)) by {
                    if x.0 == u && reached(deps@, dom, v as int).contains(x) {
                        assert(x == Var(u as u32));
                    }
                    if row@.contains(x) {
                        let i = choose|i: int| 0 <= i < row@.len() && row@[i] == x;
                    }
                }
            }
        }
        u = u + 1;
    }
    proof {
        assert forall|x: Var| row@.contains(x) <==> reached(deps@, dom, v as int).contains(x) by {
            if reached(deps@, dom, v as int).contains(x) {
                lemma_reaches_within(deps@, dom, v as int, deps@[v as int]@.len() as int, x);
            }
        }
    }
    row
}

/// One step of `reaches`: the first `k + 1` dependencies of `v` reach what
/// the first `k` do, and what the next one does.
proof fn lemma_reaches_step(deps: Seq<Vec<Var>>, dom: Set<Var>, v: int, k: int, x: Var)
    requires
        0 <= v < deps.len(),
        0 <= k < deps[v]@.len(),
    ensures
        reaches(deps, dom, v, k + 1, x) == ({
            let d = deps[v]@[k];
            ||| reaches(deps, dom, v, k, x)
            ||| dom.contains(d) && d == x
            ||| !dom.contains(d) && 0 <= d.0 < deps.len() && dep_rank(deps)(d.0 as int) < dep_rank(deps)(v)
                && reaches(deps, dom, d.0 as int, deps[d.0 as int]@.len() as int, x)
        }),
{
}

/// What a variable reaches is a variable of the map.
proof fn lemma_reaches_within(deps: Seq<Vec<Var>>, dom: Set<Var>, v: int, k: int, x: Var)
    requires
        acyclic(deps),
        reaches(deps, dom, v, k, x),
    ensures
        x.0 < deps.len(),
    decreases dep_rank(deps)(v), k,
{
    assert(ranked(deps, dep_rank(deps)));
    let d = deps[v]@[k - 1];
    assert(d.0 < deps.len());
    if reaches(deps, dom, v, k - 1, x) {
        lemma_reaches_within(deps, dom, v, k - 1, x);
    } else if !dom.contains(d) && 0 <= d.0 < deps.len() && dep_rank(deps)(d.0 as int) < dep_rank(deps)(v)
        && reaches(deps, dom, d.0 as int, deps[d.0 as int]@.len() as int, x) {
        lemma_reaches_within(deps, dom, d.0 as int, deps[d.0 as int]@.len() as int, x);
    }
}


/// The initial value that the cube `init` gives `v`: the polarity of its
/// last literal of `v`, if it has one.
pub open spec fn init_value(init: Seq<Lit>, v: Var) -> Option<bool>
    decreases init.len(),
{
    if init.len() == 0 {
        None
    } else if init.last().var() == v {
        Some(init.last().polarity())
    } else {
        init_value(init.drop_last(), v)
    }
}

/// The next-state literal of `l` that the first `k` pairs of `latchs` and
/// `primes` give: from the last pair of its variable, the prime, negated
/// for a negative `l`.
pub open spec fn next_value(latchs: Seq<Var>, primes: Seq<Lit>, k: int, l: Lit) -> Option<Lit>
    decreases k,
{
    if k <= 0 || k > latchs.len() || k > primes.len() {
        None
    } else if latchs[k - 1] == l.var() {
        Some(
            if l.polarity() {
                primes[k - 1]
            } else {
                primes[k - 1].negated()
            },
        )
    } else {
        next_value(latchs, primes, k - 1, l)
    }
}

impl Model {
    /// The model of the given parts: the initial value of each variable
    /// from `init`, the next state of each latch literal from `latchs` and
    /// `primes` taken in pairs, and the dependencies compressed to the
    /// variables of `trans`.
    pub fn from_parts(
        inputs: Vec<Var>,
        latchs: Vec<Var>,
        primes: Vec<Lit>,
        init: Vec<Lit>,
        bad: Vec<Lit>,
        constraints: Vec<Lit>,
        trans: Vec<Vec<Lit>>,
        num_var: usize,
        dependence: Vec<Vec<Var>>,
    ) -> (m: Model)
        requires
            forall|i: int| 0 <= i < latchs@.len() ==> (#[trigger] latchs@[i]).0 < MAX_VAR,
            acyclic(dependence@),
            dependence@.len() <= MAX_VAR,
        ensures
            m.inputs == inputs,
            m.latchs == latchs,
            m.primes == primes,
            m.init == init,
            m.bad == bad,
            m.constraints == constraints,
            m.trans == trans,
            m.num_var == num_var,
            m.init_map@.len() <= MAX_VAR + 1,
            forall|v: Var| #[trigger] init_of(m.init_map@, v) == init_value(init@, v),
            forall|i: int|
                0 <= i < latchs@.len() && i < primes@.len() ==> 2 * (#[trigger] latchs@[i]).0 + 1 < m.next_map@.len(),
            forall|l: Lit|
                0 <= l.0 < m.next_map@.len() ==> #[trigger] m.next_map@[l.0 as int] == match next_value(
                    latchs@,
                    primes@,
                    if latchs@.len() < primes@.len() {
                        latchs@.len() as int
                    } else {
                        primes@.len() as int
                    },
                    l,
                ) {
                    Some(p) => p,
                    None => Lit(0),
                },
            m.dependence@.len() == dependence@.len(),
            forall|v: int|
                0 <= v < dependence@.len() ==> {
                    &&& strictly_sorted(#[trigger] m.dependence@[v]@)
                    &&& cnf_vars(trans@).contains(Var(v as u32)) ==> forall|x: Var|
                        m.dependence@[v]@.contains(x) <==> reached(dependence@, cnf_vars(trans@), v).contains(x)
                    &&& !cnf_vars(trans@).contains(Var(v as u32)) ==> m.dependence@[v]@.len() == 0
                },
    {
        let mut init_map: Vec<Option<bool>> = Vec::new();
        let mut i: usize = 0;
        while i < init.len()
            invariant
                0 <= i <= init@.len(),
                init_map@.len() <= MAX_VAR + 1,
                forall|v: Var| #[trigger] init_of(init_map@, v) == init_value(init@.subrange(0, i as int), v),
            decreases init@.len() - i,
        {
            let l = init[i];
            let v = l.var_of();
            let ghost mb = init_map@;
            while init_map.len() <= v.0 as usize
                invariant
                    v.0 <= MAX_VAR,
                    mb.len() <= init_map@.len() <= MAX_VAR + 1,
                    init_map@.len() <= mb.len() || init_map@.len() <= v.0 + 1,
                    forall|u: int| 0 <= u < mb.len() ==> #[trigger] init_map@[u] == mb[u],
                    forall|u: int| mb.len() <= u < init_map@.len() ==> #[trigger] init_map@[u] is None,
                decreases v.0 + 1 - init_map@.len(),
            {
                init_map.push(None);
            }
            let ghost mc = init_map@;
            init_map.set(v.0 as usize, Some(l.is_positive()));
            proof {
                let pre = init@.subrange(0, i as int);
                let post = init@.subrange(0, i + 1);
                assert(post.drop_last() =~= pre);
                assert forall|w: Var| #[trigger] init_of(init_map@, w) == init_value(post, w) by {
                    assert(init_of(mb, w) == init_value(pre, w));
                    if w != v {
                        if w.0 < mb.len() {
                            assert(init_map@[w.0 as int] == mb[w.0 as int]);
                        } else if w.0 < init_map@.len() {
                            assert(init_map@[w.0 as int] == mc[w.0 as int]);
                        }
                    }
                }
            }
            i = i + 1;
        }
        proof {
            assert(init@.subrange(0, init@.len() as int) =~= init@);
        }
        let n = if latchs.len() < primes.len() {
            latchs.len()
        } else {
            primes.len()
        };
        let mut next_map: Vec<Lit> = Vec::new();
        let mut k: usize = 0;
        while k < n
            invariant
                0 <= k <= n,
                n <= latchs@.len(),
                n <= primes@.len(),
                n == latchs@.len() || n == primes@.len(),
                forall|i: int| 0 <= i < latchs@.len() ==> (#[trigger] latchs@[i]).0 < MAX_VAR,
                next_map@.len() % 2 == 0,
                next_map@.len() <= 2 * MAX_VAR,
                forall|i: int| 0 <= i < k ==> 2 * (#[trigger] latchs@[i]).0 + 1 < next_map@.len(),
                forall|l: Lit|
                    0 <= l.0 < next_map@.len() ==> #[trigger] next_map@[l.0 as int] == match next_value(
                        latchs@,
                        primes@,
                        k as int,
                        l,
                    ) {
                        Some(p) => p,
                        None => Lit(0),
                    },
            decreases n - k,
        {
            let v = latchs[k];
            let p = primes[k];
            let ghost mb = next_map@;
            while next_map.len() <= 2 * v.0 as usize + 1
                invariant
                    v.0 < MAX_VAR,
                    next_map@.len() % 2 == 0,
                    mb.len() <= next_map@.len() <= 2 * MAX_VAR,
                    next_map@.len() <= mb.len() || next_map@.len() <= 2 * v.0 + 2,
                    forall|u: int| 0 <= u < mb.len() ==> #[trigger] next_map@[u] == mb[u],
                    forall|u: int| mb.len() <= u < next_map@.len() ==> #[trigger] next_map@[u] == Lit(0),
                decreases 2 * v.0 + 2 - next_map@.len(),
            {
                next_map.push(Lit(0));
                next_map.push(Lit(0));
            }
            let pos = v.lit();
            let neg = pos.not();
            let pn = p.not();
            let ghost mc = next_map@;
            next_map.set(pos.0 as usize, p);
            next_map.set(neg.0 as usize, pn);
            proof {
                assert(pos.0 % 2 == 0);
                assert(neg.0 == pos.0 + 1);
                assert forall|l: Lit| 0 <= l.0 < next_map@.len() implies #[trigger] next_map@[l.0 as int] == match next_value(
                    latchs@,
                    primes@,
                    k + 1,
                    l,
                ) {
                    Some(q) => q,
                    None => Lit(0),
                } by {
                    if l.var() == v {
                        if l.polarity() {
                            lemma_lit_determined(l, pos);
                        } else {
                            lemma_lit_determined(l, neg);
                        }
                    } else {
                        assert(l.0 != pos.0 && l.0 != neg.0);
                        assert(next_map@[l.0 as int] == mc[l.0 as int]);
                        if l.0 < mb.len() {
                            assert(mc[l.0 as int] == mb[l.0 as int]);
                        } else {
                            assert(next_value(latchs@, primes@, k as int, l) is None) by {
                                lemma_next_value_in_range(latchs@, primes@, k as int, l);
                            }
                        }
                    }
                }
            }
            k = k + 1;
        }
        let dependence = compress_deps(dependence, &trans);
        Model { inputs, latchs, primes, init, bad, init_map, constraints, trans, num_var, next_map, dependence }
    }

    /// The next-state literal of the latch literal `lit`.
    pub fn lit_next(&self, lit: Lit) -> (r: Lit)
        requires
            lit.0 < self.next_map@.len(),
        ensures
            r == self.next_map@[lit.0 as int],
    {
        self.next_map[lit.0 as usize]
    }

    /// The next-state literals of the literals of `cube`, in order.
    pub fn cube_next(&self, cube: &Vec<Lit>) -> (r: Vec<Lit>)
        requires
            forall|i: int| 0 <= i < cube@.len() ==> (#[trigger] cube@[i]).0 < self.next_map@.len(),
        ensures
            r@.len() == cube@.len(),
            forall|i: int| 0 <= i < cube@.len() ==> #[trigger] r@[i] == self.next_map@[cube@[i].0 as int],
    {
        let mut r: Vec<Lit> = Vec::new();
        let mut i: usize = 0;
        while i < cube.len()
            invariant
                0 <= i <= cube@.len(),
                forall|j: int| 0 <= j < cube@.len() ==> (#[trigger] cube@[j]).0 < self.next_map@.len(),
                r@.len() == i,
                forall|j: int| 0 <= j < i ==> #[trigger] r@[j] == self.next_map@[cube@[j].0 as int],
            decreases cube@.len() - i,
        {
            r.push(self.lit_next(cube[i]));
            i = i + 1;
        }
        r
    }

    /// Whether the cube `x` meets the initial states: none of its literals
    /// contradicts an initial value.
    pub fn cube_subsume_init(&self, x: &Vec<Lit>) -> (r: bool)
        ensures
            r == forall|i: int|
                0 <= i < x@.len() ==> match init_of(self.init_map@, (#[trigger] x@[i]).var()) {
                    Some(b) => b == x@[i].polarity(),
                    None => true,
                },
    {
        let mut i: usize = 0;
        while i < x.len()
            invariant
                0 <= i <= x@.len(),
                forall|j: int|
                    0 <= j < i ==> match init_of(self.init_map@, (#[trigger] x@[j]).var()) {
                        Some(b) => b == x@[j].polarity(),
                        None => true,
                    },
            decreases x@.len() - i,
        {
            let v = x[i].var_of();
            if (v.0 as usize) < self.init_map.len() {
                if let Some(init) = self.init_map[v.0 as usize] {
                    if init != x[i].is_positive() {
                        return false;
                    }
                }
            }
            i = i + 1;
        }
        true
    }

    /// The unit cubes that exclude the initial value of each variable that
    /// has one, in increasing order of the variables.
    pub fn inits(&self) -> (r: Vec<Vec<Lit>>)
        requires
            self.init_map@.len() <= MAX_VAR + 1,
        ensures
            forall|k: int|
                0 <= k < r@.len() ==> {
                    &&& (#[trigger] r@[k])@.len() == 1
                    &&& init_of(self.init_map@, r@[k]@[0].var()) == Some(!r@[k]@[0].polarity())
                },
            forall|k1: int, k2: int| 0 <= k1 < k2 < r@.len() ==> (#[trigger] r@[k1])@[0].var().0 < (#[trigger] r@[k2])@[0].var().0,
            forall|v: Var|
                #[trigger] init_of(self.init_map@, v) is Some ==> exists|k: int| 0 <= k < r@.len() && (#[trigger] r@[k])@[0].var() == v,
    {
        let mut r: Vec<Vec<Lit>> = Vec::new();
        let mut u: usize = 0;
        while u < self.init_map.len()
            invariant
                0 <= u <= self.init_map@.len(),
                self.init_map@.len() <= MAX_VAR + 1,
                forall|k: int|
                    0 <= k < r@.len() ==> {
                        &&& (#[trigger] r@[k])@.len() == 1
                        &&& r@[k]@[0].var().0 < u
                        &&& init_of(self.init_map@, r@[k]@[0].var()) == Some(!r@[k]@[0].polarity())
                    },
                forall|k1: int, k2: int| 0 <= k1 < k2 < r@.len() ==> (#[trigger] r@[k1])@[0].var().0 < (#[trigger] r@[k2])@[0].var().0,
                forall|v: Var|
                    v.0 < u && #[trigger] init_of(self.init_map@, v) is Some ==> exists|k: int| 0 <= k < r@.len() && (#[trigger] r@[k])@[0].var() == v,
            decreases self.init_map@.len() - u,
        {
            if let Some(b) = self.init_map[u] {
                let l = Lit::new(Var(u as u32), !b);
                let mut c: Vec<Lit> = Vec::new();
                c.push(l);
                let ghost rb = r@;
                r.push(c);
                proof {
                    assert(r@[rb.len() as int]@[0] == l);
                    assert forall|v: Var| v.0 < u + 1 && #[trigger] init_of(self.init_map@, v) is Some implies exists|k: int|
                        0 <= k < r@.len() && (#[trigger] r@[k])@[0].var() == v by {
                        if v.0 == u {
                            assert(v == Var(u as u32));
                            assert(r@[rb.len() as int]@[0].var() == v);
                        } else {
                            let k = choose|k: int| 0 <= k < rb.len() && (#[trigger] rb[k])@[0].var() == v;
                            assert(r@[k] == rb[k]);
                        }
                    }
                }
            } else {
                proof {
                    assert forall|v: Var| v.0 < u + 1 && #[trigger] init_of(self.init_map@, v) is Some implies exists|k: int|
                        0 <= k < r@.len() && (#[trigger] r@[k])@[0].var() == v by {
                        if v.0 == u {
                            assert(v == Var(u as u32));
                        }
                    }
                }
            }
            u = u + 1;
        }
        proof {
            assert forall|v: Var| #[trigger] init_of(self.init_map@, v) is Some implies exists|k: int| 0 <= k < r@.len() && (#[trigger] r@[k])@[0].var() == v by {
                assert(v.0 < self.init_map@.len());
            }
        }
        r
    }
}

/// The next state of a negated latch literal is the negated next state:
/// `lit_next(!l) == !lit_next(l)` wherever `l` has one.
pub proof fn lemma_next_value_negated(latchs: Seq<Var>, primes: Seq<Lit>, k: int, l: Lit)
    ensures
        next_value(latchs, primes, k, l.negated()) == match next_value(latchs, primes, k, l) {
            Some(p) => Some(p.negated()),
            None => None,
        },
    decreases k,
{
    lemma_negated(l);
    if k > 0 && k <= latchs.len() && k <= primes.len() {
        lemma_negated(primes[k - 1]);
        if latchs[k - 1] != l.var() {
            lemma_next_value_negated(latchs, primes, k - 1, l);
        }
    }
}

/// A literal that the first `k` pairs give a next state has its variable
/// among their latches, so its code is within the map built from them.
proof fn lemma_next_value_in_range(latchs: Seq<Var>, primes: Seq<Lit>, k: int, l: Lit)
    ensures
        next_value(latchs, primes, k, l) is Some ==> exists|i: int| 0 <= i < k && latchs[i] == l.var(),
    decreases k,
{
    if k > 0 && k <= latchs.len() && k <= primes.len() && latchs[k - 1] != l.var() {
        lemma_next_value_in_range(latchs, primes, k - 1, l);
    }
}
} // verus!
