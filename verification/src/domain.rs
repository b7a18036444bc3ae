//! Sets of variables, and the decision domain of the solver: the variables
//! that a query can depend on.
use crate::lit::{Lbool, Lit, Var, MAX_VAR};
use crate::value::Value;
use vstd::prelude::*;

verus! {

/// A set of variables kept both as a list in insertion order and as a
/// membership table.
pub struct VarSet {
    pub set: Vec<Var>,
    pub has: Vec<bool>,
}

impl VarSet {
    /// The list has no repeats, and the table marks exactly the listed
    /// variables.
    pub open spec fn wf(&self) -> bool {
        &&& self.has.len() <= MAX_VAR + 1
        &&& forall|i: int| 0 <= i < self.set.len() ==> (#[trigger] self.set@[i]).0 < self.has.len()
        &&& forall|i: int| 0 <= i < self.set.len() ==> self.has@[(#[trigger] self.set@[i]).0 as int]
        &&& forall|i: int, j: int|
            0 <= i < j < self.set.len() ==> (#[trigger] self.set@[i]) != (#[trigger] self.set@[j])
        &&& forall|v: int|
            0 <= v < self.has.len() && #[trigger] self.has@[v] ==> self.set@.contains(Var(v as u32))
    }

    pub open spec fn contains(&self, v: Var) -> bool {
        self.set@.contains(v)
    }

    /// An empty set.
    pub fn new() -> (s: VarSet)
        ensures
            s.wf(),
            s.set@.len() == 0,
            s.has@.len() == 0,
    {
        VarSet { set: Vec::new(), has: Vec::new() }
    }

    /// Extends the membership table to cover `var`.
    pub fn reserve(&mut self, var: Var)
        requires
            old(self).wf(),
            var.0 <= MAX_VAR,
        ensures
            final(self).wf(),
            final(self).set@ == old(self).set@,
            final(self).has.len() == if old(self).has.len() > var.0 + 1 {
                old(self).has.len() as int
            } else {
                var.0 + 1
            },
            forall|v: int| 0 <= v < old(self).has.len() ==> final(self).has@[v] == old(self).has@[v],
    {
        let len = var.0 as usize + 1;
        while self.has.len() < len
            invariant
                old(self).wf(),
                self.set@ == old(self).set@,
                len <= MAX_VAR + 1,
                old(self).has.len() <= self.has.len(),
                self.has.len() <= len || self.has.len() == old(self).has.len(),
                forall|v: int| 0 <= v < old(self).has.len() ==> self.has@[v] == old(self).has@[v],
                forall|v: int| old(self).has.len() <= v < self.has.len() ==> !self.has@[v],
            decreases len - self.has.len(),
        {
            self.has.push(false);
        }
        proof {
            assert forall|v: int| 0 <= v < self.has.len() && #[trigger] self.has@[v] implies self.set@.contains(
                Var(v as u32),
            ) by {
                assert(old(self).has@[v]);
            }
        }
    }

    /// The number of variables in the set.
    pub fn len(&self) -> (n: usize)
        ensures
            n == self.set@.len(),
    {
        self.set.len()
    }

    /// Whether `var` is in the set.
    pub fn has(&self, var: Var) -> (b: bool)
        requires
            self.wf(),
            (var.0 as int) < self.has.len(),
        ensures
            b == self.contains(var),
    {
        proof {
            if self.set@.contains(var) {
                let i = choose|i: int| 0 <= i < self.set.len() && self.set@[i] == var;
                assert(self.has@[self.set@[i].0 as int]);
            }
        }
        self.has[var.0 as usize]
    }

    /// Adds `var` to the end of the list unless it is already in the set.
    pub fn insert(&mut self, var: Var)
        requires
            old(self).wf(),
            (var.0 as int) < old(self).has.len(),
        ensures
            final(self).wf(),
            final(self).has.len() == old(self).has.len(),
            old(self).contains(var) ==> final(self).set@ == old(self).set@,
            !old(self).contains(var) ==> final(self).set@ == old(self).set@.push(var),
    {
        if !self.has(var) {
            self.set.push(var);
            self.has.set(var.0 as usize, true);
            proof {
                assert forall|i: int| 0 <= i < self.set.len() implies self.has@[(
                #[trigger] self.set@[i]).0 as int] by {
                    if i < old(self).set.len() {
                        assert(old(self).set@[i] == self.set@[i]);
                    }
                }
                assert forall|v: int| 0 <= v < self.has.len() && #[trigger] self.has@[v] implies self.set@.contains(
                    Var(v as u32),
                ) by {
                    if v != var.0 as int {
                        assert(old(self).has@[v]);
                        let i = choose|i: int| 0 <= i < old(self).set.len() && old(self).set@[i] == Var(v as u32);
                        assert(self.set@[i] == Var(v as u32));
                    } else {
                        assert(self.set@[old(self).set.len() as int] == var);
                    }
                }
            }
        }
    }

    /// Removes the last variable of the list.
    fn pop_last(&mut self) -> (v: Var)
        requires
            old(self).wf(),
            old(self).set.len() > 0,
        ensures
            final(self).wf(),
            final(self).has.len() == old(self).has.len(),
            final(self).set@ == old(self).set@.drop_last(),
            v == old(self).set@.last(),
    {
        let v = self.set.pop().unwrap();
        self.has.set(v.0 as usize, false);
        proof {
            assert forall|i: int| 0 <= i < self.set.len() implies self.has@[(
            #[trigger] self.set@[i]).0 as int] by {
                assert(self.set@[i] == old(self).set@[i]);
                assert(self.set@[i] != v);
            }
            assert forall|w: int| 0 <= w < self.has.len() && #[trigger] self.has@[w] implies self.set@.contains(
                Var(w as u32),
            ) by {
                assert(old(self).has@[w]);
                let i = choose|i: int| 0 <= i < old(self).set.len() && old(self).set@[i] == Var(w as u32);
                assert(i != old(self).set.len() - 1);
                assert(self.set@[i] == Var(w as u32));
            }
        }
        v
    }

    /// A set holds no more variables than its table covers.
    pub proof fn lemma_len_bound(&self)
        requires
            self.wf(),
        ensures
            self.set.len() <= self.has.len(),
    {
        let m = self.set@.map_values(|v: Var| v.0 as int);
        let r = vstd::set_lib::set_int_range(0, self.has.len() as int);
        assert(m.no_duplicates()) by {
            assert forall|i: int, j: int| 0 <= i < m.len() && 0 <= j < m.len() && i != j implies #[trigger] m[i] != #[trigger] m[j] by {
                if i < j {
                    assert(self.set@[i] != self.set@[j]);
                } else {
                    assert(self.set@[j] != self.set@[i]);
                }
            }
        }
        m.unique_seq_to_set();
        assert(m.to_set().subset_of(r)) by {
            assert forall|x: int| m.to_set().contains(x) implies r.contains(x) by {
                let i = choose|i: int| 0 <= i < m.len() && m[i] == x;
                assert(self.set@[i].0 < self.has.len());
            }
        }
        vstd::set_lib::lemma_int_range(0, self.has.len() as int);
        vstd::set_lib::lemma_len_subset(m.to_set(), r);
    }

    /// Empties the set.
    pub fn clear(&mut self)
        requires
            old(self).wf(),
        ensures
            final(self).wf(),
            final(self).set@.len() == 0,
            final(self).has.len() == old(self).has.len(),
    {
        while self.set.len() > 0
            invariant
                self.wf(),
                self.has.len() == old(self).has.len(),
            decreases self.set.len(),
        {
            self.pop_last();
        }
    }
}

/// The variables reachable from `roots` through unassigned variables:
/// `s` extends `prefix` by unassigned variables only; every unassigned root
/// and every unassigned dependency of a variable past the prefix is in `s`;
/// and each variable past the prefix is a root or a dependency of an
/// earlier variable past the prefix.
pub open spec fn coi_of(
    prefix: Seq<Var>,
    s: Seq<Var>,
    roots: Seq<Var>,
    deps: Seq<Seq<Var>>,
    vals: Seq<Lbool>,
) -> bool {
    &&& prefix.len() <= s.len()
    &&& s.subrange(0, prefix.len() as int) == prefix
    &&& forall|k: int| prefix.len() <= k < s.len() ==> var_unassigned(vals, #[trigger] s[k])
    &&& forall|r: int| 0 <= r < roots.len() && var_unassigned(vals, #[trigger] roots[r]) ==> s.contains(roots[r])
    &&& forall|k: int, j: int|
        prefix.len() <= k < s.len() && (s[k].0 as int) < deps.len() && 0 <= j < deps[s[k].0 as int].len()
            && var_unassigned(vals, #[trigger] deps[s[k].0 as int][j]) ==> s.contains(deps[s[k].0 as int][j])
    &&& forall|k: int|
        prefix.len() <= k < s.len() ==> roots.contains(#[trigger] s[k]) || exists|j: int|
            prefix.len() <= j < k && (s[j].0 as int) < deps.len() && deps[s[j].0 as int].contains(s[k])
}

/// `v` is a variable of the assignment `vals` and is unassigned.
pub open spec fn var_unassigned(vals: Seq<Lbool>, v: Var) -> bool {
    2 * v.0 + 1 < vals.len() && vals[2 * v.0].0 == 2
}

pub open spec fn deps_view(deps: Seq<Vec<Var>>) -> Seq<Seq<Var>> {
    deps.map_values(|d: Vec<Var>| d@)
}

/// `v` is the variable of a constraint, or a dependency of such a
/// variable, and so on.
pub open spec fn constrain_closure(roots: Seq<Lit>, deps: Seq<Vec<Var>>) -> Set<Var> {
    Set::new(|v: Var| in_closure(roots, deps, v))
}

/// `v` is in every set that holds the variables of `roots` and is closed
/// under `deps`.
pub open spec fn in_closure(roots: Seq<Lit>, deps: Seq<Vec<Var>>, v: Var) -> bool {
    forall|s: Set<Var>| #[trigger] closed_over(s, roots, deps) ==> s.contains(v)
}

/// `s` holds the variables of `roots` and, with each of its variables, that
/// variable's dependencies.
pub open spec fn closed_over(s: Set<Var>, roots: Seq<Lit>, deps: Seq<Vec<Var>>) -> bool {
    &&& forall|k: int| 0 <= k < roots.len() ==> s.contains(#[trigger] roots[k].var())
    &&& forall|v: Var, j: int|
        #![trigger s.contains(v), deps[v.0 as int]@[j]]
        s.contains(v) && (v.0 as int) < deps.len() && 0 <= j < deps[v.0 as int]@.len() ==> s.contains(deps[v.0 as int]@[j])
}

/// A dependency of a variable in the closure is in the closure.
proof fn lemma_closure_step(roots: Seq<Lit>, deps: Seq<Vec<Var>>, v: Var, j: int)
    requires
        in_closure(roots, deps, v),
        (v.0 as int) < deps.len(),
        0 <= j < deps[v.0 as int]@.len(),
    ensures
        in_closure(roots, deps, deps[v.0 as int]@[j]),
{
    assert forall|s: Set<Var>| #[trigger] closed_over(s, roots, deps) implies s.contains(deps[v.0 as int]@[j]) by {
        assert(s.contains(v));
    }
}

/// The marked variables, closed under `deps` and holding the roots, hold
/// the whole closure.
proof fn lemma_closure_marked(roots: Seq<Lit>, deps: Seq<Vec<Var>>, marked: Seq<bool>, v: Var)
    requires
        marked.len() == deps.len(),
        forall|k: int| 0 <= k < roots.len() ==> (roots[k].var().0 as int) < deps.len() && #[trigger] marked[roots[k].var().0 as int],
        forall|u: int, j: int| 0 <= u < deps.len() && marked[u] && 0 <= j < deps[u]@.len() ==> (deps[u]@[j].0 as int) < deps.len() && #[trigger] marked[deps[u]@[j].0 as int],
        constrain_closure(roots, deps).contains(v),
    ensures
        (v.0 as int) < deps.len() && marked[v.0 as int],
{
    let s = Set::new(|w: Var| (w.0 as int) < deps.len() && marked[w.0 as int]);
    assert(closed_over(s, roots, deps)) by {
        assert forall|k: int| 0 <= k < roots.len() implies s.contains(#[trigger] roots[k].var()) by {
            assert(marked[roots[k].var().0 as int]);
        }
        assert forall|w: Var, j: int|
            #![trigger s.contains(w), deps[w.0 as int]@[j]]
            s.contains(w) && (w.0 as int) < deps.len() && 0 <= j < deps[w.0 as int]@.len() implies s.contains(deps[w.0 as int]@[j]) by {
            assert(marked[deps[w.0 as int]@[j].0 as int]);
        }
    }
    assert(in_closure(roots, deps, v));
}

/// How many entries of `s` are true.
pub open spec fn count_true(s: Seq<bool>) -> nat
    decreases s.len(),
{
    if s.len() == 0 {
        0
    } else {
        count_true(s.drop_last()) + if s.last() {
            1nat
        } else {
            0nat
        }
    }
}

proof fn lemma_count_true_zero(s: Seq<bool>)
    requires
        forall|u: int| 0 <= u < s.len() ==> !#[trigger] s[u],
    ensures
        count_true(s) == 0,
    decreases s.len(),
{
    if s.len() > 0 {
        lemma_count_true_zero(s.drop_last());
    }
}

proof fn lemma_count_true_set(s: Seq<bool>, i: int)
    requires
        0 <= i < s.len(),
        !s[i],
    ensures
        count_true(s.update(i, true)) == count_true(s) + 1,
    decreases s.len(),
{
    if i == s.len() - 1 {
        assert(s.update(i, true).drop_last() =~= s.drop_last());
    } else {
        lemma_count_true_set(s.drop_last(), i);
        assert(s.update(i, true).drop_last() =~= s.drop_last().update(i, true));
    }
}

proof fn lemma_count_true_le(s: Seq<bool>)
    ensures
        count_true(s) <= s.len(),
    decreases s.len(),
{
    if s.len() > 0 {
        lemma_count_true_le(s.drop_last());
    }
}

/// The decision domain: a set of variables whose first `fixed` members stay
/// across queries.
pub struct Domain {
    pub domain: VarSet,
    pub fixed: u32,
}

impl Domain {
    pub open spec fn wf(&self) -> bool {
        &&& self.domain.wf()
        &&& self.fixed <= self.domain.set.len()
    }

    /// An empty domain.
    pub fn new() -> (d: Domain)
        ensures
            d.wf(),
            d.domain.set@.len() == 0,
            d.fixed == 0,
            d.domain.has.len() == 0,
    {
        Domain { domain: VarSet::new(), fixed: 0 }
    }

    /// Extends the membership table to cover `var`.
    pub fn reserve(&mut self, var: Var)
        requires
            old(self).wf(),
            var.0 <= MAX_VAR,
        ensures
            final(self).wf(),
            final(self).domain.set@ == old(self).domain.set@,
            final(self).fixed == old(self).fixed,
            final(self).domain.has.len() == if old(self).domain.has.len() > var.0 + 1 {
                old(self).domain.has.len() as int
            } else {
                var.0 + 1
            },
    {
        self.domain.reserve(var);
    }

    /// Drops every variable added after the fixed ones.
    pub fn reset(&mut self)
        requires
            old(self).wf(),
        ensures
            final(self).wf(),
            final(self).domain.set@ == old(self).domain.set@.subrange(0, old(self).fixed as int),
            final(self).fixed == old(self).fixed,
            final(self).domain.has.len() == old(self).domain.has.len(),
    {
        while self.domain.len() > self.fixed as usize
            invariant
                self.wf(),
                self.fixed == old(self).fixed,
                self.domain.has.len() == old(self).domain.has.len(),
                self.domain.set.len() <= old(self).domain.set.len(),
                self.domain.set@ == old(self).domain.set@.subrange(0, self.domain.set.len() as int),
            decreases self.domain.set.len(),
        {
            let ghost before = self.domain.set@;
            self.domain.pop_last();
            assert(self.domain.set@ =~= old(self).domain.set@.subrange(0, self.domain.set.len() as int)) by {
                assert forall|k: int| 0 <= k < self.domain.set.len() implies self.domain.set@[k] == old(self).domain.set@[k] by {
                    assert(before[k] == old(self).domain.set@.subrange(0, before.len() as int)[k]);
                }
            }
        }
    }

    /// Makes `var` a fixed member of the domain, after dropping the
    /// variables added since the last fix.
    pub fn add_domain(&mut self, var: Var)
        requires
            old(self).wf(),
            (var.0 as int) < old(self).domain.has.len(),
        ensures
            final(self).wf(),
            final(self).fixed == final(self).domain.set.len(),
            final(self).domain.has.len() == old(self).domain.has.len(),
            ({
                let kept = old(self).domain.set@.subrange(0, old(self).fixed as int);
                final(self).domain.set@ == if kept.contains(var) {
                    kept
                } else {
                    kept.push(var)
                }
            }),
    {
        self.reset();
        self.domain.insert(var);
        proof {
            self.domain.lemma_len_bound();
        }
        self.fixed = self.domain.len() as u32;
    }

    /// Adds the unassigned roots, and every unassigned variable that they
    /// depend on through unassigned variables, to the domain.
    fn get_coi(&mut self, roots: &Vec<Var>, deps: &Vec<Vec<Var>>, value: &Value)
        requires
            old(self).wf(),
            old(self).domain.set.len() == old(self).fixed,
            value.wf(),
            deps.len() >= old(self).domain.has.len(),
            old(self).domain.has.len() <= value.num_var(),
            forall|r: int| 0 <= r < roots.len() ==> (#[trigger] roots@[r]).0 < old(self).domain.has.len(),
            forall|v: int, j: int|
                0 <= v < deps.len() && 0 <= j < deps@[v].len() ==> (#[trigger] deps@[v]@[j]).0
                    < old(self).domain.has.len(),
        ensures
            final(self).wf(),
            final(self).fixed == old(self).fixed,
            final(self).domain.has.len() == old(self).domain.has.len(),
            coi_of(
                old(self).domain.set@,
                final(self).domain.set@,
                roots@,
                deps_view(deps@),
                value.data@,
            ),
    {
        let ghost prefix = old(self).domain.set@;
        let ghost dv = deps_view(deps@);
        let mut r: usize = 0;
        while r < roots.len()
            invariant
                self.wf(),
                self.fixed == old(self).fixed,
                self.domain.has.len() == old(self).domain.has.len(),
                old(self).domain.has.len() <= value.num_var(),
                value.wf(),
                0 <= r <= roots.len(),
                forall|r: int| 0 <= r < roots.len() ==> (#[trigger] roots@[r]).0 < old(self).domain.has.len(),
                prefix.len() <= self.domain.set.len(),
                self.domain.set@.subrange(0, prefix.len() as int) == prefix,
                forall|k: int| prefix.len() <= k < self.domain.set.len() ==> var_unassigned(value.data@, #[trigger] self.domain.set@[k]),
                forall|k: int| prefix.len() <= k < self.domain.set.len() ==> roots@.contains(#[trigger] self.domain.set@[k]),
                forall|q: int| 0 <= q < r && var_unassigned(value.data@, #[trigger] roots@[q]) ==> self.domain.set@.contains(roots@[q]),
            decreases roots.len() - r,
        {
            let v = roots[r];
            let lit = v.lit();
            let ghost prev = self.domain.set@;
            proof {
                assert(value.data@[lit.0 as int].wf());
            }
            let none = value.v(lit).is_none();
            proof {
                assert(value.data@[2 * v.0].0 <= 2);
                assert(none == (value.data@[2 * v.0].0 == 2));
                assert(none == var_unassigned(value.data@, v));
            }
            if none {
                self.domain.insert(v);
            }
            proof {
                assert forall|k: int| 0 <= k < prev.len() implies self.domain.set@[k] == prev[k] by {
                }
                assert(self.domain.set@.subrange(0, prefix.len() as int) =~= prefix) by {
                    assert forall|k: int| 0 <= k < prefix.len() implies self.domain.set@[k] == prefix[k] by {
                        assert(self.domain.set@.subrange(0, prefix.len() as int)[k] == self.domain.set@[k]);
                    }
                }
                assert forall|q: int| 0 <= q < r + 1 && var_unassigned(value.data@, #[trigger] roots@[q]) implies self.domain.set@.contains(roots@[q]) by {
                    if q < r {
                        let i = choose|i: int| 0 <= i < prev.len() && prev[i] == roots@[q];
                        assert(self.domain.set@[i] == roots@[q]);
                    } else {
                        if prev.contains(v) {
                            let i = choose|i: int| 0 <= i < prev.len() && prev[i] == v;
                            assert(self.domain.set@[i] == v);
                        } else {
                            assert(self.domain.set@[prev.len() as int] == v);
                        }
                    }
                }
            }
            r = r + 1;
        }
        proof {
            self.domain.lemma_len_bound();
        }
        let mut now = self.fixed as usize;
        while now < self.domain.len()
            invariant
                self.wf(),
                self.fixed == old(self).fixed,
                self.domain.has.len() == old(self).domain.has.len(),
                old(self).domain.has.len() <= value.num_var(),
                value.wf(),
                deps.len() >= old(self).domain.has.len(),
                dv == deps_view(deps@),
                forall|v: int, j: int|
                    0 <= v < deps.len() && 0 <= j < deps@[v].len() ==> (#[trigger] deps@[v]@[j]).0
                        < old(self).domain.has.len(),
                prefix.len() <= now <= self.domain.set.len(),
                self.domain.set.len() <= self.domain.has.len(),
                prefix.len() == self.fixed,
                self.domain.set@.subrange(0, prefix.len() as int) == prefix,
                forall|k: int| prefix.len() <= k < self.domain.set.len() ==> var_unassigned(value.data@, #[trigger] self.domain.set@[k]),
                forall|q: int| 0 <= q < roots.len() && var_unassigned(value.data@, #[trigger] roots@[q]) ==> self.domain.set@.contains(roots@[q]),
                forall|k: int, j: int|
                    prefix.len() <= k < now && (self.domain.set@[k].0 as int) < dv.len() && 0 <= j < dv[self.domain.set@[k].0 as int].len()
                        && var_unassigned(value.data@, #[trigger] dv[self.domain.set@[k].0 as int][j]) ==> self.domain.set@.contains(dv[self.domain.set@[k].0 as int][j]),
                forall|k: int|
                    prefix.len() <= k < self.domain.set.len() ==> roots@.contains(#[trigger] self.domain.set@[k]) || exists|j: int|
                        prefix.len() <= j < k && (self.domain.set@[j].0 as int) < dv.len() && dv[self.domain.set@[j].0 as int].contains(self.domain.set@[k]),
            decreases self.domain.has.len() - self.domain.set.len(), self.domain.set.len() - now,
        {
            proof {
                self.domain.lemma_len_bound();
            }
            let v = self.domain.set[now];
            let ghost k0 = now as int;
            let ghost before = self.domain.set@;
            now = now + 1;
            let ds = &deps[v.0 as usize];
            let mut j: usize = 0;
            while j < ds.len()
                invariant
                    self.wf(),
                    self.fixed == old(self).fixed,
                    self.domain.has.len() == old(self).domain.has.len(),
                    old(self).domain.has.len() <= value.num_var(),
                    value.wf(),
                    0 <= j <= ds.len(),
                    ds@ == dv[v.0 as int],
                    (v.0 as int) < dv.len(),
                    forall|j: int| 0 <= j < ds.len() ==> (#[trigger] ds@[j]).0 < old(self).domain.has.len(),
                    now == k0 + 1,
                    prefix.len() <= k0 < before.len(),
                    before[k0] == v,
                    before.len() <= self.domain.set.len(),
                    self.domain.set@.subrange(0, before.len() as int) == before,
                    forall|k: int| before.len() <= k < self.domain.set.len() ==> var_unassigned(value.data@, #[trigger] self.domain.set@[k]),
                    forall|k: int| before.len() <= k < self.domain.set.len() ==> dv[v.0 as int].contains(#[trigger] self.domain.set@[k]),
                    forall|q: int| 0 <= q < j && var_unassigned(value.data@, #[trigger] ds@[q]) ==> self.domain.set@.contains(ds@[q]),
                decreases ds.len() - j,
            {
                let d = ds[j];
                let ghost prev = self.domain.set@;
                let dl = d.lit();
                proof {
                    assert(value.data@[dl.0 as int].wf());
                }
                let none = value.v(dl).is_none();
                proof {
                    assert(value.data@[2 * d.0].0 <= 2);
                    assert(none == (value.data@[2 * d.0].0 == 2));
                    assert(none == var_unassigned(value.data@, d));
                }
                if none {
                    self.domain.insert(d);
                }
                proof {
                    assert forall|k: int| 0 <= k < prev.len() implies self.domain.set@[k] == prev[k] by {
                    }
                    assert(self.domain.set@.subrange(0, before.len() as int) =~= before) by {
                        assert forall|k: int| 0 <= k < before.len() implies self.domain.set@[k] == before[k] by {
                            assert(self.domain.set@.subrange(0, before.len() as int)[k] == self.domain.set@[k]);
                        }
                    }
                    assert forall|q: int| 0 <= q < j + 1 && var_unassigned(value.data@, #[trigger] ds@[q]) implies self.domain.set@.contains(ds@[q]) by {
                        if q < j {
                            let i = choose|i: int| 0 <= i < prev.len() && prev[i] == ds@[q];
                            assert(self.domain.set@[i] == ds@[q]);
                        } else {
                            if prev.contains(d) {
                                let i = choose|i: int| 0 <= i < prev.len() && prev[i] == d;
                                assert(self.domain.set@[i] == d);
                            } else {
                                assert(self.domain.set@[prev.len() as int] == d);
                            }
                        }
                    }
                    assert forall|k: int| before.len() <= k < self.domain.set.len() implies dv[v.0 as int].contains(#[trigger] self.domain.set@[k]) by {
                        if k == self.domain.set.len() - 1 && self.domain.set.len() > before.len() {
                            assert(ds@[j as int] == d);
                        }
                    }
                }
                j = j + 1;
            }
            proof {
                self.domain.lemma_len_bound();
                let cur = self.domain.set@;
                assert forall|k: int| 0 <= k < before.len() implies cur[k] == before[k] by {
                    assert(cur.subrange(0, before.len() as int)[k] == cur[k]);
                }
                assert(cur.subrange(0, prefix.len() as int) =~= prefix) by {
                    assert forall|k: int| 0 <= k < prefix.len() implies cur[k] == prefix[k] by {
                        assert(before.subrange(0, prefix.len() as int)[k] == before[k]);
                    }
                }
                assert forall|q: int| 0 <= q < roots.len() && var_unassigned(value.data@, #[trigger] roots@[q]) implies cur.contains(roots@[q]) by {
                    let i = choose|i: int| 0 <= i < before.len() && before[i] == roots@[q];
                    assert(cur[i] == roots@[q]);
                }
                assert forall|k: int, jj: int|
                    prefix.len() <= k < now && (cur[k].0 as int) < dv.len() && 0 <= jj < dv[cur[k].0 as int].len()
                        && var_unassigned(value.data@, #[trigger] dv[cur[k].0 as int][jj]) implies cur.contains(dv[cur[k].0 as int][jj]) by {
                    if k < k0 {
                        assert(cur[k] == before[k]);
                        let i = choose|i: int| 0 <= i < before.len() && before[i] == dv[before[k].0 as int][jj];
                        assert(cur[i] == before[i]);
                    } else {
                        assert(cur[k] == v);
                        assert(ds@[jj] == dv[v.0 as int][jj]);
                    }
                }
                assert forall|k: int|
                    prefix.len() <= k < cur.len() implies roots@.contains(#[trigger] cur[k]) || exists|jj: int|
                        prefix.len() <= jj < k && (cur[jj].0 as int) < dv.len() && dv[cur[jj].0 as int].contains(cur[k]) by {
                    if k < before.len() {
                        assert(cur[k] == before[k]);
                        if !roots@.contains(before[k]) {
                            let jj = choose|jj: int|
                                prefix.len() <= jj < k && (before[jj].0 as int) < dv.len() && dv[before[jj].0 as int].contains(before[k]);
                            assert(cur[jj] == before[jj]);
                        }
                    } else {
                        assert(cur[k0] == v);
                        assert(dv[cur[k0].0 as int].contains(cur[k]));
                    }
                }
            }
        }
    }

    /// Replaces the variables added since the last fix by the unassigned
    /// cone of influence of `roots`.
    pub fn enable_local(&mut self, roots: &Vec<Var>, deps: &Vec<Vec<Var>>, value: &Value)
        requires
            old(self).wf(),
            value.wf(),
            deps.len() >= old(self).domain.has.len(),
            old(self).domain.has.len() <= value.num_var(),
            forall|r: int| 0 <= r < roots.len() ==> (#[trigger] roots@[r]).0 < old(self).domain.has.len(),
            forall|v: int, j: int|
                0 <= v < deps.len() && 0 <= j < deps@[v].len() ==> (#[trigger] deps@[v]@[j]).0
                    < old(self).domain.has.len(),
        ensures
            final(self).wf(),
            final(self).fixed == old(self).fixed,
            final(self).domain.has.len() == old(self).domain.has.len(),
            coi_of(
                old(self).domain.set@.subrange(0, old(self).fixed as int),
                final(self).domain.set@,
                roots@,
                deps_view(deps@),
                value.data@,
            ),
    {
        self.reset();
        self.get_coi(roots, deps, value);
    }

    /// Whether `var` is in the domain.
    pub fn has(&self, var: Var) -> (b: bool)
        requires
            self.wf(),
            (var.0 as int) < self.domain.has.len(),
        ensures
            b == self.domain.contains(var),
    {
        self.domain.has(var)
    }

    /// Adds `var` to the domain, after the fixed members.
    pub fn insert(&mut self, var: Var)
        requires
            old(self).wf(),
            (var.0 as int) < old(self).domain.has.len(),
        ensures
            final(self).wf(),
            final(self).fixed == old(self).fixed,
            final(self).domain.has.len() == old(self).domain.has.len(),
            old(self).domain.contains(var) ==> final(self).domain.set@ == old(self).domain.set@,
            !old(self).domain.contains(var) ==> final(self).domain.set@ == old(self).domain.set@.push(var),
    {
        self.domain.insert(var);
    }

    /// The variables of the domain, in insertion order.
    pub fn domains(&self) -> (d: &Vec<Var>)
        ensures
            d@ == self.domain.set@,
    {
        &self.domain.set
    }

    /// The number of variables in the domain.
    pub fn len(&self) -> (n: usize)
        ensures
            n == self.domain.set@.len(),
    {
        self.domain.len()
    }

    /// Makes the fixed part of the domain every unassigned variable that
    /// the constraints depend on: the variables of `constraints`, closed
    /// under `deps`, added in increasing order.
    #[verifier::rlimit(40)]
    pub fn calculate_constrain(&mut self, constraints: &Vec<Lit>, deps: &Vec<Vec<Var>>, value: &Value)
        requires
            old(self).wf(),
            value.wf(),
            deps@.len() <= old(self).domain.has.len(),
            deps@.len() <= value.num_var(),
            forall|k: int| 0 <= k < constraints@.len() ==> ((#[trigger] constraints@[k]).var().0 as int) < deps@.len(),
            forall|v: int, j: int| 0 <= v < deps@.len() && 0 <= j < deps@[v]@.len() ==> ((#[trigger] deps@[v]@[j]).0 as int) < deps@.len(),
            old(self).domain.set@.len() < u32::MAX,
            old(self).domain.set@.len() + deps@.len() < u32::MAX,
        ensures
            final(self).wf(),
            final(self).domain.has.len() == old(self).domain.has.len(),
            final(self).fixed == final(self).domain.set@.len(),
            final(self).domain.set@.len() >= old(self).domain.set@.len(),
            final(self).domain.set@.subrange(0, old(self).domain.set@.len() as int) == old(self).domain.set@,
            forall|k: int|
                old(self).domain.set@.len() <= k < final(self).domain.set@.len() ==> {
                    &&& constrain_closure(constraints@, deps@).contains(#[trigger] final(self).domain.set@[k])
                    &&& var_unassigned(value.data@, final(self).domain.set@[k])
                },
            forall|k1: int, k2: int|
                old(self).domain.set@.len() <= k1 < k2 < final(self).domain.set@.len() ==> (#[trigger] final(self).domain.set@[k1]).0 < (#[trigger] final(self).domain.set@[k2]).0,
            forall|v: Var|
                #[trigger] constrain_closure(constraints@, deps@).contains(v) && var_unassigned(value.data@, v) ==> final(self).domain.set@.contains(v),
    {
        let n = deps.len();
        let mut marked: Vec<bool> = Vec::new();
        let mut i: usize = 0;
        while i < n
            invariant
                0 <= i <= n,
                n == deps@.len(),
                marked@.len() == i,
                forall|u: int| 0 <= u < i ==> !#[trigger] marked@[u],
            decreases n - i,
        {
            marked.push(false);
            i = i + 1;
        }
        let ghost roots = constraints@;
        let ghost ds = deps@;
        let mut queue: Vec<Var> = Vec::new();
        let ghost mut nm: nat = 0;
        proof {
            lemma_count_true_zero(marked@);
        }
        let mut k: usize = 0;
        while k < constraints.len()
            invariant
                0 <= k <= constraints@.len(),
                n == deps@.len(),
                roots == constraints@,
                ds == deps@,
                marked@.len() == n,
                nm == count_true(marked@),
                n <= u32::MAX,
                forall|c: int| 0 <= c < constraints@.len() ==> ((#[trigger] constraints@[c]).var().0 as int) < n,
                forall|c: int| 0 <= c < k ==> #[trigger] marked@[constraints@[c].var().0 as int],
                forall|u: int| 0 <= u < n && #[trigger] marked@[u] ==> in_closure(roots, ds, Var(u as u32)),
                forall|q: int| 0 <= q < queue@.len() ==> (#[trigger] queue@[q]).0 < n && marked@[queue@[q].0 as int],
                forall|u: int| 0 <= u < n && #[trigger] marked@[u] ==> queue@.contains(Var(u as u32)),
                forall|v: int, j: int| 0 <= v < n && 0 <= j < deps@[v]@.len() ==> ((#[trigger] deps@[v]@[j]).0 as int) < n,
            decreases constraints@.len() - k,
        {
            let v = constraints[k].var_of();
            let ghost qb = queue@;
            if !marked[v.0 as usize] {
                proof {
                    lemma_count_true_set(marked@, v.0 as int);
                    nm = nm + 1;
                    assert(in_closure(roots, ds, v)) by {
                        assert(roots[k as int].var() == v);
                    }
                }
                marked.set(v.0 as usize, true);
                queue.push(v);
                proof {
                    assert(Var(v.0 as u32) == v);
                    assert(queue@[queue@.len() - 1] == v);
                    assert forall|u: int| 0 <= u < n && #[trigger] marked@[u] implies queue@.contains(Var(u as u32)) by {
                        if u != v.0 {
                            let q = choose|q: int| 0 <= q < qb.len() && qb[q] == Var(u as u32);
                            assert(queue@[q] == Var(u as u32));
                        }
                    }
                    assert forall|q: int| 0 <= q < queue@.len() implies (#[trigger] queue@[q]).0 < n && marked@[queue@[q].0 as int] by {
                        if q < qb.len() {
                            assert(queue@[q] == qb[q]);
                        }
                    }
                }
            }
            k = k + 1;
        }
        proof {
            lemma_count_true_le(marked@);
            assert forall|u: int, j: int|
                0 <= u < n && marked@[u] && !queue@.contains(Var(u as u32)) && 0 <= j < deps@[u]@.len() implies #[trigger] marked@[deps@[u]@[j].0 as int] by {
            }
        }
        while queue.len() > 0
            invariant
                n == deps@.len(),
                roots == constraints@,
                ds == deps@,
                marked@.len() == n,
                nm == count_true(marked@),
                nm <= n,
                n <= u32::MAX,
                forall|c: int| 0 <= c < constraints@.len() ==> ((#[trigger] constraints@[c]).var().0 as int) < n,
                forall|v: int, j: int| 0 <= v < n && 0 <= j < deps@[v]@.len() ==> ((#[trigger] deps@[v]@[j]).0 as int) < n,
                forall|c: int| 0 <= c < constraints@.len() ==> #[trigger] marked@[constraints@[c].var().0 as int],
                forall|u: int| 0 <= u < n && #[trigger] marked@[u] ==> in_closure(roots, ds, Var(u as u32)),
                forall|q: int| 0 <= q < queue@.len() ==> (#[trigger] queue@[q]).0 < n && marked@[queue@[q].0 as int],
                // a marked variable not waiting in the queue has its dependencies marked
                forall|u: int, j: int|
                    0 <= u < n && marked@[u] && !queue@.contains(Var(u as u32)) && 0 <= j < deps@[u]@.len() ==> #[trigger] marked@[deps@[u]@[j].0 as int],
            decreases n - nm, queue@.len(),
        {
            let ghost qb = queue@;
            let v = queue.pop().unwrap();
            let ghost nm0 = nm;
            let ghost ql0 = queue@.len();
            proof {
                assert(v == qb[qb.len() - 1]);
                assert(queue@ =~= qb.drop_last());
                assert forall|u: int, i2: int|
                    0 <= u < n && marked@[u] && !queue@.contains(Var(u as u32)) && Var(u as u32) != v && 0 <= i2 < deps@[u]@.len() implies #[trigger] marked@[deps@[u]@[i2].0 as int] by {
                    if qb.contains(Var(u as u32)) {
                        let q = choose|q: int| 0 <= q < qb.len() && qb[q] == Var(u as u32);
                        if q < qb.len() - 1 {
                            assert(queue@[q] == Var(u as u32));
                        }
                    }
                }
                assert forall|q: int| 0 <= q < queue@.len() implies (#[trigger] queue@[q]).0 < n && marked@[queue@[q].0 as int] by {
                    assert(queue@[q] == qb[q]);
                }
            }
            let dv = &deps[v.0 as usize];
            let mut j: usize = 0;
            while j < dv.len()
                invariant
                    0 <= j <= dv@.len(),
                    *dv == deps@[v.0 as int],
                    (v.0 as int) < n,
                    marked@[v.0 as int],
                    n == deps@.len(),
                    roots == constraints@,
                    ds == deps@,
                    marked@.len() == n,
                    nm == count_true(marked@),
                    nm <= n,
                    n <= u32::MAX,
                    forall|c: int| 0 <= c < constraints@.len() ==> ((#[trigger] constraints@[c]).var().0 as int) < n,
                    forall|w: int, i2: int| 0 <= w < n && 0 <= i2 < deps@[w]@.len() ==> ((#[trigger] deps@[w]@[i2]).0 as int) < n,
                    forall|c: int| 0 <= c < constraints@.len() ==> #[trigger] marked@[constraints@[c].var().0 as int],
                    forall|u: int| 0 <= u < n && #[trigger] marked@[u] ==> in_closure(roots, ds, Var(u as u32)),
                    forall|q: int| 0 <= q < queue@.len() ==> (#[trigger] queue@[q]).0 < n && marked@[queue@[q].0 as int],
                    forall|i2: int| 0 <= i2 < j ==> #[trigger] marked@[deps@[v.0 as int]@[i2].0 as int],
                    nm >= nm0,
                    nm == nm0 ==> queue@.len() == ql0,
                    nm0 + ql0 + 1 > 0,
                    forall|u: int, i2: int|
                        0 <= u < n && marked@[u] && !queue@.contains(Var(u as u32)) && Var(u as u32) != v && 0 <= i2 < deps@[u]@.len() ==> #[trigger] marked@[deps@[u]@[i2].0 as int],
                decreases dv@.len() - j,
            {
                let d = dv[j];
                if !marked[d.0 as usize] {
                    proof {
                        lemma_count_true_set(marked@, d.0 as int);
                        lemma_count_true_le(marked@.update(d.0 as int, true));
                        nm = nm + 1;
                        assert(in_closure(roots, ds, Var(v.0 as u32)));
                        assert(Var(v.0 as u32) == v);
                        lemma_closure_step(roots, ds, v, j as int);
                        assert(Var(d.0 as u32) == d);
                    }
                    let ghost qb = queue@;
                    let ghost mb = marked@;
                    proof {
                        assert(ds[v.0 as int]@[j as int] == d);
                    }
                    marked.set(d.0 as usize, true);
                    queue.push(d);
                    proof {
                        assert forall|u: int| 0 <= u < n && #[trigger] marked@[u] implies in_closure(roots, ds, Var(u as u32)) by {
                            if u != d.0 {
                                assert(mb[u]);
                            }
                        }
                        assert forall|c: int| 0 <= c < constraints@.len() implies #[trigger] marked@[constraints@[c].var().0 as int] by {
                            assert(mb[constraints@[c].var().0 as int]);
                        }
                        assert forall|i2: int| 0 <= i2 < j + 1 implies #[trigger] marked@[deps@[v.0 as int]@[i2].0 as int] by {
                            if i2 < j {
                                assert(mb[deps@[v.0 as int]@[i2].0 as int]);
                            }
                        }
                        assert forall|q: int| 0 <= q < queue@.len() implies (#[trigger] queue@[q]).0 < n && marked@[queue@[q].0 as int] by {
                            if q < qb.len() {
                                assert(queue@[q] == qb[q]);
                            }
                        }
                        assert forall|u: int, i2: int|
                            0 <= u < n && marked@[u] && !queue@.contains(Var(u as u32)) && Var(u as u32) != v && 0 <= i2 < deps@[u]@.len() implies #[trigger] marked@[deps@[u]@[i2].0 as int] by {
                            if u == d.0 {
                                assert(queue@[queue@.len() - 1] == d);
                                assert(Var(u as u32) == d);
                            } else if !qb.contains(Var(u as u32)) {
                            } else {
                                let q = choose|q: int| 0 <= q < qb.len() && qb[q] == Var(u as u32);
                                assert(queue@[q] == Var(u as u32));
                            }
                        }
                    }
                }
                j = j + 1;
            }
            proof {
                lemma_count_true_le(marked@);
                assert forall|u: int, j2: int|
                    0 <= u < n && marked@[u] && !queue@.contains(Var(u as u32)) && 0 <= j2 < deps@[u]@.len() implies #[trigger] marked@[deps@[u]@[j2].0 as int] by {
                    if Var(u as u32) == v {
                        assert(u == v.0);
                    }
                }
            }
        }
        proof {
            assert forall|u: int, j2: int| 0 <= u < n && marked@[u] && 0 <= j2 < deps@[u]@.len() implies #[trigger] marked@[deps@[u]@[j2].0 as int] by {
                assert(!queue@.contains(Var(u as u32)));
            }
            assert forall|v: Var| #[trigger] constrain_closure(constraints@, deps@).contains(v) implies (v.0 as int) < n && marked@[v.0 as int] by {
                lemma_closure_marked(roots, ds, marked@, v);
            }
        }
        let ghost s0 = self.domain.set@;
        let mut u: usize = 0;
        while u < n
            invariant
                0 <= u <= n,
                n == deps@.len(),
                n <= self.domain.has.len(),
                n <= value.num_var(),
                value.wf(),
                self.wf(),
                self.domain.has.len() == old(self).domain.has.len(),
                s0 == old(self).domain.set@,
                self.fixed == old(self).fixed,
                marked@.len() == n,
                forall|v: Var| #[trigger] constrain_closure(constraints@, deps@).contains(v) ==> (v.0 as int) < n && marked@[v.0 as int],
                forall|w: int| 0 <= w < n && #[trigger] marked@[w] ==> constrain_closure(constraints@, deps@).contains(Var(w as u32)),
                self.domain.set@.len() >= s0.len(),
                self.domain.set@.len() <= s0.len() + u,
                self.domain.set@.subrange(0, s0.len() as int) == s0,
                forall|k: int|
                    s0.len() <= k < self.domain.set@.len() ==> {
                        &&& constrain_closure(constraints@, deps@).contains(#[trigger] self.domain.set@[k])
                        &&& var_unassigned(value.data@, self.domain.set@[k])
                        &&& self.domain.set@[k].0 < u
                    },
                forall|k1: int, k2: int|
                    s0.len() <= k1 < k2 < self.domain.set@.len() ==> (#[trigger] self.domain.set@[k1]).0 < (#[trigger] self.domain.set@[k2]).0,
                forall|v: Var|
                    v.0 < u && #[trigger] constrain_closure(constraints@, deps@).contains(v) && var_unassigned(value.data@, v) ==> self.domain.set@.contains(v),
            decreases n - u,
        {
            let vu = Var(u as u32);
            if marked[u] && value.v(vu.lit()).is_none() {
                let ghost sb = self.domain.set@;
                self.domain.insert(vu);
                proof {
                    assert(var_unassigned(value.data@, vu));
                    assert forall|k: int| 0 <= k < s0.len() implies self.domain.set@[k] == s0[k] by {
                        assert(sb.subrange(0, s0.len() as int)[k] == sb[k]);
                        assert(self.domain.set@[k] == sb[k]);
                    }
                    assert(self.domain.set@.subrange(0, s0.len() as int) =~= s0);
                    assert forall|v: Var|
                        v.0 < u + 1 && #[trigger] constrain_closure(constraints@, deps@).contains(v) && var_unassigned(value.data@, v) implies self.domain.set@.contains(v) by {
                        if v.0 < u {
                            let k = choose|k: int| 0 <= k < sb.len() && sb[k] == v;
                            assert(self.domain.set@[k] == v);
                        } else {
                            assert(v == vu);
                            if !sb.contains(vu) {
                                assert(self.domain.set@[sb.len() as int] == vu);
                            } else {
                                let k = choose|k: int| 0 <= k < sb.len() && sb[k] == v;
                                assert(self.domain.set@[k] == v);
                            }
                        }
                    }
                    assert forall|k: int|
                        s0.len() <= k < self.domain.set@.len() implies self.domain.set@[k].0 < u + 1 by {
                        if k < sb.len() {
                            assert(self.domain.set@[k] == sb[k]);
                        }
                    }
                }
            } else {
                proof {
                    assert forall|v: Var|
                        v.0 < u + 1 && #[trigger] constrain_closure(constraints@, deps@).contains(v) && var_unassigned(value.data@, v) implies self.domain.set@.contains(v) by {
                        if v.0 == u {
                            assert(v == vu);
                        }
                    }
                }
            }
            u = u + 1;
        }
        self.fixed = self.domain.len() as u32;
    }
}

} // verus!
