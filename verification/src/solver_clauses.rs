//! Building up the SAT solver: a fresh solver, new variables, and adding,
//! checking and dropping clauses; and the decision step.
use crate::cdb::{h_same_except, h_size, spec_cref_none, Allocator, ClauseDB, ClauseKind, CRef, MAX_CLAUSE_LEN};
use crate::domain::Domain;
use crate::lit::{Lbool, Lit, Var, MAX_VAR};
use crate::random::{coin_flip, seeded_rng};
use crate::solver::{apart, lemma_kept_trans, lits_kept, value_grows, Solver};
use crate::value::Value;
use crate::vsids::Vsids;
use crate::watch::{watchable, Watchers};
use crate::model::Model;
use crate::simplify::{all_watched, distinct, Simplify};
use crate::gc::{copied, lemma_copied_room};
use vstd::prelude::*;

verus! {

/// A clause fit to be watched among the first `n` literals stays fit among
/// more.
pub proof fn lemma_watchable_mono(a: &crate::cdb::Allocator, c: CRef, n: nat, m: nat)
    requires
        watchable(a, c, n),
        n <= m,
    ensures
        watchable(a, c, m),
{
}

/// Pads `v` with `x` up to length `n`.
fn extend_to<T: Copy>(v: &mut Vec<T>, n: usize, x: T)
    ensures
        final(v)@.len() == if old(v)@.len() > n {
            old(v)@.len() as int
        } else {
            n as int
        },
        forall|k: int| 0 <= k < old(v)@.len() ==> #[trigger] final(v)@[k] == old(v)@[k],
        forall|k: int| old(v)@.len() <= k < final(v)@.len() ==> #[trigger] final(v)@[k] == x,
{
    while v.len() < n
        invariant
            old(v)@.len() <= v@.len(),
            v@.len() <= n || v@.len() == old(v)@.len(),
            forall|k: int| 0 <= k < old(v)@.len() ==> #[trigger] v@[k] == old(v)@[k],
            forall|k: int| old(v)@.len() <= k < v@.len() ==> #[trigger] v@[k] == x,
        decreases n - v@.len(),
    {
        v.push(x);
    }
}

/// What a filter keeps comes from the sequence and meets the predicate; a
/// filter of distinct elements has distinct elements.
proof fn lemma_filter_sub(s: Seq<Lit>, p: spec_fn(Lit) -> bool)
    ensures
        s.filter(p).len() <= s.len(),
        forall|i: int| 0 <= i < s.filter(p).len() ==> s.contains(#[trigger] s.filter(p)[i]) && p(s.filter(p)[i]),
        (forall|i: int, j: int| 0 <= i < j < s.len() ==> #[trigger] s[i] != #[trigger] s[j]) ==> forall|i: int, j: int|
            0 <= i < j < s.filter(p).len() ==> #[trigger] s.filter(p)[i] != #[trigger] s.filter(p)[j],
    decreases s.len(),
{
    reveal(Seq::filter);
    if s.len() > 0 {
        let t = s.drop_last();
        lemma_filter_sub(t, p);
        assert forall|i: int| 0 <= i < t.filter(p).len() implies s.contains(#[trigger] t.filter(p)[i]) by {
            let k = choose|k: int| 0 <= k < t.len() && t[k] == t.filter(p)[i];
            assert(s[k] == t[k]);
        }
        assert(s.contains(s.last()));
        if forall|i: int, j: int| 0 <= i < j < s.len() ==> #[trigger] s[i] != #[trigger] s[j] {
            assert forall|i: int, j: int| 0 <= i < j < t.len() implies #[trigger] t[i] != #[trigger] t[j] by {
                assert(s[i] == t[i] && s[j] == t[j]);
            }
            assert forall|i: int| 0 <= i < t.filter(p).len() implies #[trigger] t.filter(p)[i] != s.last() by {
                let k = choose|k: int| 0 <= k < t.len() && t[k] == t.filter(p)[i];
                assert(s[k] == t[k]);
            }
        }
    }
}

/// A set of indices below `n` is finite, with at most `n` members.
pub proof fn lemma_bounded_finite(s: Set<u32>, n: nat)
    requires
        n <= u32::MAX as nat + 1,
        forall|u: u32| s.contains(u) ==> (u as nat) < n,
    ensures
        s.finite(),
        s.len() <= n,
    decreases n,
{
    if n == 0 {
        assert(s =~= Set::<u32>::empty());
    } else {
        let top = (n - 1) as u32;
        let t = s.remove(top);
        lemma_bounded_finite(t, (n - 1) as nat);
        if s.contains(top) {
            assert(s =~= t.insert(top));
        } else {
            assert(s =~= t);
        }
    }
}

/// The words that storing the clauses of `cnf` can take.
pub open spec fn cnf_size(cnf: Seq<Vec<Lit>>) -> int
    decreases cnf.len(),
{
    if cnf.len() == 0 {
        0
    } else {
        cnf_size(cnf.drop_last()) + cnf.last()@.len() + 2
    }
}

/// A prefix of the clauses takes no more words than all of them.
proof fn lemma_cnf_size_prefix(cnf: Seq<Vec<Lit>>, i: int)
    requires
        0 <= i <= cnf.len(),
    ensures
        cnf_size(cnf.subrange(0, i)) <= cnf_size(cnf),
        0 <= cnf_size(cnf.subrange(0, i)),
    decreases cnf.len(),
{
    if i == cnf.len() {
        assert(cnf.subrange(0, i) =~= cnf);
        lemma_cnf_size_nonneg(cnf);
    } else {
        lemma_cnf_size_prefix(cnf.drop_last(), i);
        assert(cnf.drop_last().subrange(0, i) =~= cnf.subrange(0, i));
    }
}

proof fn lemma_cnf_size_nonneg(cnf: Seq<Vec<Lit>>)
    ensures
        cnf_size(cnf) >= 0,
    decreases cnf.len(),
{
    if cnf.len() > 0 {
        lemma_cnf_size_nonneg(cnf.drop_last());
    }
}

/// The invariant of propagation does not look at the lists of clauses.
pub(crate) proof fn lemma_inv_ignores_lists(s0: Solver, s1: Solver)
    requires
        s0.inv(),
        s1.cdb.allocator == s0.cdb.allocator,
        s1.watchers == s0.watchers,
        s1.value == s0.value,
        s1.trail == s0.trail,
        s1.reason == s0.reason,
        s1.level == s0.level,
        s1.propagated == s0.propagated,
        s1.pos_in_trail == s0.pos_in_trail,
        s1.domain.wf(),
        s1.domain.domain.has.len() == s0.domain.domain.has.len(),
    ensures
        s1.inv(),
        forall|d: CRef| #[trigger] s1.watched(d) == s0.watched(d),
{
    assert forall|q1: int, i1: int, q2: int, i2: int|
        s1.is_watch(q1, i1) && s1.is_watch(q2, i2) implies #[trigger] s1.wclause(q1, i1)
            == #[trigger] s1.wclause(q2, i2) || apart(s1.arena(), s1.wclause(q1, i1), s1.wclause(q2, i2)) by {
        assert(s0.is_watch(q1, i1) && s0.is_watch(q2, i2));
        assert(s0.wclause(q1, i1) == s0.wclause(q2, i2) || apart(s0.arena(), s0.wclause(q1, i1), s0.wclause(q2, i2)));
    }
    assert forall|t: int|
        0 <= t < s1.trail.len() && s1.reason_of(#[trigger] s1.trail@[t]) != spec_cref_none()
            implies s1.explains(s1.reason_of(s1.trail@[t]), s1.trail@[t]) by {
        let x = s0.trail@[t];
        assert(s0.explains(s0.reason_of(x), x));
        assert forall|q: int, i: int| #[trigger] s1.is_watch(q, i) implies s1.wclause(q, i) == s0.reason_of(x) || apart(s1.arena(), s0.reason_of(x), s1.wclause(q, i)) by {
            assert(s0.is_watch(q, i));
        }
    }
    assert forall|d: CRef| #[trigger] s1.watched(d) == s0.watched(d) by {
        if s0.watched(d) {
            let (q, i) = choose|q: int, i: int| #[trigger] s0.is_watch(q, i) && s0.wclause(q, i) == d;
            assert(s1.is_watch(q, i));
        }
        if s1.watched(d) {
            let (q, i) = choose|q: int, i: int| #[trigger] s1.is_watch(q, i) && s1.wclause(q, i) == d;
            assert(s0.is_watch(q, i));
        }
    }
}

/// The invariant of propagation holds whatever the levels at which
/// decisions were taken.
proof fn lemma_inv_ignores_lists_pos(s0: Solver, s1: Solver)
    requires
        s0.inv(),
        s1.cdb.allocator == s0.cdb.allocator,
        s1.watchers == s0.watchers,
        s1.value == s0.value,
        s1.trail == s0.trail,
        s1.reason == s0.reason,
        s1.level == s0.level,
        s1.propagated == s0.propagated,
        s1.pos_in_trail@.len() < u32::MAX,
        s1.domain == s0.domain,
    ensures
        s1.inv(),
{
    assert forall|q1: int, i1: int, q2: int, i2: int|
        s1.is_watch(q1, i1) && s1.is_watch(q2, i2) implies #[trigger] s1.wclause(q1, i1)
            == #[trigger] s1.wclause(q2, i2) || apart(s1.arena(), s1.wclause(q1, i1), s1.wclause(q2, i2)) by {
        assert(s0.is_watch(q1, i1) && s0.is_watch(q2, i2));
        assert(s0.wclause(q1, i1) == s0.wclause(q2, i2) || apart(s0.arena(), s0.wclause(q1, i1), s0.wclause(q2, i2)));
    }
    assert forall|t: int|
        0 <= t < s1.trail.len() && s1.reason_of(#[trigger] s1.trail@[t]) != spec_cref_none()
            implies s1.explains(s1.reason_of(s1.trail@[t]), s1.trail@[t]) by {
        let x = s0.trail@[t];
        assert(s0.explains(s0.reason_of(x), x));
        assert forall|q: int, i: int| #[trigger] s1.is_watch(q, i) implies s1.wclause(q, i) == s0.reason_of(x) || apart(s1.arena(), s0.reason_of(x), s1.wclause(q, i)) by {
            assert(s0.is_watch(q, i));
        }
    }
}

/// A set of variables has no more members than its table has entries.
proof fn lemma_domain_set_bound(d: &crate::domain::VarSet)
    requires
        d.wf(),
    ensures
        d.set@.len() <= d.has@.len(),
{
    let m = d.set@.map_values(|v: Var| v.0 as int);
    let r = vstd::set_lib::set_int_range(0, d.has@.len() as int);
    assert(m.no_duplicates()) by {
        assert forall|i: int, j: int| 0 <= i < m.len() && 0 <= j < m.len() && i != j implies #[trigger] m[i] != #[trigger] m[j] by {
            if i < j {
                assert(d.set@[i] != d.set@[j]);
            } else {
                assert(d.set@[j] != d.set@[i]);
            }
        }
    }
    m.unique_seq_to_set();
    assert(m.to_set().subset_of(r)) by {
        assert forall|x: int| #[trigger] m.to_set().contains(x) implies r.contains(x) by {
            let k = choose|k: int| 0 <= k < m.len() && m[k] == x;
            assert(d.set@[k].0 < d.has@.len());
        }
    }
    vstd::set_lib::lemma_int_range(0, d.has@.len() as int);
    vstd::set_lib::lemma_len_subset(m.to_set(), r);
}

/// A watch left after detaching was a watch before.
proof fn lemma_watch_was_there(o: Solver, w1: Watchers, q: int, i: int)
    requires
        0 <= q < w1.wtrs@.len(),
        0 <= i < w1.wtrs@[q]@.len(),
        w1.wtrs@.len() == o.watchers.wtrs@.len(),
        forall|x: crate::watch::Watcher| #[trigger] w1.wtrs@[q]@.contains(x) ==> o.watchers.wtrs@[q]@.contains(x),
    ensures
        exists|i2: int| 0 <= i2 < o.watchers.wtrs@[q].len() && o.watchers.wtrs@[q]@[i2].clause == w1.wtrs@[q]@[i].clause,
{
    assert(w1.wtrs@[q]@.contains(w1.wtrs@[q]@[i]));
}


/// `v` is the first variable with no value in `value` in the order in
/// which the buckets `b` serve theirs: lowest bucket first, last first
/// within a bucket.
pub open spec fn first_unassigned(b: Seq<Vec<Var>>, value: Value, v: Var) -> bool {
    exists|i: int, k: int|
        0 <= i < b.len() && 0 <= k < b[i]@.len() && #[trigger] b[i]@[k] == v
            && (forall|j: int, m: int| 0 <= j < i && 0 <= m < b[j]@.len() ==> !value.is_unassigned((#[trigger] b[j]@[m]).spec_lit()))
            && (forall|m: int| k < m < b[i]@.len() ==> !value.is_unassigned((#[trigger] b[i]@[m]).spec_lit()))
}

/// Each bucket of `cb` is the start of the same bucket of `ob`, and each
/// variable of `ob` past that start has a value in `value`.
pub open spec fn served_assigned(ob: Seq<Vec<Var>>, cb: Seq<Vec<Var>>, value: Value) -> bool {
    &&& cb.len() == ob.len()
    &&& forall|j: int| 0 <= j < ob.len() ==> (#[trigger] cb[j])@.len() <= ob[j]@.len() && cb[j]@ == ob[j]@.take(cb[j]@.len() as int)
    &&& forall|j: int, m: int| 0 <= j < ob.len() && cb[j]@.len() <= m < ob[j]@.len() ==> !value.is_unassigned((#[trigger] ob[j]@[m]).spec_lit())
}

impl Solver {
    /// Some watch list holds the clause `d`.
    pub open spec fn watched(&self, d: CRef) -> bool {
        exists|q: int, i: int| #[trigger] self.is_watch(q, i) && self.wclause(q, i) == d
    }

    /// Besides the invariant of propagation: a saved phase per variable,
    /// a well-formed decision queue over the variables, and the last
    /// variable reserved for activating constraints.
    pub open spec fn ready(&self) -> bool {
        &&& self.inv()
        &&& self.phase_saving@.len() == self.nv()
        &&& self.vsids.wf()
        &&& self.vsids.covers(self.nv())
        &&& (self.nv() == 0 && self.constrain_act.0 == 0 || self.nv() == self.constrain_act.0 + 1)
    }

    /// A solver with no variables and no clauses, whose random choices come
    /// from the seed `rseed`.
    pub fn new(rseed: u64) -> (s: Solver)
        ensures
            s.ready(),
            s.nv() == 0,
            s.domain.domain.set@.len() == 0,
            s.domain.fixed == 0,
            s.trail@.len() == 0,
            s.pos_in_trail@.len() == 0,
            s.constrain_act == Var(0),
            s.cdb.wf(),
            s.cdb.allocator.data@.len() == 0,
            s.cdb.temporary@.len() == 0,
            s.cdb.lemmas@.len() == 0,
            s.cdb.learnt@.len() == 0,
            s.cdb.trans@.len() == 0,
            s.cdb.allocator.wasted == 0,
            s.simplify.last_num_assign == 0,
            crate::prop::prop_ok(s, false),
            !s.trivial_unsat,
            !s.temporary_domain,
    {
        Solver {
            cdb: ClauseDB::new(),
            watchers: Watchers::new(),
            value: Value::new(),
            trail: Vec::new(),
            pos_in_trail: Vec::new(),
            level: Vec::new(),
            reason: Vec::new(),
            propagated: 0,
            vsids: Vsids::new(),
            phase_saving: Vec::new(),
            domain: Domain::new(),
            temporary_domain: false,
            prepared_vsids: false,
            constrain_act: Var(0),
            trivial_unsat: false,
            rng: seeded_rng(rseed),
            simplify: Simplify::default(),
        }
    }

    /// The number of variables: the index of the last one, which activates
    /// constraints.
    pub fn num_var(&self) -> (n: usize)
        ensures
            n == self.constrain_act.0,
    {
        self.constrain_act.0 as usize
    }

    /// Adds a variable. The new variable becomes the one that activates
    /// constraints; the one that did before is returned for ordinary use.
    /// The domain loses the variables added since it was last fixed.
    pub fn new_var(&mut self) -> (v: Var)
        requires
            old(self).ready(),
            old(self).pos_in_trail@.len() == 0,
            !old(self).temporary_domain,
            old(self).constrain_act.0 + 2 < MAX_VAR,
        ensures
            final(self).ready(),
            v == old(self).constrain_act,
            final(self).constrain_act.0 == old(self).constrain_act.0 + 1,
            final(self).nv() == old(self).constrain_act.0 + 2,
            final(self).trail == old(self).trail,
            final(self).cdb == old(self).cdb,
            final(self).simplify == old(self).simplify,
            crate::prop::prop_ok(*old(self), false) ==> crate::prop::prop_ok(*final(self), false),
            final(self).pos_in_trail == old(self).pos_in_trail,
            final(self).trivial_unsat == old(self).trivial_unsat,
            !final(self).temporary_domain,
            !final(self).prepared_vsids,
            final(self).domain.domain.set@ == old(self).domain.domain.set@.subrange(0, old(self).domain.fixed as int),
            final(self).domain.fixed == old(self).domain.fixed,
            forall|l: Lit| (l.0 as int) < 2 * old(self).nv() ==> #[trigger] final(self).value.val(l) == old(self).value.val(l),
            forall|l: Lit| 2 * old(self).nv() <= (l.0 as int) < 2 * final(self).nv() ==> #[trigger] final(self).value.is_unassigned(l),
    {
        self.prepared_vsids = false;
        self.domain.reset();
        let v = self.constrain_act;
        let var = Var(self.constrain_act.0 + 1);
        let ghost o = *old(self);
        let ghost ov = self.value;
        self.value.reserve(var);
        let n = var.0 as usize + 1;
        extend_to(&mut self.level, n, 0);
        extend_to(&mut self.reason, n, CRef::none());
        extend_to(&mut self.phase_saving, n, Lbool::new_none());
        let ghost ow = self.watchers;
        self.watchers.reserve(var);
        self.vsids.reserve(var);
        self.domain.reserve(var);
        self.constrain_act = var;
        proof {
            assert(self.nv() == var.0 + 1);
            let a = self.arena();
            assert forall|q: int, i: int|
                0 <= q < self.watchers.wtrs.len() && 0 <= i < self.watchers.wtrs@[q].len() implies {
                    let w = #[trigger] self.watchers.wtrs@[q]@[i];
                    &&& watchable(a, w.clause, self.watchers.wtrs.len() as nat)
                    &&& (a.lits(w.clause)[0].0 == crate::lit::neg_code(q as u32) || a.lits(w.clause)[1].0
                        == crate::lit::neg_code(q as u32))
                    &&& (w.blocker.0 as int) < self.watchers.wtrs.len()
                } by {
                assert(q < ow.wtrs.len());
                assert(self.watchers.wtrs@[q] == ow.wtrs@[q]);
                lemma_watchable_mono(a, ow.wtrs@[q]@[i].clause, ow.wtrs.len() as nat, self.watchers.wtrs.len() as nat);
            }
            assert(self.watchers.wf(self.arena()));
            assert forall|t: int|
                0 <= t < self.trail.len() implies (#[trigger] self.trail@[t]).0 < 2 * self.nv()
                    && self.value.is_true(self.trail@[t]) by {
                assert(o.value.is_true(o.trail@[t]));
            }
            assert(self.trail_ok());
            assert forall|q1: int, i1: int, q2: int, i2: int|
                self.is_watch(q1, i1) && self.is_watch(q2, i2) implies #[trigger] self.wclause(q1, i1)
                    == #[trigger] self.wclause(q2, i2) || apart(self.arena(), self.wclause(q1, i1), self.wclause(q2, i2)) by {
                assert(o.is_watch(q1, i1) && o.is_watch(q2, i2));
                assert(self.wclause(q1, i1) == o.wclause(q1, i1));
                assert(self.wclause(q2, i2) == o.wclause(q2, i2));
            }
            assert forall|t: int|
                0 <= t < self.trail.len() && self.reason_of(#[trigger] self.trail@[t]) != spec_cref_none()
                    implies self.explains(self.reason_of(self.trail@[t]), self.trail@[t]) by {
                let x = self.trail@[t];
                let r = self.reason_of(x);
                assert(self.reason@[x.var().0 as int] == o.reason@[x.var().0 as int]);
                assert(o.explains(r, x));
                lemma_watchable_mono(self.arena(), r, 2 * o.nv(), 2 * self.nv());
                assert forall|k: int| 1 <= k < self.arena().clause_len(r) implies self.value.is_false(
                    #[trigger] self.arena().lits(r)[k],
                ) by {
                    assert(o.value.is_false(o.arena().lits(r)[k]));
                }
                assert forall|q: int, i: int| #[trigger] self.is_watch(q, i) implies self.wclause(q, i) == r || apart(
                    self.arena(),
                    r,
                    self.wclause(q, i),
                ) by {
                    assert(o.is_watch(q, i));
                    assert(self.wclause(q, i) == o.wclause(q, i));
                }
            }
        }
        proof {
            crate::prop::lemma_grow_vars(o, *self);
        }
        v
    }

    /// Whether some literal of the clause at `cls` is true.
    pub fn clause_satisfied(&self, cls: CRef) -> (b: bool)
        requires
            self.inv(),
            watchable(self.arena(), cls, 2 * self.nv()),
        ensures
            b == exists|k: int| 0 <= k < self.arena().clause_len(cls) && self.value.is_true(#[trigger] self.arena().lits(cls)[k]),
    {
        let n = self.cdb.allocator.clause_len_of(cls);
        let mut i: usize = 0;
        while i < n
            invariant
                self.inv(),
                watchable(self.arena(), cls, 2 * self.nv()),
                n == self.arena().clause_len(cls),
                0 <= i <= n,
                forall|k: int| 0 <= k < i ==> !self.value.is_true(#[trigger] self.arena().lits(cls)[k]),
            decreases n - i,
        {
            let l = self.cdb.allocator.lit(cls, i);
            if self.value.v(l).is_true() {
                return true;
            }
            i = i + 1;
        }
        false
    }

    /// The value of `lit`, if it has one.
    pub fn sat_value(&self, lit: Lit) -> (r: Option<bool>)
        requires
            self.value.wf(),
            self.value.covers(lit),
        ensures
            r == Some(true) <==> self.value.is_true(lit),
            r == Some(false) <==> self.value.is_false(lit),
            r is None <==> self.value.is_unassigned(lit),
    {
        let v = self.value.v(lit);
        if v.is_true() {
            Some(true)
        } else if v.is_false() {
            Some(false)
        } else {
            None
        }
    }

    /// Stores `clause`, of two or more distinct literals of the solver's
    /// variables, as a clause of `kind` and watches it by its first two
    /// literals.
    #[verifier::rlimit(60)]
    pub fn attach_clause(&mut self, clause: &Vec<Lit>, kind: ClauseKind) -> (c: CRef)
        requires
            old(self).inv(),
            clause@.len() >= 2,
            clause@.len() <= MAX_CLAUSE_LEN,
            forall|k: int| 0 <= k < clause@.len() ==> ((#[trigger] clause@[k]).0 as int) < 2 * old(self).nv(),
            forall|i: int, j: int| 0 <= i < j < clause@.len() ==> #[trigger] clause@[i] != #[trigger] clause@[j],
            old(self).cdb.allocator.data@.len() + clause@.len() + 2 < u32::MAX,
        ensures
            final(self).inv(),
            final(self).nv() == old(self).nv(),
            c.0 == old(self).cdb.allocator.data@.len(),
            final(self).arena().lits(c) == clause@,
            watchable(final(self).arena(), c, 2 * final(self).nv()),
            final(self).watched(c),
            forall|d: CRef| #[trigger] old(self).watched(d) ==> final(self).watched(d),
            forall|d: CRef| #[trigger] final(self).watched(d) ==> d == c || old(self).watched(d),
            crate::prop::prop_ok(*old(self), false) && !old(self).value.is_false(clause@[0]) && !old(self).value.is_false(clause@[1])
                ==> crate::prop::prop_ok(*final(self), false),
            final(self).arena().data@.len() <= old(self).arena().data@.len() + clause@.len() + 2,
            final(self).cdb.allocator.wasted == old(self).cdb.allocator.wasted,
            final(self).simplify == old(self).simplify,
            final(self).cdb.list(kind) == old(self).cdb.list(kind).push(c),
            forall|k: ClauseKind| k != kind ==> final(self).cdb.list(k) == old(self).cdb.list(k),
            old(self).cdb.wf() ==> final(self).cdb.wf(),
            forall|d: CRef| old(self).arena().valid(d) ==> final(self).arena().valid(d) && final(self).arena().header(d) == old(self).arena().header(d) && final(self).arena().lits(d) == old(self).arena().lits(d),
            final(self).value == old(self).value,
            final(self).trail == old(self).trail,
            final(self).reason == old(self).reason,
            final(self).level == old(self).level,
            final(self).propagated == old(self).propagated,
            final(self).pos_in_trail == old(self).pos_in_trail,
            final(self).domain == old(self).domain,
            final(self).vsids == old(self).vsids,
            final(self).phase_saving == old(self).phase_saving,
            final(self).constrain_act == old(self).constrain_act,
            final(self).trivial_unsat == old(self).trivial_unsat,
            final(self).temporary_domain == old(self).temporary_domain,
    {
        let ghost o = *old(self);
        let c = self.cdb.alloc_clause(clause.as_slice(), kind);
        proof {
            let oa = o.arena();
            let a = self.arena();
            assert forall|d: CRef| oa.valid(d) implies a.valid(d) && a.header(d) == oa.header(d) && a.lits(d) == oa.lits(d) by {
                crate::cdb::lemma_extend_keeps(oa, a, d);
            }
            assert forall|q: int, i: int|
                0 <= q < self.watchers.wtrs.len() && 0 <= i < self.watchers.wtrs@[q].len() implies {
                    let w = #[trigger] self.watchers.wtrs@[q]@[i];
                    &&& watchable(a, w.clause, self.watchers.wtrs.len() as nat)
                    &&& (a.lits(w.clause)[0].0 == crate::lit::neg_code(q as u32) || a.lits(w.clause)[1].0
                        == crate::lit::neg_code(q as u32))
                    &&& (w.blocker.0 as int) < self.watchers.wtrs.len()
                } by {
                let w = self.watchers.wtrs@[q]@[i];
                assert(watchable(oa, w.clause, o.watchers.wtrs.len() as nat));
            }
            assert(self.watchers.wf(a));
            assert forall|q: int, i: int|
                0 <= q < self.watchers.wtrs.len() && 0 <= i < self.watchers.wtrs@[q].len() implies (#[trigger] self.watchers.wtrs@[q]@[i]).clause != c by {
                assert(oa.valid(self.watchers.wtrs@[q]@[i].clause));
            }
            assert(a.lits(c) == clause@);
        }
        let ghost w0 = self.watchers;
        self.watchers.attach(c, &self.cdb.allocator);
        proof {
            assert(w0 == o.watchers);
            assert(!o.watched(c)) by {
                if o.watched(c) {
                    lemma_watched_valid(o, c);
                }
            }
            crate::lit::lemma_negated(self.arena().lits(c)[0]);
            crate::lit::lemma_negated(self.arena().lits(c)[1]);
            assert(self.arena().lits(c)[0] != self.arena().lits(c)[1]);
            assert(self.arena().lits(c) == clause@);
            if !o.value.is_false(clause@[0]) && !o.value.is_false(clause@[1]) {
                crate::prop::lemma_attach_props(o, *self, c);
            }
        }
        proof {
            let oa = o.arena();
            let a = self.arena();
            let q0 = crate::lit::neg_code(a.lits(c)[0].0) as int;
            let q1 = crate::lit::neg_code(a.lits(c)[1].0) as int;
            crate::lit::lemma_negated(a.lits(c)[0]);
            assert(self.is_watch(q0, self.watchers.wtrs@[q0]@.len() - 1));
            assert(self.wclause(q0, self.watchers.wtrs@[q0]@.len() - 1) == c);
            // every watch is an old one or one of the two new ones of `c`
            assert forall|q: int, i: int| #[trigger] self.is_watch(q, i) implies self.wclause(q, i) == c || (o.is_watch(q, i) && self.wclause(q, i) == o.wclause(q, i)) by {
                if q != q0 && q != q1 {
                    assert(self.watchers.wtrs@[q] == w0.wtrs@[q]);
                } else if q == q0 {
                    if i < w0.wtrs@[q].len() {
                        assert(self.watchers.wtrs@[q]@[i] == w0.wtrs@[q]@[i]);
                    }
                } else {
                    if i < w0.wtrs@[q].len() {
                        assert(self.watchers.wtrs@[q]@[i] == w0.wtrs@[q]@[i]);
                    }
                }
            }
            assert forall|d: CRef| #[trigger] self.watched(d) implies d == c || o.watched(d) by {
                let (q, i) = choose|q: int, i: int| #[trigger] self.is_watch(q, i) && self.wclause(q, i) == d;
                if d != c {
                    assert(o.is_watch(q, i) && o.wclause(q, i) == d);
                }
            }
            assert forall|d: CRef| #[trigger] o.watched(d) implies self.watched(d) by {
                let (q, i) = choose|q: int, i: int| #[trigger] o.is_watch(q, i) && o.wclause(q, i) == d;
                assert(self.watchers.wtrs@[q]@[i] == w0.wtrs@[q]@[i]);
                assert(self.is_watch(q, i));
            }
            assert forall|t: int|
                0 <= t < self.trail.len() implies (#[trigger] self.trail@[t]).0 < 2 * self.nv() && self.value.is_true(self.trail@[t]) by {
                assert(o.trail@[t] == self.trail@[t]);
            }
            assert forall|q1: int, i1: int, q2: int, i2: int|
                self.is_watch(q1, i1) && self.is_watch(q2, i2) implies #[trigger] self.wclause(q1, i1)
                    == #[trigger] self.wclause(q2, i2) || apart(a, self.wclause(q1, i1), self.wclause(q2, i2)) by {
                let c1 = self.wclause(q1, i1);
                let c2 = self.wclause(q2, i2);
                if c1 != c2 {
                    if c1 == c {
                        assert(oa.valid(c2));
                    } else if c2 == c {
                        assert(oa.valid(c1));
                    } else {
                        assert(o.is_watch(q1, i1) && o.is_watch(q2, i2));
                        assert(apart(oa, o.wclause(q1, i1), o.wclause(q2, i2)));
                        assert(oa.valid(c1) && oa.valid(c2));
                    }
                }
            }
            assert forall|t: int|
                0 <= t < self.trail.len() && self.reason_of(#[trigger] self.trail@[t]) != spec_cref_none()
                    implies self.explains(self.reason_of(self.trail@[t]), self.trail@[t]) by {
                let x = self.trail@[t];
                let r = self.reason_of(x);
                assert(o.trail@[t] == x);
                assert(o.explains(r, x));
                assert(oa.valid(r));
                assert forall|k: int| 1 <= k < a.clause_len(r) implies self.value.is_false(#[trigger] a.lits(r)[k]) by {
                    assert(oa.lits(r)[k] == a.lits(r)[k]);
                }
                assert forall|q: int, i: int| #[trigger] self.is_watch(q, i) implies self.wclause(q, i) == r || apart(a, r, self.wclause(q, i)) by {
                    let d = self.wclause(q, i);
                    if d != c {
                        assert(o.is_watch(q, i));
                        assert(o.wclause(q, i) == r || apart(oa, r, o.wclause(q, i)));
                        assert(oa.valid(d));
                    }
                }
            }
        }
        c
    }

    /// Stops watching the clause at `cref` and frees it.
    #[verifier::rlimit(100)]
    #[verifier::spinoff_prover]
    pub fn detach_clause(&mut self, cref: CRef)
        requires
            old(self).inv(),
            old(self).watched(cref),
            old(self).cdb.allocator.wasted + h_size(old(self).arena().header(cref)) < usize::MAX,
        ensures
            final(self).inv(),
            final(self).nv() == old(self).nv(),
            final(self).watchers.unwatched(cref),
            crate::cdb::h_removed(final(self).arena().header(cref)),
            final(self).arena().data@.len() == old(self).arena().data@.len(),
            final(self).cdb.allocator.wasted == old(self).cdb.allocator.wasted + h_size(old(self).arena().header(cref)),
            forall|d: CRef| d != cref && #[trigger] old(self).watched(d) ==> final(self).watched(d),
            forall|d: CRef| #[trigger] final(self).watched(d) ==> d != cref && old(self).watched(d),
            final(self).arena().valid(cref),
            final(self).arena().lits(cref) == old(self).arena().lits(cref),
            h_same_except(final(self).arena().header(cref), old(self).arena().header(cref), false, false, false, false, true),
            forall|d: CRef| #[trigger] old(self).arena().valid(d) && apart(old(self).arena(), cref, d) ==> final(self).arena().valid(d)
                && final(self).arena().lits(d) == old(self).arena().lits(d) && final(self).arena().header(d) == old(self).arena().header(d),
            forall|d: CRef, n: nat| #[trigger] watchable(old(self).arena(), d, n) && (d == cref || apart(old(self).arena(), cref, d)) ==> watchable(final(self).arena(), d, n),
            old(self).cdb.wf() ==> final(self).cdb.wf(),
            final(self).cdb.lemmas == old(self).cdb.lemmas,
            final(self).cdb.trans == old(self).cdb.trans,
            final(self).cdb.learnt == old(self).cdb.learnt,
            final(self).cdb.temporary == old(self).cdb.temporary,
            final(self).value == old(self).value,
            final(self).trail == old(self).trail,
            final(self).reason == old(self).reason,
            final(self).level == old(self).level,
            final(self).propagated == old(self).propagated,
            final(self).pos_in_trail == old(self).pos_in_trail,
            final(self).domain == old(self).domain,
            final(self).vsids == old(self).vsids,
            final(self).phase_saving == old(self).phase_saving,
            final(self).constrain_act == old(self).constrain_act,
            final(self).trivial_unsat == old(self).trivial_unsat,
            final(self).temporary_domain == old(self).temporary_domain,
            final(self).simplify == old(self).simplify,
    {
        let ghost o = *old(self);
        let ghost (qc, ic) = choose|q: int, i: int| #[trigger] old(self).is_watch(q, i) && old(self).wclause(q, i) == cref;
        proof {
            assert(watchable(o.arena(), cref, 2 * o.nv()));
        }
        self.watchers.detach(cref, &self.cdb.allocator);
        let ghost w1 = self.watchers;
        proof {
            let a = o.arena();
            let q0 = crate::lit::neg_code(a.lits(cref)[0].0) as int;
            let q1 = crate::lit::neg_code(a.lits(cref)[1].0) as int;
            assert forall|q: int, i: int|
                0 <= q < self.watchers.wtrs.len() && 0 <= i < self.watchers.wtrs@[q].len() implies (#[trigger] self.watchers.wtrs@[q]@[i]).clause != cref by {
                if q != q0 && q != q1 {
                    assert(self.watchers.wtrs@[q] == o.watchers.wtrs@[q]);
                    let w = o.watchers.wtrs@[q]@[i];
                    if w.clause == cref {
                        assert(a.lits(cref)[0].0 == crate::lit::neg_code(q as u32) || a.lits(cref)[1].0 == crate::lit::neg_code(q as u32));
                        crate::lit::lemma_negated(a.lits(cref)[0]);
                        crate::lit::lemma_negated(a.lits(cref)[1]);
                        crate::lit::lemma_negated(crate::lit::Lit(q as u32));
                        assert(false);
                    }
                }
            }
        }
        proof {
            assert forall|d: CRef| d != cref && #[trigger] o.watched(d) implies self.watched(d) by {
                let (q, i) = choose|q: int, i: int| #[trigger] o.is_watch(q, i) && o.wclause(q, i) == d;
                let x = o.watchers.wtrs@[q]@[i];
                assert(o.watchers.wtrs@[q]@.contains(x));
                assert(self.watchers.wtrs@[q]@.contains(x));
                let i2 = choose|i2: int| 0 <= i2 < self.watchers.wtrs@[q]@.len() && self.watchers.wtrs@[q]@[i2] == x;
                assert(self.is_watch(q, i2) && self.wclause(q, i2) == d);
            }
        }
        let ghost s1 = *self;
        self.cdb.free(cref);
        proof {
            assert forall|d: CRef| d != cref && #[trigger] o.watched(d) implies self.watched(d) by {
                assert(s1.watched(d));
                let (q, i) = choose|q: int, i: int| #[trigger] s1.is_watch(q, i) && s1.wclause(q, i) == d;
                assert(self.is_watch(q, i));
            }
            let oa = o.arena();
            let a = self.arena();
            assert forall|d: CRef| #[trigger] oa.valid(d) && apart(oa, cref, d) implies a.valid(d) && a.lits(d) == oa.lits(d)
                && a.header(d) == oa.header(d) by {
                assert(d != cref) by {
                    assert(h_size(oa.header(cref)) >= 1);
                }
                assert(a.data@[d.0 as int] == oa.data@[d.0 as int]);
                assert(a.lits(d) =~= oa.lits(d)) by {
                    assert forall|k: int| 0 <= k < a.clause_len(d) implies a.lits(d)[k] == oa.lits(d)[k] by {
                        assert(a.data@[d.0 + 1 + k] == oa.data@[d.0 + 1 + k]);
                    }
                }
            }
            assert forall|d: CRef, n: nat| #[trigger] watchable(oa, d, n) && (d == cref || apart(oa, cref, d)) implies watchable(a, d, n) by {
                assert(oa.valid(d));
            }
            assert forall|q: int, i: int|
                0 <= q < self.watchers.wtrs.len() && 0 <= i < self.watchers.wtrs@[q].len() implies {
                    let w = #[trigger] self.watchers.wtrs@[q]@[i];
                    &&& watchable(a, w.clause, self.watchers.wtrs.len() as nat)
                    &&& (a.lits(w.clause)[0].0 == crate::lit::neg_code(q as u32) || a.lits(w.clause)[1].0
                        == crate::lit::neg_code(q as u32))
                    &&& (w.blocker.0 as int) < self.watchers.wtrs.len()
                } by {
                let w = self.watchers.wtrs@[q]@[i];
                assert(w1.wtrs@[q]@[i] == w);
                assert(watchable(oa, w.clause, w1.wtrs.len() as nat));
                lemma_watch_was_there(o, w1, q, i);
                let i2 = choose|i2: int| 0 <= i2 < o.watchers.wtrs@[q].len() && o.watchers.wtrs@[q]@[i2].clause == w.clause;
                assert(o.is_watch(q, i2));
                assert(o.wclause(q, i2) == o.wclause(qc, ic) || apart(oa, o.wclause(q, i2), o.wclause(qc, ic)));
            }
            assert(self.watchers.wf(a));
            assert forall|d: CRef| #[trigger] self.watched(d) implies d != cref && o.watched(d) by {
                let (q, i) = choose|q: int, i: int| #[trigger] self.is_watch(q, i) && self.wclause(q, i) == d;
                assert(w1.wtrs@[q]@[i] == self.watchers.wtrs@[q]@[i]);
                lemma_watch_was_there(o, w1, q, i);
                let j = choose|j: int| 0 <= j < o.watchers.wtrs@[q].len() && o.watchers.wtrs@[q]@[j].clause == d;
                assert(o.is_watch(q, j));
            }
            assert forall|t: int|
                0 <= t < self.trail.len() implies (#[trigger] self.trail@[t]).0 < 2 * self.nv() && self.value.is_true(self.trail@[t]) by {
                assert(o.trail@[t] == self.trail@[t]);
            }
            assert forall|q1: int, i1: int, q2: int, i2: int|
                self.is_watch(q1, i1) && self.is_watch(q2, i2) implies #[trigger] self.wclause(q1, i1)
                    == #[trigger] self.wclause(q2, i2) || apart(a, self.wclause(q1, i1), self.wclause(q2, i2)) by {
                let c1 = self.wclause(q1, i1);
                let c2 = self.wclause(q2, i2);
                assert(w1.wtrs@[q1]@[i1] == self.watchers.wtrs@[q1]@[i1]);
                assert(w1.wtrs@[q2]@[i2] == self.watchers.wtrs@[q2]@[i2]);
                lemma_watch_was_there(o, w1, q1, i1);
                lemma_watch_was_there(o, w1, q2, i2);
                let j1 = choose|j1: int| 0 <= j1 < o.watchers.wtrs@[q1].len() && o.watchers.wtrs@[q1]@[j1].clause == c1;
                let j2 = choose|j2: int| 0 <= j2 < o.watchers.wtrs@[q2].len() && o.watchers.wtrs@[q2]@[j2].clause == c2;
                assert(o.is_watch(q1, j1) && o.is_watch(q2, j2));
                assert(o.wclause(q1, j1) == o.wclause(qc, ic) || apart(oa, o.wclause(q1, j1), o.wclause(qc, ic)));
                assert(o.wclause(q2, j2) == o.wclause(qc, ic) || apart(oa, o.wclause(q2, j2), o.wclause(qc, ic)));
                assert(o.wclause(q1, j1) == o.wclause(q2, j2) || apart(oa, o.wclause(q1, j1), o.wclause(q2, j2)));
                assert(oa.valid(c1) && oa.valid(c2));
            }
            assert forall|t: int|
                0 <= t < self.trail.len() && self.reason_of(#[trigger] self.trail@[t]) != spec_cref_none()
                    implies self.explains(self.reason_of(self.trail@[t]), self.trail@[t]) by {
                let x = self.trail@[t];
                let r = self.reason_of(x);
                assert(o.trail@[t] == x);
                assert(o.explains(r, x));
                assert(oa.valid(r));
                assert forall|k: int| 1 <= k < a.clause_len(r) implies self.value.is_false(#[trigger] a.lits(r)[k]) by {
                    assert(oa.lits(r)[k] == a.lits(r)[k]);
                }
                assert forall|q: int, i: int| #[trigger] self.is_watch(q, i) implies self.wclause(q, i) == r || apart(a, r, self.wclause(q, i)) by {
                    let d = self.wclause(q, i);
                    assert(w1.wtrs@[q]@[i] == self.watchers.wtrs@[q]@[i]);
                    lemma_watch_was_there(o, w1, q, i);
                    let i2 = choose|i2: int| 0 <= i2 < o.watchers.wtrs@[q].len() && o.watchers.wtrs@[q]@[i2].clause == d;
                    assert(o.is_watch(q, i2));
                    assert(o.wclause(q, i2) == r || apart(oa, r, o.wclause(q, i2)));
                    assert(o.wclause(q, i2) == o.wclause(qc, ic) || apart(oa, o.wclause(q, i2), o.wclause(qc, ic)));
                    assert(oa.valid(d));
                }
            }
        }
    }

    /// Detaches and frees every temporary clause.
    pub fn clean_temporary(&mut self)
        requires
            old(self).inv(),
            forall|k: int| 0 <= k < old(self).cdb.temporary@.len() ==> old(self).watched(#[trigger] old(self).cdb.temporary@[k]),
            forall|i: int, j: int| 0 <= i < j < old(self).cdb.temporary@.len() ==> #[trigger] old(self).cdb.temporary@[i] != #[trigger] old(self).cdb.temporary@[j],
            old(self).cdb.allocator.wasted + (old(self).cdb.temporary@.len() + 1) * old(self).cdb.allocator.data@.len() < usize::MAX,
        ensures
            final(self).inv(),
            final(self).nv() == old(self).nv(),
            final(self).cdb.temporary@.len() == 0,
            final(self).cdb.lemmas == old(self).cdb.lemmas,
            final(self).cdb.trans == old(self).cdb.trans,
            final(self).cdb.learnt == old(self).cdb.learnt,
            final(self).arena().data@.len() == old(self).arena().data@.len(),
            final(self).value == old(self).value,
            final(self).trail == old(self).trail,
            final(self).reason == old(self).reason,
            final(self).level == old(self).level,
            final(self).propagated == old(self).propagated,
            final(self).pos_in_trail == old(self).pos_in_trail,
            final(self).domain == old(self).domain,
            final(self).vsids == old(self).vsids,
            final(self).phase_saving == old(self).phase_saving,
            final(self).constrain_act == old(self).constrain_act,
            final(self).trivial_unsat == old(self).trivial_unsat,
            final(self).temporary_domain == old(self).temporary_domain,
    {
        let ghost dlen = self.cdb.allocator.data@.len();
        while self.cdb.temporary.len() > 0
            invariant
                self.inv(),
                self.nv() == old(self).nv(),
                self.arena().data@.len() == dlen,
                forall|k: int| 0 <= k < self.cdb.temporary@.len() ==> self.watched(#[trigger] self.cdb.temporary@[k]),
                forall|i: int, j: int| 0 <= i < j < self.cdb.temporary@.len() ==> #[trigger] self.cdb.temporary@[i] != #[trigger] self.cdb.temporary@[j],
                self.cdb.allocator.wasted + (self.cdb.temporary@.len() + 1) * dlen < usize::MAX,
                self.cdb.lemmas == old(self).cdb.lemmas,
                self.cdb.trans == old(self).cdb.trans,
                self.cdb.learnt == old(self).cdb.learnt,
                self.value == old(self).value,
                self.trail == old(self).trail,
                self.reason == old(self).reason,
                self.level == old(self).level,
                self.propagated == old(self).propagated,
                self.pos_in_trail == old(self).pos_in_trail,
                self.domain == old(self).domain,
                self.vsids == old(self).vsids,
                self.phase_saving == old(self).phase_saving,
                self.constrain_act == old(self).constrain_act,
                self.trivial_unsat == old(self).trivial_unsat,
                self.temporary_domain == old(self).temporary_domain,
            decreases self.cdb.temporary@.len(),
        {
            let ghost tb = self.cdb.temporary@;
            let ghost s0 = *self;
            let t = self.cdb.temporary.pop().unwrap();
            proof {
                assert(t == tb[tb.len() - 1]);
                assert(s0.watched(tb[tb.len() - 1]));
                lemma_inv_ignores_lists(s0, *self);
                assert(self.watched(t));
                let n = self.cdb.temporary@.len();
                let w = self.cdb.allocator.wasted;
                assert((n + 2) * dlen == (n + 1) * dlen + dlen) by (nonlinear_arith);
                assert(self.arena().valid(t)) by {
                    let (q, i) = choose|q: int, i: int| #[trigger] self.is_watch(q, i) && self.wclause(q, i) == t;
                }
                assert(w + dlen < usize::MAX) by (nonlinear_arith)
                    requires w + (n + 2) * dlen < usize::MAX, (n + 2) * dlen == (n + 1) * dlen + dlen;
                assert forall|k: int| 0 <= k < self.cdb.temporary@.len() implies self.cdb.temporary@[k] != t by {
                    assert(tb[k] != tb[tb.len() - 1]);
                }
            }
            let ghost s1 = *self;
            self.detach_clause(t);
            proof {
                let n = self.cdb.temporary@.len();
                assert(h_size(s1.arena().header(t)) <= dlen);
                assert(self.cdb.allocator.wasted + (n + 1) * dlen < usize::MAX) by (nonlinear_arith)
                    requires
                        self.cdb.allocator.wasted <= s1.cdb.allocator.wasted + dlen,
                        s1.cdb.allocator.wasted + (n + 2) * dlen < usize::MAX,
                        (n + 2) * dlen == (n + 1) * dlen + dlen;
                assert forall|k: int| 0 <= k < self.cdb.temporary@.len() implies self.watched(#[trigger] self.cdb.temporary@[k]) by {
                    assert(s1.cdb.temporary@[k] != t);
                    assert(tb[k] == s1.cdb.temporary@[k]);
                    assert(s0.watched(tb[k]));
                    let (q, i) = choose|q: int, i: int| #[trigger] s0.is_watch(q, i) && s0.wclause(q, i) == tb[k];
                    assert(s1.is_watch(q, i) && s1.wclause(q, i) == tb[k]);
                    assert(s1.watched(s1.cdb.temporary@[k]));
                }
            }
        }
    }

    /// `cls` with its false literals dropped, or nothing when one of its
    /// literals is true; at level zero.
    pub fn simplify_clause(&self, cls: &Vec<Lit>) -> (r: Option<Vec<Lit>>)
        requires
            self.value.wf(),
            self.pos_in_trail@.len() == 0,
            forall|k: int| 0 <= k < cls@.len() ==> self.value.covers(#[trigger] cls@[k]) && cls@[k].var().0 <= self.constrain_act.0,
        ensures
            r is None <==> exists|k: int| 0 <= k < cls@.len() && self.value.is_true(#[trigger] cls@[k]),
            r matches Some(c) ==> c@ == cls@.filter(|l: Lit| self.value.is_unassigned(l)),
    {
        let mut clause: Vec<Lit> = Vec::new();
        let ghost pred = |l: Lit| self.value.is_unassigned(l);
        let mut i: usize = 0;
        while i < cls.len()
            invariant
                0 <= i <= cls@.len(),
                self.value.wf(),
                forall|k: int| 0 <= k < cls@.len() ==> self.value.covers(#[trigger] cls@[k]),
                forall|k: int| 0 <= k < i ==> !self.value.is_true(#[trigger] cls@[k]),
                pred == (|l: Lit| self.value.is_unassigned(l)),
                clause@ == cls@.subrange(0, i as int).filter(pred),
            decreases cls@.len() - i,
        {
            let l = cls[i];
            let v = self.value.v(l);
            proof {
                reveal(Seq::filter);
                assert(cls@.subrange(0, i + 1).drop_last() =~= cls@.subrange(0, i as int));
                assert(cls@.subrange(0, i + 1).last() == l);
                assert(v.wf());
            }
            if v.is_true() {
                return None;
            } else if !v.is_false() {
                clause.push(l);
            }
            i = i + 1;
        }
        proof {
            assert(cls@.subrange(0, cls@.len() as int) =~= cls@);
        }
        Some(clause)
    }

    /// Adds `clause` at level zero: a clause with a true literal is
    /// dropped; false literals are left out; an empty clause makes the
    /// solver trivially unsatisfiable; a unit clause is assigned and
    /// propagated (a conflict makes the solver trivially unsatisfiable);
    /// a longer one is attached, as a temporary clause when it holds the
    /// activating variable.
    #[verifier::rlimit(60)]
    pub fn add_clause_inner(&mut self, clause: &Vec<Lit>, kind: ClauseKind) -> (r: CRef)
        requires
            old(self).ready(),
            old(self).pos_in_trail@.len() == 0,
            forall|k: int| 0 <= k < clause@.len() ==> old(self).value.covers(#[trigger] clause@[k]) && clause@[k].var().0 <= old(self).constrain_act.0,
            forall|i: int, j: int| 0 <= i < j < clause@.len() ==> #[trigger] clause@[i] != #[trigger] clause@[j],
            clause@.len() <= MAX_CLAUSE_LEN,
            old(self).cdb.allocator.data@.len() + clause@.len() + 2 < u32::MAX,
            old(self).trail@.len() + 1 < u32::MAX,
            ({
                let f = clause@.filter(|l: Lit| old(self).value.is_unassigned(l));
                f.len() == 1 ==> kind != ClauseKind::Temporary && f[0].var() != old(self).constrain_act
            }),
        ensures
            final(self).ready(),
            final(self).nv() == old(self).nv(),
            final(self).constrain_act == old(self).constrain_act,
            final(self).pos_in_trail == old(self).pos_in_trail,
            final(self).arena().data@.len() <= old(self).arena().data@.len() + clause@.len() + 2,
            final(self).temporary_domain == old(self).temporary_domain,
            final(self).domain == old(self).domain,
            final(self).simplify == old(self).simplify,
            final(self).cdb.allocator.wasted == old(self).cdb.allocator.wasted,
            forall|d: CRef| #[trigger] old(self).watched(d) ==> final(self).watched(d),
            forall|d: CRef| #[trigger] final(self).watched(d) ==> d == r || old(self).watched(d),
            r == spec_cref_none() ==> final(self).cdb.lemmas == old(self).cdb.lemmas && final(self).cdb.learnt == old(self).cdb.learnt
                && final(self).cdb.trans == old(self).cdb.trans && final(self).cdb.temporary == old(self).cdb.temporary,
            r != spec_cref_none() ==> r.0 == old(self).cdb.allocator.data@.len() && final(self).watched(r),
            forall|k: ClauseKind| k != kind && k != ClauseKind::Temporary ==> #[trigger] final(self).cdb.list(k) == old(self).cdb.list(k),
            forall|k: ClauseKind| #[trigger] final(self).cdb.list(k) == old(self).cdb.list(k) || final(self).cdb.list(k) == old(self).cdb.list(k).push(r),
            lits_kept(*old(self), *final(self)),
            value_grows(old(self).value, final(self).value),
            old(self).trivial_unsat ==> final(self).trivial_unsat,
            crate::prop::prop_ok(*old(self), false) && !final(self).trivial_unsat ==> crate::prop::prop_ok(*final(self), false),
            kind == ClauseKind::Trans && (forall|k: int| 0 <= k < clause@.len() ==> (#[trigger] clause@[k]).var() != old(self).constrain_act)
                ==> has_clause(*final(self), clause@),
            (exists|k: int| 0 <= k < clause@.len() && old(self).value.is_true(#[trigger] clause@[k])) ==> r == spec_cref_none() && *final(self) == *old(self),
            !(exists|k: int| 0 <= k < clause@.len() && old(self).value.is_true(#[trigger] clause@[k])) ==> ({
                let f = clause@.filter(|l: Lit| old(self).value.is_unassigned(l));
                &&& f.len() == 0 ==> r == spec_cref_none() && final(self).trivial_unsat && final(self).trail == old(self).trail && final(self).value == old(self).value
                &&& f.len() == 1 ==> r == spec_cref_none() && final(self).value.is_true(f[0])
                    && final(self).trail@.len() > old(self).trail@.len()
                    && final(self).trail@.subrange(0, old(self).trail@.len() as int + 1) == old(self).trail@.push(f[0])
                    && (!final(self).trivial_unsat ==> final(self).propagated == final(self).trail@.len())
                    && (old(self).trivial_unsat ==> final(self).trivial_unsat)
                &&& f.len() >= 2 ==> {
                    let k = if (exists|i: int| 0 <= i < f.len() && (#[trigger] f[i]).var() == old(self).constrain_act) {
                        ClauseKind::Temporary
                    } else {
                        kind
                    };
                    &&& r.0 == old(self).cdb.allocator.data@.len()
                    &&& final(self).arena().lits(r) == f
                    &&& final(self).watched(r)
                    &&& final(self).cdb.list(k) == old(self).cdb.list(k).push(r)
                    &&& forall|k2: ClauseKind| k2 != k ==> final(self).cdb.list(k2) == old(self).cdb.list(k2)
                    &&& final(self).trail == old(self).trail
                    &&& final(self).value == old(self).value
                    &&& final(self).trivial_unsat == old(self).trivial_unsat
                }
            }),
    {
        let ghost pred = |l: Lit| old(self).value.is_unassigned(l);
        proof {
            lemma_filter_sub(clause@, pred);
        }
        let c = match self.simplify_clause(clause) {
            None => {
                return CRef::none();
            },
            Some(c) => c,
        };
        if c.len() == 0 {
            self.trivial_unsat = true;
            proof {
                lemma_inv_ignores_lists(*old(self), *self);
            }
            return CRef::none();
        }
        let kind0 = kind;
        let mut kind = kind;
        let mut i: usize = 0;
        while i < c.len()
            invariant
                0 <= i <= c@.len(),
                (exists|j: int| 0 <= j < i && (#[trigger] c@[j]).var() == self.constrain_act) ==> kind == ClauseKind::Temporary,
                !(exists|j: int| 0 <= j < i && (#[trigger] c@[j]).var() == self.constrain_act) ==> kind == kind0,
            decreases c@.len() - i,
        {
            if c[i].var_of() == self.constrain_act {
                kind = ClauseKind::Temporary;
            }
            proof {
                if !(exists|j: int| 0 <= j < i + 1 && (#[trigger] c@[j]).var() == self.constrain_act) {
                    assert(!(exists|j: int| 0 <= j < i && (#[trigger] c@[j]).var() == self.constrain_act)) by {
                        if exists|j: int| 0 <= j < i && (#[trigger] c@[j]).var() == self.constrain_act {
                            let j = choose|j: int| 0 <= j < i && (#[trigger] c@[j]).var() == self.constrain_act;
                            assert(0 <= j < i + 1);
                        }
                    }
                }
            }
            i = i + 1;
        }
        if c.len() == 1 {
            let l = c[0];
            proof {
                assert(c@[0] == l);
                assert(pred(l));
                assert(clause@.contains(l));
            }
            self.assign(l, CRef::none());
            let ghost s1 = *self;
            proof {
                crate::prop::lemma_assign_props(*old(self), s1, l);
            }
            let conflict = self.propagate();
            let ghost s2 = *self;
            proof {
                lemma_kept_trans(*old(self), s1, s2);
            }
            if conflict != CRef::none() {
                self.trivial_unsat = true;
            }
            proof {
                assert(s1.trail@.subrange(0, s1.trail@.len() as int) =~= s1.trail@);
                assert(self.trail@.subrange(0, old(self).trail@.len() as int + 1) =~= s1.trail@.subrange(0, s1.trail@.len() as int));
                lemma_inv_ignores_lists(s2, *self);
                assert(self.value.is_true(l)) by {
                    assert(s1.trail@[old(self).trail@.len() as int] == l);
                    assert(self.trail@[old(self).trail@.len() as int] == l);
                }
                let k = choose|k: int| 0 <= k < clause@.len() && clause@[k] == l;
                assert(self.value.is_true(clause@[k]));
            }
            return CRef::none();
        }
        proof {
            assert forall|k: int| 0 <= k < c@.len() implies ((#[trigger] c@[k]).0 as int) < 2 * self.nv() by {
                assert(clause@.contains(c@[k]));
            }
        }
        let ghost s0 = *self;
        proof {
            assert(c@.len() >= 2);
            assert(!old(self).value.is_false(c@[0]) && !old(self).value.is_false(c@[1])) by {
                assert(pred(c@[0]));
                assert(pred(c@[1]));
            }
        }
        let r = self.attach_clause(&c, kind);
        proof {
            assert forall|d: CRef, x: Lit| s0.watched(d) implies (#[trigger] self.arena().lits(d).contains(x)) == s0.arena().lits(d).contains(x) by {
                lemma_watched_valid(s0, d);
            }
            if kind0 == ClauseKind::Trans && (forall|k: int| 0 <= k < clause@.len() ==> (#[trigger] clause@[k]).var() != old(self).constrain_act) {
                assert(kind == ClauseKind::Trans) by {
                    if exists|j: int| 0 <= j < c@.len() && (#[trigger] c@[j]).var() == self.constrain_act {
                        let j = choose|j: int| 0 <= j < c@.len() && (#[trigger] c@[j]).var() == self.constrain_act;
                        assert(clause@.contains(c@[j]));
                        let k = choose|k: int| 0 <= k < clause@.len() && clause@[k] == c@[j];
                        assert(clause@[k].var() != old(self).constrain_act);
                    }
                }
                assert(self.cdb.trans@.contains(r)) by {
                    assert(self.cdb.list(ClauseKind::Trans) == s0.cdb.list(ClauseKind::Trans).push(r));
                    assert(self.cdb.trans@[self.cdb.trans@.len() - 1] == r);
                }
                assert forall|x: Lit| #[trigger] clause@.contains(x) && !self.value.is_false(x) implies self.arena().lits(r).contains(x) by {
                    let k = choose|k: int| 0 <= k < clause@.len() && clause@[k] == x;
                    assert(!old(self).value.is_true(clause@[k]));
                    assert(old(self).value.val(x).wf()) by {
                        crate::value::lemma_value_negated(&old(self).value, x);
                    }
                    clause@.lemma_filter_contains(pred, k);
                }
                assert forall|x: Lit| #[trigger] self.arena().lits(r).contains(x) implies clause@.contains(x) by {
                    let k = choose|k: int| 0 <= k < c@.len() && c@[k] == x;
                }
                assert(holds_clause(*self, r, clause@));
            }
        }
        r
    }

    /// Takes the next variable of the decision queue that has no value and
    /// assigns it at a new level: with its saved phase, or with a coin flip
    /// when it has none. Returns whether there was such a variable.
    #[verifier::rlimit(40)]
    pub fn decide(&mut self, act: &Vec<u64>) -> (r: bool)
        requires
            old(self).ready(),
            act@.len() >= old(self).vsids.heap.capacity(),
            forall|u: u32| #[trigger] old(self).vsids.members().contains(u) ==> (u as nat) < old(self).nv(),
            old(self).trail@.len() + 1 < u32::MAX,
            old(self).pos_in_trail@.len() + 1 < u32::MAX,
        ensures
            final(self).ready(),
            final(self).nv() == old(self).nv(),
            final(self).constrain_act == old(self).constrain_act,
            final(self).trivial_unsat == old(self).trivial_unsat,
            r ==> exists|lit: Lit| {
                &&& final(self).trail@ == old(self).trail@.push(lit)
                &&& old(self).vsids.members().contains(lit.var().0)
                &&& old(self).value.is_unassigned(lit)
                &&& final(self).value.is_true(lit)
                &&& final(self).reason_of(lit) == spec_cref_none()
                &&& final(self).pos_in_trail@ == old(self).pos_in_trail@.push(old(self).trail@.len() as u32)
                &&& !old(self).phase_saving@[lit.var().0 as int].spec_is_none() ==> lit.polarity() == !old(self).phase_saving@[lit.var().0 as int].spec_is_false()
                &&& (!old(self).vsids.enable_bucket && old(self).vsids.heap.ordered(act@)) ==> forall|u: u32|
                    #[trigger] old(self).vsids.members().contains(u) && old(self).value.is_unassigned(Var(u).spec_lit())
                    ==> crate::heap::key(act@, Var(u)) <= crate::heap::key(act@, lit.var())
                &&& old(self).vsids.enable_bucket ==> first_unassigned(old(self).vsids.bucket.buckets@, old(self).value, lit.var())
            },
            !r ==> {
                &&& final(self).trail == old(self).trail
                &&& final(self).value == old(self).value
                &&& final(self).pos_in_trail == old(self).pos_in_trail
                &&& final(self).vsids.members() == Set::<u32>::empty()
                &&& forall|u: u32| #[trigger] old(self).vsids.members().contains(u) ==> !old(self).value.is_unassigned(Var(u).spec_lit())
            },
    {
        let ghost m0 = self.vsids.members();
        proof {
            let ob = old(self).vsids.bucket.buckets@;
            assert forall|j: int| 0 <= j < ob.len() implies (#[trigger] ob[j])@.len() <= ob[j]@.len() && ob[j]@ == ob[j]@.take(ob[j]@.len() as int) by {
                assert(ob[j]@ =~= ob[j]@.take(ob[j]@.len() as int));
            }
        }
        loop
            invariant
                self.ready(),
                self.nv() == old(self).nv(),
                self.trail == old(self).trail,
                self.value == old(self).value,
                self.pos_in_trail == old(self).pos_in_trail,
                self.phase_saving == old(self).phase_saving,
                self.reason == old(self).reason,
                self.keeps_extras(old(self)),
                act@.len() >= self.vsids.heap.capacity(),
                old(self).trail@.len() + 1 < u32::MAX,
                old(self).pos_in_trail@.len() + 1 < u32::MAX,
                m0 == old(self).vsids.members(),
                forall|u: u32| #[trigger] self.vsids.members().contains(u) ==> m0.contains(u),
                forall|u: u32| #[trigger] m0.contains(u) ==> (u as nat) < old(self).nv(),
                forall|u: u32| #[trigger] m0.contains(u) && !self.vsids.members().contains(u) ==> !old(self).value.is_unassigned(Var(u).spec_lit()),
                self.vsids.enable_bucket == old(self).vsids.enable_bucket,
                !old(self).vsids.enable_bucket && old(self).vsids.heap.ordered(act@) ==> self.vsids.heap.ordered(act@),
                old(self).vsids.enable_bucket ==> served_assigned(old(self).vsids.bucket.buckets@, self.vsids.bucket.buckets@, old(self).value),
            decreases self.vsids.members().len(),
        {
            proof {
                lemma_bounded_finite(self.vsids.members(), old(self).nv());
            }
            let ghost mb = self.vsids.members();
            let ghost sp = *self;
            let d = match self.vsids.pop(act) {
                None => {
                    proof {
                        lemma_inv_ignores_lists(sp, *self);
                        assert forall|u: u32| #[trigger] old(self).vsids.members().contains(u) implies !old(self).value.is_unassigned(Var(u).spec_lit()) by {
                            assert(!mb.contains(u));
                        }
                    }
                    return false;
                },
                Some(d) => d,
            };
            proof {
                lemma_inv_ignores_lists(sp, *self);
                lemma_bounded_finite(self.vsids.members(), old(self).nv());
                assert(mb.contains(d.0));
                assert(m0.contains(d.0));
                if !old(self).vsids.enable_bucket && old(self).vsids.heap.ordered(act@) {
                    assert forall|u: u32| #[trigger] m0.contains(u) && old(self).value.is_unassigned(Var(u).spec_lit())
                        implies crate::heap::key(act@, Var(u)) <= crate::heap::key(act@, d) by {
                        assert(mb.contains(u));
                    }
                }
            }
            proof {
                if old(self).vsids.enable_bucket {
                    let ob = old(self).vsids.bucket.buckets@;
                    let cb = sp.vsids.bucket.buckets@;
                    let nb = self.vsids.bucket.buckets@;
                    let b = choose|b: int|
                        0 <= b < cb.len() && cb[b]@.last() == d && cb[b].len() > 0 && (forall|j: int|
                            0 <= j < b ==> (#[trigger] cb[j]).len() == 0) && nb[b]@ == cb[b]@.drop_last()
                            && (forall|j: int| 0 <= j < cb.len() && j != b ==> (#[trigger] nb[j]) == cb[j]);
                    let k = cb[b]@.len() - 1;
                    assert(cb[b]@ == ob[b]@.take(cb[b]@.len() as int));
                    assert(ob[b]@[k] == cb[b]@[k]);
                    assert(ob[b]@[k] == d);
                    if old(self).value.is_unassigned(d.spec_lit()) {
                        assert forall|j: int, m: int| 0 <= j < b && 0 <= m < ob[j]@.len() implies !old(self).value.is_unassigned((#[trigger] ob[j]@[m]).spec_lit()) by {
                            assert(cb[j].len() == 0);
                        }
                        assert(first_unassigned(ob, old(self).value, d));
                    } else {
                        assert forall|j: int| 0 <= j < ob.len() implies (#[trigger] nb[j])@.len() <= ob[j]@.len() && nb[j]@ == ob[j]@.take(nb[j]@.len() as int) by {
                            if j == b {
                                assert(nb[j]@ =~= ob[j]@.take(nb[j]@.len() as int));
                            }
                        }
                        assert forall|j: int, m: int| 0 <= j < ob.len() && nb[j]@.len() <= m < ob[j]@.len() implies !old(self).value.is_unassigned((#[trigger] ob[j]@[m]).spec_lit()) by {
                            if j != b {
                                assert(nb[j] == cb[j]);
                            }
                        }
                        assert(served_assigned(ob, nb, old(self).value));
                    }
                }
            }
            let ghost sq = *self;
            let pl = d.lit();
            if self.value.v(pl).is_none() {
                let ps = self.phase_saving[d.0 as usize];
                let pol = if ps.is_none() {
                    coin_flip(&mut self.rng)
                } else {
                    !ps.is_false()
                };
                let lit = Lit::new(d, pol);
                proof {
                    crate::value::lemma_value_negated(&self.value, pl);
                    crate::lit::lemma_negated(pl);
                    if pol {
                        crate::lit::lemma_lit_determined(lit, pl);
                    } else {
                        crate::lit::lemma_lit_determined(lit, pl.negated());
                    }
                }
                let tl = self.trail.len() as u32;
                self.pos_in_trail.push(tl);
                proof {
                    lemma_inv_ignores_lists_pos(sq, *self);
                }
                self.assign(lit, CRef::none());
                return true;
            }
            proof {
                assert(!old(self).value.is_unassigned(pl));
            }
        }
    }

    /// A solver for the transition relation of `model`: one variable per
    /// variable of the model and one more to activate constraints, the
    /// clauses of the relation (and, when `with_constraints`, the
    /// constraints as unit clauses, with the domain fixed to what they
    /// depend on), propagated at level zero. The fixed domain is the part
    /// of the constraints' closure that had no value once the clauses were
    /// in: what no literal of the trail up to that point is of. Where
    /// nothing got a value at level zero, the watch invariant of
    /// propagation holds of the result.
    #[verifier::rlimit(60)]
    pub fn from_model(rseed: u64, model: &Model, with_constraints: bool) -> (s: Solver)
        requires
            model.num_var + 3 < MAX_VAR,
            forall|i: int, k: int| 0 <= i < model.trans@.len() && 0 <= k < model.trans@[i]@.len() ==> (#[trigger] model.trans@[i]@[k]).var().0 < model.num_var,
            forall|i: int, k1: int, k2: int| 0 <= i < model.trans@.len() && 0 <= k1 < k2 < model.trans@[i]@.len() ==> #[trigger] model.trans@[i]@[k1] != #[trigger] model.trans@[i]@[k2],
            forall|i: int| 0 <= i < model.trans@.len() ==> (#[trigger] model.trans@[i])@.len() <= MAX_CLAUSE_LEN,
            cnf_size(model.trans@) + 3 * model.constraints@.len() + 3 < u32::MAX,
            with_constraints ==> forall|c: int| 0 <= c < model.constraints@.len() ==> ((#[trigger] model.constraints@[c]).var().0 as int) < model.dependence@.len(),
            with_constraints ==> model.dependence@.len() <= model.num_var,
            with_constraints ==> forall|v: int, j: int| 0 <= v < model.dependence@.len() && 0 <= j < model.dependence@[v]@.len() ==> ((#[trigger] model.dependence@[v]@[j]).0 as int) < model.dependence@.len(),
        ensures
            s.ready(),
            s.constrain_act.0 == model.num_var,
            model.num_var > 0 ==> s.nv() == model.num_var + 1,
            s.pos_in_trail@.len() == 0,
            !s.temporary_domain,
            !s.trivial_unsat ==> s.propagated == s.trail@.len(),
            s.lists_ok(),
            s.simplify.last_num_assign == s.trail@.len(),
            has_model(s, *model, with_constraints),
            with_constraints ==> s.domain.fixed == s.domain.domain.set@.len(),
            with_constraints ==> forall|k: int|
                0 <= k < s.domain.domain.set@.len() ==> crate::domain::constrain_closure(model.constraints@, model.dependence@).contains(#[trigger] s.domain.domain.set@[k]),
            with_constraints ==> forall|v: Var|
                #[trigger] crate::domain::constrain_closure(model.constraints@, model.dependence@).contains(v)
                && crate::domain::var_unassigned(s.value.data@, v) ==> s.domain.domain.set@.contains(v),
            with_constraints && !s.trivial_unsat ==> exists|p: int|
                #[trigger] domain_off_prefix(s, crate::domain::constrain_closure(model.constraints@, model.dependence@), p),
            s.trail@.len() == 0 && !s.trivial_unsat ==> crate::prop::prop_ok(s, false),
    {
        let mut s = Solver::new(rseed);
        while s.num_var() < model.num_var
            invariant
                s.ready(),
                s.constrain_act.0 <= model.num_var,
                model.num_var + 3 < MAX_VAR,
                s.nv() == 0 || s.nv() == s.constrain_act.0 + 1,
                s.constrain_act.0 > 0 ==> s.nv() == s.constrain_act.0 + 1,
                s.pos_in_trail@.len() == 0,
                !s.temporary_domain,
                s.trail@.len() == 0,
                s.cdb.allocator.data@.len() == 0,
                s.domain.domain.set@.len() == 0,
                s.domain.fixed == 0,
                s.cdb.lemmas@.len() == 0,
                s.cdb.learnt@.len() == 0,
                s.cdb.trans@.len() == 0,
                s.cdb.allocator.wasted == 0,
                s.simplify.last_num_assign == 0,
                crate::prop::prop_ok(s, false),
            decreases model.num_var - s.constrain_act.0,
        {
            s.new_var();
        }
        let mut i: usize = 0;
        while i < model.trans.len()
            invariant
                0 <= i <= model.trans@.len(),
                s.ready(),
                s.constrain_act.0 == model.num_var,
                model.num_var + 3 < MAX_VAR,
                model.num_var > 0 ==> s.nv() == model.num_var + 1,
                s.pos_in_trail@.len() == 0,
                !s.temporary_domain,
                s.cdb.allocator.data@.len() <= cnf_size(model.trans@.subrange(0, i as int)),
                cnf_size(model.trans@) + 3 * model.constraints@.len() + 3 < u32::MAX,
                s.domain.domain.set@.len() == 0,
                s.domain.fixed == 0,
                forall|i2: int, k: int| 0 <= i2 < model.trans@.len() && 0 <= k < model.trans@[i2]@.len() ==> (#[trigger] model.trans@[i2]@[k]).var().0 < model.num_var,
                forall|i2: int, k1: int, k2: int| 0 <= i2 < model.trans@.len() && 0 <= k1 < k2 < model.trans@[i2]@.len() ==> #[trigger] model.trans@[i2]@[k1] != #[trigger] model.trans@[i2]@[k2],
                forall|i2: int| 0 <= i2 < model.trans@.len() ==> (#[trigger] model.trans@[i2])@.len() <= MAX_CLAUSE_LEN,
                forall|i2: int| 0 <= i2 < i ==> has_clause(s, #[trigger] model.trans@[i2]@),
                distinct(s.cdb.trans@),
                all_watched(s, s.cdb.trans@),
                s.cdb.lemmas@.len() == 0,
                s.cdb.learnt@.len() == 0,
                s.cdb.allocator.wasted == 0,
                s.simplify.last_num_assign == 0,
                !s.trivial_unsat ==> crate::prop::prop_ok(s, false),
            decreases model.trans@.len() - i,
        {
            let cls = &model.trans[i];
            proof {
                s.lemma_trail_bound();
                lemma_cnf_size_prefix(model.trans@, i + 1);
                assert(model.trans@.subrange(0, i + 1).drop_last() =~= model.trans@.subrange(0, i as int));
                assert(model.trans@.subrange(0, i + 1).last() == model.trans@[i as int]);
                lemma_cnf_size_prefix(model.trans@, i as int);
                if cls@.len() > 0 {
                    assert(model.num_var > 0) by {
                        assert(model.trans@[i as int]@[0].var().0 < model.num_var);
                    }
                }
                assert forall|k: int| 0 <= k < cls@.len() implies s.value.covers(#[trigger] cls@[k]) && cls@[k].var().0 <= s.constrain_act.0 by {
                    assert(model.trans@[i as int]@[k] == cls@[k]);
                }
                let f = cls@.filter(|l: Lit| s.value.is_unassigned(l));
                lemma_filter_sub(cls@, |l: Lit| s.value.is_unassigned(l));
                if f.len() == 1 {
                    assert(cls@.contains(f[0]));
                }
            }
            let ghost before = s;
            let r = s.add_clause_inner(cls, ClauseKind::Trans);
            proof {
                lemma_trans_listed(before, s, r);
                assert forall|i2: int| 0 <= i2 < i + 1 implies has_clause(s, #[trigger] model.trans@[i2]@) by {
                    if i2 < i {
                        let c2 = model.trans@[i2]@;
                        assert forall|k: int| 0 <= k < c2.len() implies (#[trigger] c2[k]).0 < 2 * before.nv() by {
                            assert(model.trans@[i2]@[k].var().0 < model.num_var);
                        }
                        lemma_add_keeps(before, s, r, c2);
                    } else {
                        assert forall|k: int| 0 <= k < cls@.len() implies (#[trigger] cls@[k]).var() != before.constrain_act by {
                            assert(model.trans@[i as int]@[k].var().0 < model.num_var);
                        }
                    }
                }
            }
            i = i + 1;
        }
        proof {
            assert(model.trans@.subrange(0, model.trans@.len() as int) =~= model.trans@);
        }
        if with_constraints {
            let mut c: usize = 0;
            while c < model.constraints.len()
                invariant
                    0 <= c <= model.constraints@.len(),
                    s.ready(),
                    s.constrain_act.0 == model.num_var,
                    model.num_var + 3 < MAX_VAR,
                    model.num_var > 0 ==> s.nv() == model.num_var + 1,
                    s.pos_in_trail@.len() == 0,
                    !s.temporary_domain,
                    s.cdb.allocator.data@.len() + 3 * (model.constraints@.len() - c) + 3 < u32::MAX,
                    s.domain.domain.set@.len() == 0,
                    forall|c2: int| 0 <= c2 < model.constraints@.len() ==> ((#[trigger] model.constraints@[c2]).var().0 as int) < model.dependence@.len(),
                    model.dependence@.len() <= model.num_var,
                    forall|i2: int| 0 <= i2 < model.trans@.len() ==> has_clause(s, #[trigger] model.trans@[i2]@),
                    forall|i2: int, k: int| 0 <= i2 < model.trans@.len() && 0 <= k < model.trans@[i2]@.len() ==> (#[trigger] model.trans@[i2]@[k]).var().0 < model.num_var,
                    forall|c2: int| 0 <= c2 < c ==> has_clause(s, seq![#[trigger] model.constraints@[c2]]),
                    distinct(s.cdb.trans@),
                    all_watched(s, s.cdb.trans@),
                    s.cdb.lemmas@.len() == 0,
                    s.cdb.learnt@.len() == 0,
                    s.cdb.allocator.wasted == 0,
                    s.simplify.last_num_assign == 0,
                    !s.trivial_unsat ==> crate::prop::prop_ok(s, false),
                decreases model.constraints@.len() - c,
            {
                let mut unit: Vec<Lit> = Vec::new();
                unit.push(model.constraints[c]);
                proof {
                    s.lemma_trail_bound();
                    let l = model.constraints@[c as int];
                    assert(unit@[0] == l);
                    assert(model.num_var > 0);
                    let f = unit@.filter(|x: Lit| s.value.is_unassigned(x));
                    lemma_filter_sub(unit@, |x: Lit| s.value.is_unassigned(x));
                    if f.len() == 1 {
                        assert(unit@.contains(f[0]));
                    }
                }
                let ghost before = s;
                proof {
                    assert(unit@ =~= seq![model.constraints@[c as int]]);
                }
                let r = s.add_clause_inner(&unit, ClauseKind::Trans);
                proof {
                    lemma_trans_listed(before, s, r);
                    assert forall|i2: int| 0 <= i2 < model.trans@.len() implies has_clause(s, #[trigger] model.trans@[i2]@) by {
                        let c2 = model.trans@[i2]@;
                        assert forall|k: int| 0 <= k < c2.len() implies (#[trigger] c2[k]).0 < 2 * before.nv() by {
                            assert(model.trans@[i2]@[k].var().0 < model.num_var);
                        }
                        lemma_add_keeps(before, s, r, c2);
                    }
                    assert forall|c2: int| 0 <= c2 < c + 1 implies has_clause(s, seq![#[trigger] model.constraints@[c2]]) by {
                        if c2 < c {
                            let u = seq![model.constraints@[c2]];
                            assert(u[0] == model.constraints@[c2]);
                            assert forall|k: int| 0 <= k < u.len() implies (#[trigger] u[k]).0 < 2 * before.nv() by {}
                            lemma_add_keeps(before, s, r, u);
                        } else {
                            assert forall|k: int| 0 <= k < unit@.len() implies (#[trigger] unit@[k]).var() != before.constrain_act by {}
                        }
                    }
                }
                c = c + 1;
            }
            proof {
                s.lemma_trail_bound();
            }
            let ghost s0 = s;
            proof {
                assert(s.domain.domain.set@.len() <= s.domain.domain.has.len()) by {
                    lemma_domain_set_bound(&s.domain.domain);
                }
                if model.dependence@.len() > 0 {
                    assert(model.num_var > 0);
                }
            }
            s.domain.calculate_constrain(&model.constraints, &model.dependence, &s.value);
            proof {
                lemma_inv_ignores_lists(s0, s);
                if !s.trivial_unsat {
                    crate::prop::lemma_prop_ok_domain(s0, s);
                }
                if !s.trivial_unsat {
                    let cl = crate::domain::constrain_closure(model.constraints@, model.dependence@);
                    let bound = Set::new(|u: Var| (u.0 as int) < model.dependence@.len());
                    assert(crate::domain::closed_over(bound, model.constraints@, model.dependence@));
                    assert(crate::prop::trail_complete(s));
                    assert forall|v: Var| #[trigger] s.domain.domain.set@.contains(v) <==> (cl.contains(v)
                        && forall|t: int| 0 <= t < s.trail@.len() ==> (#[trigger] s.trail@[t]).var() != v) by {
                        if s.domain.domain.set@.contains(v) {
                            let k = choose|k: int| 0 <= k < s.domain.domain.set@.len() && s.domain.domain.set@[k] == v;
                            assert(cl.contains(s.domain.domain.set@[k]));
                            assert(crate::domain::var_unassigned(s0.value.data@, v));
                        }
                        if cl.contains(v) {
                            assert(bound.contains(v));
                            lemma_unassigned_off_trail(s, v);
                        }
                    }
                }
                assert forall|i2: int| 0 <= i2 < model.trans@.len() implies has_clause(s, #[trigger] model.trans@[i2]@) by {
                    assert(has_clause(s0, model.trans@[i2]@));
                }
                assert forall|c2: int| 0 <= c2 < model.constraints@.len() implies has_clause(s, seq![#[trigger] model.constraints@[c2]]) by {
                    assert(has_clause(s0, seq![model.constraints@[c2]]));
                }
            }
        }
        let ghost s1 = s;
        proof {
            assert(has_model(s1, *model, with_constraints));
            if !s1.trivial_unsat {
                assert(crate::prop::prop_ok(s1, false));
            }
        }
        let conflict = s.propagate();
        let ghost s2 = s;
        if conflict != CRef::none() {
            s.trivial_unsat = true;
        }
        proof {
            assert forall|i2: int| 0 <= i2 < model.trans@.len() implies has_clause(s, #[trigger] model.trans@[i2]@) by {
                let c2 = model.trans@[i2]@;
                assert forall|k: int| 0 <= k < c2.len() implies s1.value.covers(#[trigger] c2[k]) by {
                    assert(model.trans@[i2]@[k].var().0 < model.num_var);
                }
                lemma_has_clause_kept(s1, s2, c2);
            }
            if with_constraints {
                assert forall|c2: int| 0 <= c2 < model.constraints@.len() implies has_clause(s, seq![#[trigger] model.constraints@[c2]]) by {
                    let u = seq![model.constraints@[c2]];
                    assert(u[0] == model.constraints@[c2]);
                    assert forall|k: int| 0 <= k < u.len() implies s1.value.covers(#[trigger] u[k]) by {}
                    lemma_has_clause_kept(s1, s2, u);
                }
            }
        }
        proof {
            lemma_inv_ignores_lists(s2, s);
            s.lemma_trail_bound();
            assert(all_watched(s, s.cdb.trans@)) by {
                assert forall|k: int| 0 <= k < s.cdb.trans@.len() implies s.watched(#[trigger] s.cdb.trans@[k]) by {
                    assert(s1.watched(s1.cdb.trans@[k]));
                }
            }
        }
        let ghost s3 = s;
        s.simplify_satisfied();
        proof {
            if with_constraints {
                assert forall|v: Var|
                    #[trigger] crate::domain::constrain_closure(model.constraints@, model.dependence@).contains(v)
                    && crate::domain::var_unassigned(s.value.data@, v) implies s.domain.domain.set@.contains(v) by {
                    let l = v.spec_lit();
                    assert(s1.value.val(l).wf()) by {
                        assert(s1.value.data@[2 * v.0].wf());
                    }
                    if !crate::domain::var_unassigned(s1.value.data@, v) {
                        assert(s1.value.covers(l));
                        if s1.value.is_true(l) {
                            assert(s2.value.is_true(l));
                        } else {
                            assert(s1.value.is_false(l));
                            assert(s2.value.is_false(l));
                        }
                    }
                }
            }
            if s3.simplify.last_num_assign < s3.trail@.len() {
                assert forall|i2: int| 0 <= i2 < model.trans@.len() implies has_clause(s, #[trigger] model.trans@[i2]@) by {
                    assert(has_clause(s3, model.trans@[i2]@));
                    lemma_has_clause_simplified(s3, s, model.trans@[i2]@);
                }
                if with_constraints {
                    assert forall|c2: int| 0 <= c2 < model.constraints@.len() implies has_clause(s, seq![#[trigger] model.constraints@[c2]]) by {
                        assert(has_clause(s3, seq![model.constraints@[c2]]));
                        lemma_has_clause_simplified(s3, s, seq![model.constraints@[c2]]);
                    }
                }
            }
            if with_constraints && !s.trivial_unsat {
                let cl = crate::domain::constrain_closure(model.constraints@, model.dependence@);
                let p = s1.trail@.len() as int;
                assert(!s1.trivial_unsat);
                assert forall|t: int| 0 <= t < p implies #[trigger] s.trail@[t] == s1.trail@[t] by {
                    assert(s2.trail@.subrange(0, p)[t] == s1.trail@[t]);
                }
                assert forall|v: Var| #[trigger] s.domain.domain.set@.contains(v) <==> (cl.contains(v)
                    && forall|t: int| 0 <= t < p ==> (#[trigger] s.trail@[t]).var() != v) by {
                    assert(s1.domain.domain.set@.contains(v) <==> (cl.contains(v)
                        && forall|t: int| 0 <= t < s1.trail@.len() ==> (#[trigger] s1.trail@[t]).var() != v));
                    if cl.contains(v) && (forall|t: int| 0 <= t < p ==> (#[trigger] s.trail@[t]).var() != v) {
                        assert forall|t: int| 0 <= t < s1.trail@.len() implies (#[trigger] s1.trail@[t]).var() != v by {
                            assert(s.trail@[t] == s1.trail@[t]);
                        }
                    }
                    if s.domain.domain.set@.contains(v) {
                        assert forall|t: int| 0 <= t < p implies (#[trigger] s.trail@[t]).var() != v by {
                            assert(s.trail@[t] == s1.trail@[t]);
                        }
                    }
                }
                assert(domain_off_prefix(s, cl, p));
            }
        }
        s
    }

    /// The clause at `c` has a true literal or one outside the domain.
    pub open spec fn clause_holds(&self, c: CRef) -> bool {
        exists|k: int|
            0 <= k < self.arena().clause_len(c) && (self.value.is_true(#[trigger] self.arena().lits(c)[k])
                || !self.domain.domain.has@[self.arena().lits(c)[k].var().0 as int])
    }

    /// Whether the clause at `c` has a true literal or one outside the
    /// domain.
    fn check_clause(&self, c: CRef) -> (b: bool)
        requires
            self.inv(),
            watchable(self.arena(), c, 2 * self.nv()),
        ensures
            b == self.clause_holds(c),
    {
        let n = self.cdb.allocator.clause_len_of(c);
        let mut i: usize = 0;
        while i < n
            invariant
                self.inv(),
                watchable(self.arena(), c, 2 * self.nv()),
                n == self.arena().clause_len(c),
                0 <= i <= n,
                forall|k: int| 0 <= k < i ==> !(self.value.is_true(#[trigger] self.arena().lits(c)[k])
                    || !self.domain.domain.has@[self.arena().lits(c)[k].var().0 as int]),
            decreases n - i,
        {
            let l = self.cdb.allocator.lit(c, i);
            if self.value.v(l).is_true() || !self.domain.has(l.var_of()) {
                return true;
            }
            i = i + 1;
        }
        false
    }

    /// Whether every clause in `list` holds.
    fn check_list(&self, list: &Vec<CRef>) -> (b: bool)
        requires
            self.inv(),
            forall|i: int| 0 <= i < list@.len() ==> watchable(self.arena(), #[trigger] list@[i], 2 * self.nv()),
        ensures
            b == forall|i: int| 0 <= i < list@.len() ==> self.clause_holds(#[trigger] list@[i]),
    {
        let mut i: usize = 0;
        while i < list.len()
            invariant
                self.inv(),
                forall|j: int| 0 <= j < list@.len() ==> watchable(self.arena(), #[trigger] list@[j], 2 * self.nv()),
                0 <= i <= list@.len(),
                forall|j: int| 0 <= j < i ==> self.clause_holds(#[trigger] list@[j]),
            decreases list@.len() - i,
        {
            if !self.check_clause(list[i]) {
                return false;
            }
            i = i + 1;
        }
        true
    }

    /// Whether the assignment is a model: every literal of `assump` true,
    /// and every clause with a true literal or a literal outside the
    /// domain.
    pub fn verify(&self, assump: &Vec<Lit>) -> (b: bool)
        requires
            self.inv(),
            forall|i: int| 0 <= i < assump@.len() ==> self.value.covers(#[trigger] assump@[i]),
            forall|i: int| 0 <= i < self.cdb.lemmas@.len() ==> watchable(self.arena(), #[trigger] self.cdb.lemmas@[i], 2 * self.nv()),
            forall|i: int| 0 <= i < self.cdb.trans@.len() ==> watchable(self.arena(), #[trigger] self.cdb.trans@[i], 2 * self.nv()),
            forall|i: int| 0 <= i < self.cdb.learnt@.len() ==> watchable(self.arena(), #[trigger] self.cdb.learnt@[i], 2 * self.nv()),
            forall|i: int| 0 <= i < self.cdb.temporary@.len() ==> watchable(self.arena(), #[trigger] self.cdb.temporary@[i], 2 * self.nv()),
        ensures
            b == ((forall|i: int| 0 <= i < assump@.len() ==> self.value.is_true(#[trigger] assump@[i]))
                && (forall|i: int| 0 <= i < self.cdb.lemmas@.len() ==> self.clause_holds(#[trigger] self.cdb.lemmas@[i]))
                && (forall|i: int| 0 <= i < self.cdb.trans@.len() ==> self.clause_holds(#[trigger] self.cdb.trans@[i]))
                && (forall|i: int| 0 <= i < self.cdb.learnt@.len() ==> self.clause_holds(#[trigger] self.cdb.learnt@[i]))
                && (forall|i: int| 0 <= i < self.cdb.temporary@.len() ==> self.clause_holds(#[trigger] self.cdb.temporary@[i]))),
    {
        let mut i: usize = 0;
        while i < assump.len()
            invariant
                self.value.wf(),
                forall|j: int| 0 <= j < assump@.len() ==> self.value.covers(#[trigger] assump@[j]),
                0 <= i <= assump@.len(),
                forall|j: int| 0 <= j < i ==> self.value.is_true(#[trigger] assump@[j]),
            decreases assump@.len() - i,
        {
            if !self.value.v(assump[i]).is_true() {
                return false;
            }
            i = i + 1;
        }
        self.check_list(&self.cdb.lemmas) && self.check_list(&self.cdb.trans) && self.check_list(&self.cdb.learnt)
            && self.check_list(&self.cdb.temporary)
    }

    /// Drops the literal at position `j` (not one of the two watched
    /// ones) of the watched clause at `c`, moving the last literal into
    /// its place.
    #[verifier::rlimit(100)]
    #[verifier::spinoff_prover]
    pub fn remove_lit_at(&mut self, c: CRef, j: usize)
        requires
            old(self).inv(),
            old(self).watched(c),
            2 <= j < old(self).arena().clause_len(c),
        ensures
            final(self).inv(),
            final(self).nv() == old(self).nv(),
            final(self).arena().lits(c) == old(self).arena().lits(c).update(j as int, old(self).arena().lits(c).last()).drop_last(),
            final(self).arena().header(c) != old(self).arena().header(c),
            h_size(final(self).arena().header(c)) == h_size(old(self).arena().header(c)) - 1,
            crate::cdb::h_removed(final(self).arena().header(c)) == crate::cdb::h_removed(old(self).arena().header(c)),
            forall|d: CRef| #[trigger] old(self).arena().valid(d) && apart(old(self).arena(), c, d) ==> final(self).arena().valid(d)
                && final(self).arena().lits(d) == old(self).arena().lits(d) && final(self).arena().header(d) == old(self).arena().header(d),
            forall|d: CRef| #[trigger] final(self).watched(d) == old(self).watched(d),
            final(self).arena().data@.len() == old(self).arena().data@.len(),
            final(self).cdb.allocator.wasted == old(self).cdb.allocator.wasted,
            final(self).cdb.lemmas == old(self).cdb.lemmas,
            final(self).cdb.trans == old(self).cdb.trans,
            final(self).cdb.learnt == old(self).cdb.learnt,
            final(self).cdb.temporary == old(self).cdb.temporary,
            final(self).watchers == old(self).watchers,
            final(self).value == old(self).value,
            final(self).trail == old(self).trail,
            final(self).reason == old(self).reason,
            final(self).level == old(self).level,
            final(self).propagated == old(self).propagated,
            final(self).pos_in_trail == old(self).pos_in_trail,
            final(self).domain == old(self).domain,
            final(self).vsids == old(self).vsids,
            final(self).phase_saving == old(self).phase_saving,
            final(self).constrain_act == old(self).constrain_act,
            final(self).trivial_unsat == old(self).trivial_unsat,
            final(self).temporary_domain == old(self).temporary_domain,
    {
        let ghost o = *old(self);
        let ghost (qc, ic) = choose|q: int, i: int| #[trigger] o.is_watch(q, i) && o.wclause(q, i) == c;
        proof {
            assert(watchable(o.arena(), c, 2 * o.nv()));
        }
        self.cdb.allocator.swap_remove(c, j);
        proof {
            let oa = o.arena();
            let a = self.arena();
            let ol = oa.lits(c);
            let nl = a.lits(c);
            assert(nl[0] == ol[0] && nl[1] == ol[1]);
            assert(h_size(a.header(c)) == h_size(oa.header(c)) - 1);
            assert(watchable(a, c, 2 * o.nv())) by {
                assert forall|k: int| 0 <= k < a.clause_len(c) implies (#[trigger] a.lits(c)[k]).0 < 2 * o.nv() by {
                    if k == j {
                        assert(nl[k] == ol[ol.len() - 1]);
                    } else {
                        assert(nl[k] == ol[k]);
                    }
                }
                assert forall|x: int, y: int| 0 <= x < y < a.clause_len(c) implies #[trigger] a.lits(c)[x] != #[trigger] a.lits(c)[y] by {
                    let xx = if x == j { ol.len() - 1 } else { x };
                    let yy = if y == j { ol.len() - 1 } else { y };
                    assert(nl[x] == ol[xx]);
                    assert(nl[y] == ol[yy]);
                }
            }
            assert forall|d: CRef| #[trigger] oa.valid(d) && apart(oa, c, d) implies a.valid(d) && a.lits(d) == oa.lits(d) && a.header(d) == oa.header(d) by {
                assert(a.data@[d.0 as int] == oa.data@[d.0 as int]);
                assert(a.lits(d) =~= oa.lits(d)) by {
                    assert forall|k: int| 0 <= k < a.clause_len(d) implies a.lits(d)[k] == oa.lits(d)[k] by {
                        assert(a.data@[d.0 + 1 + k] == oa.data@[d.0 + 1 + k]);
                    }
                }
            }
            // every other watched clause is apart from `c` and unchanged
            assert forall|q: int, i: int| #[trigger] o.is_watch(q, i) && o.wclause(q, i) != c implies apart(oa, c, o.wclause(q, i)) by {
                assert(o.wclause(qc, ic) == o.wclause(q, i) || apart(oa, o.wclause(qc, ic), o.wclause(q, i)));
            }
            assert forall|q: int, i: int|
                0 <= q < self.watchers.wtrs.len() && 0 <= i < self.watchers.wtrs@[q].len() implies {
                    let w = #[trigger] self.watchers.wtrs@[q]@[i];
                    &&& watchable(a, w.clause, self.watchers.wtrs.len() as nat)
                    &&& (a.lits(w.clause)[0].0 == crate::lit::neg_code(q as u32) || a.lits(w.clause)[1].0
                        == crate::lit::neg_code(q as u32))
                    &&& (w.blocker.0 as int) < self.watchers.wtrs.len()
                } by {
                assert(o.is_watch(q, i));
                let d = o.wclause(q, i);
                if d != c {
                    assert(apart(oa, c, d));
                }
            }
            assert(self.watchers.wf(a));
            assert forall|t: int|
                0 <= t < self.trail.len() implies (#[trigger] self.trail@[t]).0 < 2 * self.nv() && self.value.is_true(self.trail@[t]) by {
                assert(o.trail@[t] == self.trail@[t]);
            }
            assert forall|q1: int, i1: int, q2: int, i2: int|
                self.is_watch(q1, i1) && self.is_watch(q2, i2) implies #[trigger] self.wclause(q1, i1)
                    == #[trigger] self.wclause(q2, i2) || apart(a, self.wclause(q1, i1), self.wclause(q2, i2)) by {
                assert(o.is_watch(q1, i1) && o.is_watch(q2, i2));
                let c1 = o.wclause(q1, i1);
                let c2 = o.wclause(q2, i2);
                assert(c1 == c2 || apart(oa, c1, c2));
                if c1 != c && c1 != c2 {
                    assert(apart(oa, c, c1));
                }
                if c2 != c && c1 != c2 {
                    assert(apart(oa, c, c2));
                }
            }
            assert forall|t: int|
                0 <= t < self.trail.len() && self.reason_of(#[trigger] self.trail@[t]) != spec_cref_none()
                    implies self.explains(self.reason_of(self.trail@[t]), self.trail@[t]) by {
                let x = self.trail@[t];
                let r = self.reason_of(x);
                assert(o.trail@[t] == x);
                assert(o.explains(r, x));
                assert(o.wclause(qc, ic) == r || apart(oa, r, o.wclause(qc, ic)));
                if r == c {
                    assert forall|k: int| 1 <= k < a.clause_len(r) implies self.value.is_false(#[trigger] a.lits(r)[k]) by {
                        if k == j {
                            assert(nl[k] == ol[ol.len() - 1]);
                        } else {
                            assert(nl[k] == ol[k]);
                        }
                    }
                    assert forall|q: int, i: int| #[trigger] self.is_watch(q, i) implies self.wclause(q, i) == r || apart(a, r, self.wclause(q, i)) by {
                        assert(o.is_watch(q, i));
                        let d = o.wclause(q, i);
                        if d != c {
                            assert(apart(oa, c, d));
                            assert(oa.valid(d));
                        }
                    }
                } else {
                    assert(apart(oa, c, r));
                    assert(oa.valid(r));
                    assert forall|k: int| 1 <= k < a.clause_len(r) implies self.value.is_false(#[trigger] a.lits(r)[k]) by {
                        assert(oa.lits(r)[k] == a.lits(r)[k]);
                    }
                    assert forall|q: int, i: int| #[trigger] self.is_watch(q, i) implies self.wclause(q, i) == r || apart(a, r, self.wclause(q, i)) by {
                        assert(o.is_watch(q, i));
                        let d = o.wclause(q, i);
                        assert(d == r || apart(oa, r, d));
                        if d != c && d != r {
                            assert(apart(oa, c, d));
                            assert(oa.valid(d));
                        }
                    }
                }
            }
            assert forall|d: CRef| #[trigger] self.watched(d) == o.watched(d) by {
                if o.watched(d) {
                    let (q, i) = choose|q: int, i: int| #[trigger] o.is_watch(q, i) && o.wclause(q, i) == d;
                    assert(self.is_watch(q, i));
                }
                if self.watched(d) {
                    let (q, i) = choose|q: int, i: int| #[trigger] self.is_watch(q, i) && self.wclause(q, i) == d;
                    assert(o.is_watch(q, i));
                }
            }
        }
    }

    /// Some literal of the clause at `c` is true.
    pub open spec fn satisfied(&self, c: CRef) -> bool {
        exists|k: int| 0 <= k < self.arena().clause_len(c) && self.value.is_true(#[trigger] self.arena().lits(c)[k])
    }

    /// No literal of the clause at `c` past the two watched ones is false.
    pub open spec fn clean_tail(&self, c: CRef) -> bool {
        forall|k: int| 2 <= k < self.arena().clause_len(c) ==> !self.value.is_false(#[trigger] self.arena().lits(c)[k])
    }

    /// Drops the false literals past the first two of the watched clause
    /// at `c`.
    fn drop_false_tail(&mut self, c: CRef)
        requires
            old(self).inv(),
            old(self).watched(c),
        ensures
            final(self).inv(),
            final(self).nv() == old(self).nv(),
            final(self).clean_tail(c),
            final(self).arena().clause_len(c) <= old(self).arena().clause_len(c),
            forall|l: Lit| #[trigger] final(self).arena().lits(c).contains(l) ==> old(self).arena().lits(c).contains(l),
            forall|k: int| 0 <= k < old(self).arena().clause_len(c) && !old(self).value.is_false(#[trigger] old(self).arena().lits(c)[k])
                ==> final(self).arena().lits(c).contains(old(self).arena().lits(c)[k]),
            crate::cdb::h_removed(final(self).arena().header(c)) == crate::cdb::h_removed(old(self).arena().header(c)),
            forall|d: CRef| d != c && #[trigger] old(self).watched(d) ==> final(self).arena().valid(d)
                && final(self).arena().lits(d) == old(self).arena().lits(d) && final(self).arena().header(d) == old(self).arena().header(d),
            forall|d: CRef| #[trigger] final(self).watched(d) == old(self).watched(d),
            final(self).arena().data@.len() == old(self).arena().data@.len(),
            final(self).cdb.allocator.wasted == old(self).cdb.allocator.wasted,
            final(self).cdb.lemmas == old(self).cdb.lemmas,
            final(self).cdb.trans == old(self).cdb.trans,
            final(self).cdb.learnt == old(self).cdb.learnt,
            final(self).cdb.temporary == old(self).cdb.temporary,
            final(self).value == old(self).value,
            final(self).trail == old(self).trail,
            final(self).reason == old(self).reason,
            final(self).level == old(self).level,
            final(self).propagated == old(self).propagated,
            final(self).pos_in_trail == old(self).pos_in_trail,
            final(self).domain == old(self).domain,
            final(self).vsids == old(self).vsids,
            final(self).phase_saving == old(self).phase_saving,
            final(self).constrain_act == old(self).constrain_act,
            final(self).trivial_unsat == old(self).trivial_unsat,
            final(self).temporary_domain == old(self).temporary_domain,
    {
        let ghost o = *old(self);
        let mut j: usize = 2;
        while j < self.cdb.allocator.clause_len_of(c)
            invariant
                self.inv(),
                self.nv() == o.nv(),
                self.watched(c),
                j >= 2,
                forall|k: int| 2 <= k < j && k < self.arena().clause_len(c) ==> !self.value.is_false(#[trigger] self.arena().lits(c)[k]),
                self.arena().clause_len(c) <= o.arena().clause_len(c),
                forall|l: Lit| #[trigger] self.arena().lits(c).contains(l) ==> o.arena().lits(c).contains(l),
                forall|k: int| 0 <= k < o.arena().clause_len(c) && !o.value.is_false(#[trigger] o.arena().lits(c)[k])
                    ==> self.arena().lits(c).contains(o.arena().lits(c)[k]),
                crate::cdb::h_removed(self.arena().header(c)) == crate::cdb::h_removed(o.arena().header(c)),
                forall|d: CRef| d != c && #[trigger] o.watched(d) ==> self.arena().valid(d)
                    && self.arena().lits(d) == o.arena().lits(d) && self.arena().header(d) == o.arena().header(d),
                forall|d: CRef| #[trigger] self.watched(d) == o.watched(d),
                self.arena().data@.len() == o.arena().data@.len(),
                self.cdb.allocator.wasted == o.cdb.allocator.wasted,
                self.cdb.lemmas == o.cdb.lemmas,
                self.cdb.trans == o.cdb.trans,
                self.cdb.learnt == o.cdb.learnt,
                self.cdb.temporary == o.cdb.temporary,
                self.watchers == o.watchers,
                self.value == o.value,
                self.trail == o.trail,
                self.reason == o.reason,
                self.level == o.level,
                self.propagated == o.propagated,
                self.pos_in_trail == o.pos_in_trail,
                self.domain == o.domain,
                self.vsids == o.vsids,
                self.phase_saving == o.phase_saving,
                self.constrain_act == o.constrain_act,
                self.trivial_unsat == o.trivial_unsat,
                self.temporary_domain == o.temporary_domain,
            decreases self.arena().clause_len(c) - j + self.arena().clause_len(c),
        {
            proof {
                let (q, i) = choose|q: int, i: int| #[trigger] self.is_watch(q, i) && self.wclause(q, i) == c;
                assert(watchable(self.arena(), c, 2 * self.nv()));
            }
            let l = self.cdb.allocator.lit(c, j);
            if self.value.v(l).is_false() {
                let ghost s1 = *self;
                proof {
                    let (qc, ic) = choose|q: int, i: int| #[trigger] s1.is_watch(q, i) && s1.wclause(q, i) == c;
                    assert forall|d: CRef| d != c && #[trigger] s1.watched(d) implies apart(s1.arena(), c, d) by {
                        let (q, i) = choose|q: int, i: int| #[trigger] s1.is_watch(q, i) && s1.wclause(q, i) == d;
                        assert(s1.wclause(qc, ic) == s1.wclause(q, i) || apart(s1.arena(), s1.wclause(qc, ic), s1.wclause(q, i)));
                        let (q2, i2) = choose|q: int, i: int| #[trigger] s1.is_watch(q, i) && s1.wclause(q, i) == d;
                        assert(watchable(s1.arena(), d, 2 * s1.nv()));
                    }
                }
                self.remove_lit_at(c, j);
                proof {
                    let ol = s1.arena().lits(c);
                    let nl = self.arena().lits(c);
                    assert(nl.len() == ol.len() - 1);
                    assert(self.arena().clause_len(c) == s1.arena().clause_len(c) - 1);
                    assert forall|x: Lit| #[trigger] nl.contains(x) implies o.arena().lits(c).contains(x) by {
                        let k = choose|k: int| 0 <= k < nl.len() && nl[k] == x;
                        if k == j {
                            assert(ol.contains(ol[ol.len() - 1]));
                        } else {
                            assert(ol.contains(ol[k]));
                        }
                    }
                    assert forall|k: int| 0 <= k < o.arena().clause_len(c) && !o.value.is_false(#[trigger] o.arena().lits(c)[k])
                        implies nl.contains(o.arena().lits(c)[k]) by {
                        let x = o.arena().lits(c)[k];
                        assert(ol.contains(x));
                        let k2 = choose|k2: int| 0 <= k2 < ol.len() && ol[k2] == x;
                        if k2 == j {
                            assert(self.value.is_false(x));
                        } else if k2 == ol.len() - 1 {
                            assert(nl[j as int] == x);
                        } else {
                            assert(nl[k2] == x);
                        }
                    }
                    assert forall|k: int| 2 <= k < j && k < self.arena().clause_len(c) implies !self.value.is_false(#[trigger] self.arena().lits(c)[k]) by {
                        assert(nl[k] == ol[k]);
                    }
                    assert forall|d: CRef| d != c && #[trigger] o.watched(d) implies self.arena().valid(d)
                        && self.arena().lits(d) == o.arena().lits(d) && self.arena().header(d) == o.arena().header(d) by {
                        assert(s1.watched(d));
                        assert(s1.arena().valid(d));
                    }
                }
            } else {
                j = j + 1;
            }
        }
    }

    /// Queues the unassigned variables of the domain for decisions, once per
    /// round, unless the domain was fixed for several rounds.
    pub fn prepare_vsids(&mut self, act: &Vec<u64>)
        requires
            old(self).ready(),
            act@.len() >= old(self).vsids.heap.capacity(),
            old(self).vsids.heap.heap@.len() + old(self).domain.domain.set@.len() + 1 < u32::MAX,
        ensures
            final(self).ready(),
            old(self).prepared_vsids || old(self).temporary_domain ==> *final(self) == *old(self),
            !old(self).prepared_vsids && !old(self).temporary_domain ==> {
                &&& final(self).prepared_vsids
                &&& final(self).vsids.members() == old(self).vsids.members() + unassigned_vars(old(self).domain.domain.set@, old(self).value)
                &&& *final(self) == (Solver { vsids: final(self).vsids, prepared_vsids: true, ..*old(self) })
            },
    {
        if self.prepared_vsids || self.temporary_domain {
            return;
        }
        self.prepared_vsids = true;
        let ghost o = *old(self);
        let ghost s1 = *self;
        proof {
            lemma_inv_ignores_lists(o, s1);
        }
        let ds = self.domain.domains();
        let n = ds.len();
        let mut i: usize = 0;
        while i < n
            invariant
                0 <= i <= n,
                n == o.domain.domain.set@.len(),
                ds@ == o.domain.domain.set@,
                self.ready(),
                act@.len() >= self.vsids.heap.capacity(),
                self.vsids.heap.capacity() == o.vsids.heap.capacity(),
                self.vsids.heap.heap@.len() <= o.vsids.heap.heap@.len() + i,
                o.vsids.heap.heap@.len() + o.domain.domain.set@.len() + 1 < u32::MAX,
                *self == (Solver { vsids: self.vsids, prepared_vsids: true, ..o }),
                o.domain.wf(),
                o.domain.domain.has.len() == o.nv(),
                self.vsids.members() == o.vsids.members() + unassigned_vars(o.domain.domain.set@.subrange(0, i as int), o.value),
            decreases n - i,
        {
            let d = ds[i];
            proof {
                assert(o.domain.domain.set@[i as int] == d);
                assert(d.0 < o.domain.domain.has.len());
            }
            let l = d.lit();
            let ghost m0 = self.vsids.members();
            if self.value.v(l).is_none() {
                let ghost s2 = *self;
                self.vsids.push(d, act);
                proof {
                    lemma_inv_ignores_lists(s2, *self);
                }
            }
            proof {
                let pre = o.domain.domain.set@.subrange(0, i as int);
                let post = o.domain.domain.set@.subrange(0, i + 1);
                assert(post == pre.push(d));
                assert forall|u: u32| #[trigger] unassigned_vars(post, o.value).contains(u)
                    == (unassigned_vars(pre, o.value).contains(u) || (u == d.0 && o.value.is_unassigned(d.spec_lit()))) by {
                    if post.contains(Var(u)) && Var(u) != d {
                        let k = choose|k: int| 0 <= k < post.len() && post[k] == Var(u);
                        assert(pre[k] == Var(u));
                    }
                    if pre.contains(Var(u)) {
                        let k = choose|k: int| 0 <= k < pre.len() && pre[k] == Var(u);
                        assert(post[k] == Var(u));
                    }
                    if u == d.0 {
                        assert(post[i as int] == Var(u));
                    }
                }
                assert(self.vsids.members() =~= o.vsids.members() + unassigned_vars(post, o.value));
            }
            i = i + 1;
        }
        proof {
            assert(o.domain.domain.set@.subrange(0, n as int) =~= o.domain.domain.set@);
        }
    }

    /// The clause at `cref` is the reason of its first literal, which is
    /// true: freeing it would leave that literal unexplained.
    pub fn locked(&self, cref: CRef) -> (b: bool)
        requires
            self.inv(),
            watchable(self.arena(), cref, 2 * self.nv()),
        ensures
            b == (self.value.is_true(self.arena().lits(cref)[0]) && self.reason_of(self.arena().lits(cref)[0]) == cref),
    {
        let l = self.cdb.allocator.lit(cref, 0);
        let v = l.var_of();
        proof {
            assert(self.arena().lits(cref)[0] == l);
            crate::lit::lemma_negated(l);
        }
        self.value.v(l).is_true() && self.reason[v.0 as usize] == cref
    }

    /// Ends the domain that `set_domain` fixed for the next calls.
    pub fn unset_domain(&mut self)
        ensures
            !final(self).temporary_domain,
            *final(self) == (Solver { temporary_domain: false, ..*old(self) }),
    {
        self.temporary_domain = false;
    }

    /// The latches of `latchs` that the assignment fixes, each as the
    /// literal that is true, in the order of `latchs`.
    pub fn trivial_predecessor(&self, latchs: &Vec<Var>) -> (r: Vec<Lit>)
        requires
            self.value.wf(),
            forall|k: int| 0 <= k < latchs@.len() ==> (#[trigger] latchs@[k]).0 <= MAX_VAR
                && self.value.covers(latchs@[k].spec_lit()),
        ensures
            r@ == assigned_lits(latchs@, self.value),
    {
        let mut out: Vec<Lit> = Vec::new();
        let mut i: usize = 0;
        while i < latchs.len()
            invariant
                0 <= i <= latchs@.len(),
                self.value.wf(),
                forall|k: int| 0 <= k < latchs@.len() ==> (#[trigger] latchs@[k]).0 <= MAX_VAR
                    && self.value.covers(latchs@[k].spec_lit()),
                out@ == assigned_lits(latchs@.subrange(0, i as int), self.value),
            decreases latchs@.len() - i,
        {
            let lit = latchs[i].lit();
            proof {
                assert(latchs@.subrange(0, i + 1).drop_last() == latchs@.subrange(0, i as int));
                assert(latchs@.subrange(0, i + 1).last() == latchs@[i as int]);
            }
            match self.sat_value(lit) {
                Some(v) => {
                    out.push(lit.not_if(!v));
                },
                None => {},
            }
            i = i + 1;
        }
        proof {
            assert(latchs@.subrange(0, latchs@.len() as int) == latchs@);
        }
        out
    }

    /// Of the watched, distinct clauses `clauses`: detaches and frees those
    /// with a true literal, drops the false literals past the first two of
    /// the others, and returns the others.
    #[verifier::rlimit(100)]
    #[verifier::spinoff_prover]
    pub fn simplify_satisfied_clauses(&mut self, clauses: Vec<CRef>) -> (r: Vec<CRef>)
        requires
            old(self).inv(),
            forall|k: int| 0 <= k < clauses@.len() ==> old(self).watched(#[trigger] clauses@[k]),
            forall|a: int, b: int| 0 <= a < b < clauses@.len() ==> #[trigger] clauses@[a] != #[trigger] clauses@[b],
            old(self).cdb.allocator.wasted + copied(old(self).cdb.allocator, clauses@.to_set()).len() < usize::MAX,
        ensures
            final(self).inv(),
            final(self).nv() == old(self).nv(),
            forall|c: CRef| #[trigger] r@.contains(c) <==> clauses@.contains(c) && !old(self).satisfied(c),
            forall|c: CRef| #[trigger] clauses@.contains(c) && old(self).satisfied(c) ==> !final(self).watched(c),
            forall|c: CRef| #[trigger] r@.contains(c) ==> final(self).watched(c) && kept_clause(*old(self), *final(self), c),
            forall|d: CRef| #[trigger] old(self).watched(d) && !clauses@.contains(d) ==> final(self).watched(d)
                && pending_clause(*old(self), *final(self), d),
            forall|d: CRef| #[trigger] final(self).watched(d) ==> old(self).watched(d),
            forall|a: int, b: int| 0 <= a < b < r@.len() ==> #[trigger] r@[a] != #[trigger] r@[b],
            final(self).arena().data@.len() == old(self).arena().data@.len(),
            copied(old(self).cdb.allocator, satisfied_in(*old(self), clauses@)).finite(),
            final(self).cdb.allocator.wasted <= old(self).cdb.allocator.wasted + copied(old(self).cdb.allocator, satisfied_in(*old(self), clauses@)).len(),
            final(self).value == old(self).value,
            final(self).trail == old(self).trail,
            final(self).propagated == old(self).propagated,
            final(self).reason == old(self).reason,
            final(self).pos_in_trail == old(self).pos_in_trail,
            final(self).domain == old(self).domain,
            final(self).vsids == old(self).vsids,
            final(self).phase_saving == old(self).phase_saving,
            final(self).constrain_act == old(self).constrain_act,
            final(self).trivial_unsat == old(self).trivial_unsat,
            final(self).temporary_domain == old(self).temporary_domain,
            final(self).cdb.lemmas == old(self).cdb.lemmas,
            final(self).cdb.trans == old(self).cdb.trans,
            final(self).cdb.learnt == old(self).cdb.learnt,
            final(self).cdb.temporary == old(self).cdb.temporary,
    {
        let ghost o = *old(self);
        let ghost cs = clauses@;
        let ghost dlen = o.arena().data@.len();
        let mut clauses = clauses;
        let mut i: usize = 0;
        let ghost live = Set::new(|c: CRef| o.watched(c));
        proof {
            assert forall|k: int| 0 <= k < clauses@.len() implies #[trigger] pending_clause(o, *self, clauses@[k]) by {}
            assert forall|c: CRef| #[trigger] clauses@.contains(c) implies cs.contains(c) by {}
            lemma_live_watched(o, live);
            assert(dropped(cs, clauses@) =~= Set::<CRef>::empty());
            assert(copied(o.cdb.allocator, Set::<CRef>::empty()) =~= Set::<int>::empty());
            assert forall|c: CRef| #[trigger] cs.to_set().contains(c) implies o.cdb.allocator.valid(c) by {
                assert(live.contains(c));
            }
            crate::gc::lemma_copied_bound(o.cdb.allocator, cs.to_set());
        }
        while i < clauses.len()
            invariant
                self.inv(),
                self.nv() == o.nv(),
                0 <= i <= clauses@.len(),
                self.arena().data@.len() == dlen,
                simplify_progress(o, *self, cs, clauses@, i as int),
                live == Set::new(|c: CRef| o.watched(c)),
                forall|c: CRef| #[trigger] cs.contains(c) ==> live.contains(c),
                live_ok(o.cdb.allocator, live),
                copied(o.cdb.allocator, cs.to_set()).finite(),
                o.cdb.allocator.wasted + copied(o.cdb.allocator, cs.to_set()).len() < usize::MAX,
                copied(o.cdb.allocator, dropped(cs, clauses@)).finite(),
                self.cdb.allocator.wasted <= o.cdb.allocator.wasted + copied(o.cdb.allocator, dropped(cs, clauses@)).len(),
                self.value == o.value,
                self.trail == o.trail,
                self.propagated == o.propagated,
                self.reason == o.reason,
                self.pos_in_trail == o.pos_in_trail,
                self.domain == o.domain,
                self.vsids == o.vsids,
                self.phase_saving == o.phase_saving,
                self.constrain_act == o.constrain_act,
                self.trivial_unsat == o.trivial_unsat,
                self.temporary_domain == o.temporary_domain,
                self.cdb.lemmas == o.cdb.lemmas,
                self.cdb.trans == o.cdb.trans,
                self.cdb.learnt == o.cdb.learnt,
                self.cdb.temporary == o.cdb.temporary,
            decreases clauses@.len() - i,
        {
            let cid = clauses[i];
            proof {
                assert(pending_clause(o, *self, clauses@[i as int]));
                assert(self.watched(cid));
                let (q, w) = choose|q: int, w: int| #[trigger] self.is_watch(q, w) && self.wclause(q, w) == cid;
                assert(watchable(self.arena(), cid, 2 * self.nv()));
            }
            let sat = self.clause_satisfied(cid);
            proof {
                assert(self.satisfied(cid) == o.satisfied(cid));
            }
            if sat {
                let ghost cb = clauses@;
                let ghost s1 = *self;
                clauses.swap_remove(i);
                proof {
                    lemma_dropped_grows(o, live, cs, cb, clauses@, i as int, cid);
                    assert(h_size(s1.arena().header(cid)) == h_size(o.arena().header(cid)));
                }
                self.detach_clause(cid);
                proof {
                    lemma_progress_after_detach(o, s1, *self, cs, cb, clauses@, i as int, cid);
                }
            } else {
                let ghost s1 = *self;
                self.drop_false_tail(cid);
                proof {
                    lemma_progress_after_trim(o, s1, *self, cs, clauses@, i as int, cid);
                }
                i = i + 1;
            }
        }
        proof {
            assert forall|c: CRef| #[trigger] clauses@.contains(c) <==> cs.contains(c) && !o.satisfied(c) by {
                if clauses@.contains(c) {
                    let k = choose|k: int| 0 <= k < clauses@.len() && clauses@[k] == c;
                    assert(kept_clause(o, *self, clauses@[k]));
                } else if cs.contains(c) {
                    assert(o.satisfied(c));
                }
            }
            assert forall|c: CRef| #[trigger] clauses@.contains(c) implies self.watched(c) && kept_clause(o, *self, c) by {
                let k = choose|k: int| 0 <= k < clauses@.len() && clauses@[k] == c;
                assert(kept_clause(o, *self, clauses@[k]));
            }
            assert(dropped(cs, clauses@) =~= satisfied_in(o, cs)) by {
                assert forall|c: CRef| #[trigger] dropped(cs, clauses@).contains(c) == satisfied_in(o, cs).contains(c) by {
                    if cs.contains(c) && clauses@.contains(c) {
                        assert(!o.satisfied(c));
                    }
                }
            }
        }
        clauses
    }
}

/// The clause at `c`, as `s` holds it, was not satisfied in `o`, has no
/// false literal past its first two, holds only literals it held in `o`,
/// and keeps every literal of `o` that was not false there.
pub open spec fn kept_clause(o: Solver, s: Solver, c: CRef) -> bool {
    &&& !o.satisfied(c)
    &&& s.clean_tail(c)
    &&& forall|l: Lit| #[trigger] s.arena().lits(c).contains(l) ==> o.arena().lits(c).contains(l)
    &&& forall|k: int| 0 <= k < o.arena().clause_len(c) && !o.value.is_false(#[trigger] o.arena().lits(c)[k])
        ==> s.arena().lits(c).contains(o.arena().lits(c)[k])
}

/// The clause at `c` is held in `s` as it was in `o`.
pub open spec fn pending_clause(o: Solver, s: Solver, c: CRef) -> bool {
    &&& s.arena().lits(c) == o.arena().lits(c)
    &&& s.arena().header(c) == o.arena().header(c)
}

/// Where the simplification of the list `cs` stands in `s`: the list
/// `cl` is what is left of it, distinct and watched; its first `i` are
/// kept, the rest untouched; what left the list was satisfied and is
/// no longer watched.
pub open spec fn simplify_progress(o: Solver, s: Solver, cs: Seq<CRef>, cl: Seq<CRef>, i: int) -> bool {
    &&& forall|a: int, b: int| 0 <= a < b < cl.len() ==> #[trigger] cl[a] != #[trigger] cl[b]
    &&& forall|c: CRef| #[trigger] cl.contains(c) ==> cs.contains(c)
    &&& forall|k: int| 0 <= k < cl.len() ==> s.watched(#[trigger] cl[k])
    &&& forall|k: int| i <= k < cl.len() ==> pending_clause(o, s, #[trigger] cl[k])
    &&& forall|k: int| 0 <= k < i ==> kept_clause(o, s, #[trigger] cl[k])
    &&& forall|c: CRef| #[trigger] cs.contains(c) && !cl.contains(c) ==> o.satisfied(c) && !s.watched(c)
    &&& forall|d: CRef| #[trigger] o.watched(d) && !cs.contains(d) ==> s.watched(d) && pending_clause(o, s, d)
    &&& forall|d: CRef| #[trigger] s.watched(d) ==> o.watched(d)
}

/// Two watched clauses of `s` are either the same or apart, and a watched
/// clause can be watched.
pub(crate) proof fn lemma_watched_apart(s: Solver, c: CRef, d: CRef)
    requires
        s.inv(),
        s.watched(c),
        s.watched(d),
    ensures
        c == d || apart(s.arena(), c, d),
        watchable(s.arena(), d, 2 * s.nv()),
{
    let (qc, ic) = choose|q: int, i: int| #[trigger] s.is_watch(q, i) && s.wclause(q, i) == c;
    let (q, i) = choose|q: int, i: int| #[trigger] s.is_watch(q, i) && s.wclause(q, i) == d;
    assert(s.wclause(qc, ic) == s.wclause(q, i) || apart(s.arena(), s.wclause(qc, ic), s.wclause(q, i)));
    assert(watchable(s.arena(), d, 2 * s.nv()));
}

/// After the satisfied clause at position `i` of the list left it and was
/// detached, the simplification still stands.
proof fn lemma_progress_after_detach(o: Solver, s1: Solver, s2: Solver, cs: Seq<CRef>, cb: Seq<CRef>, ca: Seq<CRef>, i: int, cid: CRef)
    requires
        s1.inv(),
        simplify_progress(o, s1, cs, cb, i),
        0 <= i < cb.len(),
        cb[i] == cid,
        s1.satisfied(cid),
        s1.value == o.value,
        s2.value == s1.value,
        ca == cb.update(i, cb.last()).drop_last(),
        s2.watchers.unwatched(cid),
        forall|d: CRef| d != cid && #[trigger] s1.watched(d) ==> s2.watched(d),
        forall|d: CRef| #[trigger] s2.watched(d) ==> d != cid && s1.watched(d),
        forall|d: CRef| #[trigger] s1.arena().valid(d) && apart(s1.arena(), cid, d) ==> s2.arena().valid(d)
            && s2.arena().lits(d) == s1.arena().lits(d) && s2.arena().header(d) == s1.arena().header(d),
    ensures
        simplify_progress(o, s2, cs, ca, i),
{
    assert(pending_clause(o, s1, cb[i]));
    assert(o.satisfied(cid)) by {
        let k = choose|k: int| 0 <= k < s1.arena().clause_len(cid) && s1.value.is_true(#[trigger] s1.arena().lits(cid)[k]);
        assert(o.value.is_true(o.arena().lits(cid)[k]));
    }
    assert(s1.watched(cid));
    assert forall|a: int, b: int| 0 <= a < b < ca.len() implies #[trigger] ca[a] != #[trigger] ca[b] by {
        let aa = if a == i { cb.len() - 1 } else { a };
        let bb = if b == i { cb.len() - 1 } else { b };
        assert(ca[a] == cb[aa] && ca[b] == cb[bb]);
    }
    assert forall|c: CRef| #[trigger] ca.contains(c) implies cs.contains(c) by {
        let k = choose|k: int| 0 <= k < ca.len() && ca[k] == c;
        let kk = if k == i { cb.len() - 1 } else { k };
        assert(cb[kk] == c);
        assert(cb.contains(c));
    }
    assert forall|k: int| 0 <= k < ca.len() implies s2.watched(#[trigger] ca[k]) by {
        let kk = if k == i { cb.len() - 1 } else { k };
        assert(ca[k] == cb[kk]);
        assert(s1.watched(cb[kk]));
        assert(cb[kk] != cid);
    }
    assert forall|k: int| i <= k < ca.len() implies pending_clause(o, s2, #[trigger] ca[k]) by {
        let kk = if k == i { cb.len() - 1 } else { k };
        assert(ca[k] == cb[kk]);
        let d = cb[kk];
        assert(s1.watched(d));
        assert(d != cid);
        lemma_watched_apart(s1, cid, d);
        assert(pending_clause(o, s1, cb[kk]));
    }
    assert forall|k: int| 0 <= k < i implies kept_clause(o, s2, #[trigger] ca[k]) by {
        assert(ca[k] == cb[k]);
        let d = cb[k];
        assert(s1.watched(d));
        assert(d != cid);
        lemma_watched_apart(s1, cid, d);
        assert(kept_clause(o, s1, cb[k]));
        assert(s2.arena().lits(d) == s1.arena().lits(d));
    }
    assert forall|d: CRef| #[trigger] s2.watched(d) implies o.watched(d) by {
        assert(s1.watched(d));
    }
    assert forall|d: CRef| #[trigger] o.watched(d) && !cs.contains(d) implies s2.watched(d) && pending_clause(o, s2, d) by {
        assert(cb.contains(cid));
        assert(s1.watched(d) && pending_clause(o, s1, d));
        assert(d != cid);
        lemma_watched_apart(s1, cid, d);
    }
    assert forall|c: CRef| #[trigger] cs.contains(c) && !ca.contains(c) implies o.satisfied(c) && !s2.watched(c) by {
        if c == cid {
            assert(o.satisfied(cid));
            if s2.watched(cid) {
                let (q, w) = choose|q: int, w: int| #[trigger] s2.is_watch(q, w) && s2.wclause(q, w) == cid;
                assert(s2.watchers.wtrs@[q]@[w].clause != cid);
            }
        } else {
            if cb.contains(c) {
                let k = choose|k: int| 0 <= k < cb.len() && cb[k] == c;
                if k == i {
                } else if k == cb.len() - 1 {
                    assert(ca[i] == c);
                    assert(ca.contains(c));
                } else {
                    assert(ca[k] == c);
                    assert(ca.contains(c));
                }
            }
            assert(!cb.contains(c));
            assert(!s1.watched(c));
        }
    }
}

/// After the unsatisfied clause at position `i` of the list was trimmed,
/// the simplification stands one position further.
proof fn lemma_progress_after_trim(o: Solver, s1: Solver, s2: Solver, cs: Seq<CRef>, cl: Seq<CRef>, i: int, cid: CRef)
    requires
        s1.inv(),
        simplify_progress(o, s1, cs, cl, i),
        0 <= i < cl.len(),
        cl[i] == cid,
        !o.satisfied(cid),
        s1.value == o.value,
        s2.value == s1.value,
        s2.clean_tail(cid),
        forall|l: Lit| #[trigger] s2.arena().lits(cid).contains(l) ==> s1.arena().lits(cid).contains(l),
        forall|k: int| 0 <= k < s1.arena().clause_len(cid) && !s1.value.is_false(#[trigger] s1.arena().lits(cid)[k])
            ==> s2.arena().lits(cid).contains(s1.arena().lits(cid)[k]),
        forall|d: CRef| d != cid && #[trigger] s1.watched(d) ==> s2.arena().valid(d)
            && s2.arena().lits(d) == s1.arena().lits(d) && s2.arena().header(d) == s1.arena().header(d),
        forall|d: CRef| #[trigger] s2.watched(d) == s1.watched(d),
    ensures
        simplify_progress(o, s2, cs, cl, i + 1),
{
    assert(pending_clause(o, s1, cl[i]));
    assert forall|k: int| 0 <= k < cl.len() implies s2.watched(#[trigger] cl[k]) by {
        assert(s1.watched(cl[k]));
    }
    assert forall|k: int| i + 1 <= k < cl.len() implies pending_clause(o, s2, #[trigger] cl[k]) by {
        assert(cl[k] != cid);
        assert(s1.watched(cl[k]));
        assert(pending_clause(o, s1, cl[k]));
    }
    assert forall|k: int| 0 <= k < i + 1 implies kept_clause(o, s2, #[trigger] cl[k]) by {
        if k < i {
            assert(cl[k] != cid);
            assert(s1.watched(cl[k]));
            assert(kept_clause(o, s1, cl[k]));
        }
    }
    assert forall|c: CRef| #[trigger] cs.contains(c) && !cl.contains(c) implies o.satisfied(c) && !s2.watched(c) by {
        assert(!s1.watched(c));
    }
    assert forall|d: CRef| #[trigger] s2.watched(d) implies o.watched(d) by {
        assert(s1.watched(d));
    }
    assert forall|d: CRef| #[trigger] o.watched(d) && !cs.contains(d) implies s2.watched(d) && pending_clause(o, s2, d) by {
        assert(cl.contains(cid));
        assert(s1.watched(d) && pending_clause(o, s1, d));
        assert(d != cid);
    }
}

/// One more factor `d` adds `d` to the product.
pub(crate) proof fn lemma_mul_succ(n: int, d: int)
    requires
        n >= 0,
        d >= 0,
    ensures
        (n + 1) * d == n * d + d,
        n * d >= 0,
{
    assert((n + 1) * d == n * d + d) by (nonlinear_arith);
    assert(n * d >= 0) by (nonlinear_arith)
        requires n >= 0, d >= 0;
}

/// A smaller factor gives a smaller product.
pub(crate) proof fn lemma_mul_le(a: int, b: int, d: int)
    requires
        0 <= a <= b,
        d >= 0,
    ensures
        a * d <= b * d,
{
    assert(a * d <= b * d) by (nonlinear_arith)
        requires 0 <= a <= b, d >= 0;
}

/// The literals of the variables of `vars` that `value` fixes, each as the
/// one that is true, in the order of `vars`.
pub open spec fn assigned_lits(vars: Seq<Var>, value: Value) -> Seq<Lit>
    decreases vars.len(),
{
    if vars.len() == 0 {
        Seq::empty()
    } else {
        let rest = assigned_lits(vars.drop_last(), value);
        let l = vars.last().spec_lit();
        if value.is_true(l) {
            rest.push(l)
        } else if value.is_false(l) {
            rest.push(l.negated())
        } else {
            rest
        }
    }
}

/// The variables of `vars` that `value` leaves unassigned.
pub open spec fn unassigned_vars(vars: Seq<Var>, value: Value) -> Set<u32> {
    Set::new(|u: u32| vars.contains(Var(u)) && value.is_unassigned(Var(u).spec_lit()))
}

/// The clauses of `cs` not left in `cl`.
pub open spec fn dropped(cs: Seq<CRef>, cl: Seq<CRef>) -> Set<CRef> {
    Set::new(|c: CRef| cs.contains(c) && !cl.contains(c))
}

/// The clauses of `cs` that `s` satisfies.
pub open spec fn satisfied_in(s: Solver, cs: Seq<CRef>) -> Set<CRef> {
    Set::new(|c: CRef| cs.contains(c) && s.satisfied(c))
}

/// The clauses of `live` lie in `a`, each with a literal, apart from each
/// other.
pub open spec fn live_ok(a: Allocator, live: Set<CRef>) -> bool {
    &&& forall|c: CRef| #[trigger] live.contains(c) ==> a.valid(c) && crate::cdb::h_len(a.header(c)) > 0
    &&& forall|c1: CRef, c2: CRef| #[trigger] live.contains(c1) && #[trigger] live.contains(c2) ==> c1 == c2 || apart(&a, c1, c2)
}

/// The watched clauses of a solver lie apart in its arena.
pub(crate) proof fn lemma_live_watched(o: Solver, live: Set<CRef>)
    requires
        o.inv(),
        live == Set::new(|c: CRef| o.watched(c)),
    ensures
        live_ok(o.cdb.allocator, live),
{
    assert forall|c: CRef| #[trigger] live.contains(c) implies o.cdb.allocator.valid(c) && crate::cdb::h_len(o.cdb.allocator.header(c)) > 0 by {
        let (q, i) = choose|q: int, i: int| #[trigger] o.is_watch(q, i) && o.wclause(q, i) == c;
        assert(watchable(o.arena(), c, 2 * o.nv()));
    }
    assert forall|c1: CRef, c2: CRef| #[trigger] live.contains(c1) && #[trigger] live.contains(c2) implies c1 == c2 || apart(&o.cdb.allocator, c1, c2) by {
        let (q1, i1) = choose|q: int, i: int| #[trigger] o.is_watch(q, i) && o.wclause(q, i) == c1;
        let (q2, i2) = choose|q: int, i: int| #[trigger] o.is_watch(q, i) && o.wclause(q, i) == c2;
        assert(o.wclause(q1, i1) == o.wclause(q2, i2) || apart(o.arena(), o.wclause(q1, i1), o.wclause(q2, i2)));
    }
}

/// Dropping the clause at position `i` of the list adds its words to those
/// of the clauses dropped before, and the whole stays within the words of
/// the list.
proof fn lemma_dropped_grows(o: Solver, live: Set<CRef>, cs: Seq<CRef>, cb: Seq<CRef>, ca: Seq<CRef>, i: int, cid: CRef)
    requires
        live_ok(o.cdb.allocator, live),
        forall|c: CRef| #[trigger] cs.contains(c) ==> live.contains(c),
        forall|c: CRef| #[trigger] cb.contains(c) ==> cs.contains(c),
        forall|a: int, b: int| 0 <= a < b < cb.len() ==> #[trigger] cb[a] != #[trigger] cb[b],
        0 <= i < cb.len(),
        cb[i] == cid,
        ca == cb.update(i, cb.last()).drop_last(),
        copied(o.cdb.allocator, dropped(cs, cb)).finite(),
        copied(o.cdb.allocator, cs.to_set()).finite(),
    ensures
        dropped(cs, ca) == dropped(cs, cb).insert(cid),
        copied(o.cdb.allocator, dropped(cs, ca)).finite(),
        copied(o.cdb.allocator, dropped(cs, ca)).len() == copied(o.cdb.allocator, dropped(cs, cb)).len() + h_size(o.cdb.allocator.header(cid)),
        copied(o.cdb.allocator, dropped(cs, ca)).len() <= copied(o.cdb.allocator, cs.to_set()).len(),
{
    let a = o.cdb.allocator;
    assert(dropped(cs, ca) =~= dropped(cs, cb).insert(cid)) by {
        assert forall|c: CRef| #[trigger] dropped(cs, ca).contains(c) == dropped(cs, cb).insert(cid).contains(c) by {
            if ca.contains(c) {
                let k = choose|k: int| 0 <= k < ca.len() && ca[k] == c;
                let kk = if k == i { cb.len() - 1 } else { k };
                assert(cb[kk] == c);
                assert(cb.contains(c));
                if c == cid {
                    assert(kk != i);
                }
            }
            if cb.contains(c) && c != cid {
                let k = choose|k: int| 0 <= k < cb.len() && cb[k] == c;
                assert(k != i);
                if k == cb.len() - 1 {
                    assert(ca[i] == c);
                } else {
                    assert(ca[k] == c);
                }
                assert(ca.contains(c));
            }
            if c == cid {
                assert(cb.contains(cid));
                assert(cs.contains(cid));
            }
        }
    }
    assert(cb.contains(cid));
    assert(dropped(cs, cb).subset_of(live));
    lemma_copied_room(a, live, dropped(cs, cb), cid);
    assert(copied(a, dropped(cs, ca)).subset_of(copied(a, cs.to_set()))) by {
        assert forall|k: int| #[trigger] copied(a, dropped(cs, ca)).contains(k) implies copied(a, cs.to_set()).contains(k) by {
            let c = choose|c: CRef| #[trigger] dropped(cs, ca).contains(c) && crate::gc::words(a, c).contains(k);
            assert(cs.to_set().contains(c));
        }
    }
    vstd::set_lib::lemma_len_subset(copied(a, dropped(cs, ca)), copied(a, cs.to_set()));
}

/// The clause at `c` holds only literals of `cls`, and every literal of
/// `cls` that is not false in `s`.
pub open spec fn holds_clause(s: Solver, c: CRef, cls: Seq<Lit>) -> bool {
    &&& forall|l: Lit| #[trigger] s.arena().lits(c).contains(l) ==> cls.contains(l)
    &&& forall|l: Lit| #[trigger] cls.contains(l) && !s.value.is_false(l) ==> s.arena().lits(c).contains(l)
}

/// The solver has the clause `cls`: it is trivially unsatisfiable, a
/// literal of `cls` is true, or a watched transition clause holds `cls`
/// without its false literals.
pub open spec fn has_clause(s: Solver, cls: Seq<Lit>) -> bool {
    ||| s.trivial_unsat
    ||| exists|k: int| 0 <= k < cls.len() && s.value.is_true(#[trigger] cls[k])
    ||| exists|c: CRef| #[trigger] s.cdb.trans@.contains(c) && s.watched(c) && holds_clause(s, c, cls)
}

/// A clause the solver has stays had when the watched clauses keep their
/// literals, the assignment only grows, the transition clauses stay, and
/// triviality stays.
pub proof fn lemma_has_clause_kept(o: Solver, s: Solver, cls: Seq<Lit>)
    requires
        has_clause(o, cls),
        lits_kept(o, s),
        value_grows(o.value, s.value),
        forall|d: CRef| #[trigger] o.watched(d) ==> s.watched(d),
        forall|c: CRef| #[trigger] o.cdb.trans@.contains(c) ==> s.cdb.trans@.contains(c),
        o.trivial_unsat ==> s.trivial_unsat,
        forall|k: int| 0 <= k < cls.len() ==> o.value.covers(#[trigger] cls[k]),
    ensures
        has_clause(s, cls),
{
    if !o.trivial_unsat && !(exists|k: int| 0 <= k < cls.len() && o.value.is_true(#[trigger] cls[k])) {
        let c = choose|c: CRef| #[trigger] o.cdb.trans@.contains(c) && o.watched(c) && holds_clause(o, c, cls);
        assert(s.cdb.trans@.contains(c) && s.watched(c));
        assert forall|l: Lit| #[trigger] s.arena().lits(c).contains(l) implies cls.contains(l) by {
            assert(o.arena().lits(c).contains(l));
        }
        assert forall|l: Lit| #[trigger] cls.contains(l) && !s.value.is_false(l) implies s.arena().lits(c).contains(l) by {
            let k = choose|k: int| 0 <= k < cls.len() && cls[k] == l;
            assert(o.value.covers(cls[k]));
            if o.value.is_false(l) {
                assert(s.value.is_false(l));
            }
            assert(o.arena().lits(c).contains(l));
        }
        assert(holds_clause(s, c, cls));
    } else if !o.trivial_unsat {
        let k = choose|k: int| 0 <= k < cls.len() && o.value.is_true(#[trigger] cls[k]);
        assert(o.value.covers(cls[k]));
        assert(s.value.is_true(cls[k]));
    }
}


/// With every true literal on the trail, a variable has no value exactly
/// when no trail literal is of it.
proof fn lemma_unassigned_off_trail(s: Solver, v: Var)
    requires
        s.inv(),
        crate::prop::trail_complete(s),
        (v.0 as int) < s.nv(),
    ensures
        crate::domain::var_unassigned(s.value.data@, v) <==> forall|t: int| 0 <= t < s.trail@.len() ==> (#[trigger] s.trail@[t]).var() != v,
{
    let l = v.spec_lit();
    assert(l.var() == v);
    assert(s.value.covers(l));
    crate::value::lemma_value_negated(&s.value, l);
    crate::lit::lemma_negated(l);
    if crate::domain::var_unassigned(s.value.data@, v) {
        assert(s.value.is_unassigned(l));
        assert forall|t: int| 0 <= t < s.trail@.len() implies (#[trigger] s.trail@[t]).var() != v by {
            let x = s.trail@[t];
            if x.var() == v {
                crate::lit::lemma_same_var(x, l);
                assert(s.value.is_true(x));
            }
        }
    } else {
        assert(!s.value.is_unassigned(l));
        if s.value.is_true(l) {
            assert(s.trail@.contains(l));
            let t = choose|t: int| 0 <= t < s.trail@.len() && s.trail@[t] == l;
            assert(s.trail@[t].var() == v);
        } else {
            assert(s.value.is_false(l));
            let n = l.negated();
            assert(s.value.is_true(n));
            assert(s.trail@.contains(n));
            let t = choose|t: int| 0 <= t < s.trail@.len() && s.trail@[t] == n;
            assert(s.trail@[t].var() == v);
        }
    }
}

/// The domain of `s` holds exactly the variables of `cl` that none of the
/// first `p` trail literals is of: those that had no value when the trail
/// was `p` long.
pub open spec fn domain_off_prefix(s: Solver, cl: Set<Var>, p: int) -> bool {
    &&& 0 <= p <= s.trail@.len()
    &&& forall|v: Var| #[trigger] s.domain.domain.set@.contains(v) <==> (cl.contains(v)
        && forall|t: int| 0 <= t < p ==> (#[trigger] s.trail@[t]).var() != v)
}

/// A clause counts as holding as soon as one of its literals is true or
/// has its variable outside the domain, whatever its other literals; and
/// a clause that does not hold has every literal not true and inside the
/// domain.
pub proof fn lemma_clause_holds_by_literal(s: Solver, c: CRef, k: int)
    requires
        0 <= k < s.arena().clause_len(c),
    ensures
        s.value.is_true(s.arena().lits(c)[k]) ==> s.clause_holds(c),
        !s.domain.domain.has@[s.arena().lits(c)[k].var().0 as int] ==> s.clause_holds(c),
        !s.clause_holds(c) ==> !s.value.is_true(s.arena().lits(c)[k]) && s.domain.domain.has@[s.arena().lits(c)[k].var().0 as int],
{
}

/// The solver has every transition clause of `model` and, when
/// `with_constraints`, every constraint of it as a unit clause.
pub open spec fn has_model(s: Solver, model: Model, with_constraints: bool) -> bool {
    &&& forall|i: int| 0 <= i < model.trans@.len() ==> has_clause(s, #[trigger] model.trans@[i]@)
    &&& with_constraints ==> forall|c: int| 0 <= c < model.constraints@.len() ==> has_clause(s, seq![#[trigger] model.constraints@[c]])
}

/// Adding a clause keeps the clauses had before: what `add_clause_inner`
/// states of one step, applied to each.
proof fn lemma_add_keeps(o: Solver, s: Solver, r: CRef, cls: Seq<Lit>)
    requires
        has_clause(o, cls),
        o.inv(),
        lits_kept(o, s),
        value_grows(o.value, s.value),
        forall|d: CRef| #[trigger] o.watched(d) ==> s.watched(d),
        forall|k: ClauseKind| #[trigger] s.cdb.list(k) == o.cdb.list(k) || s.cdb.list(k) == o.cdb.list(k).push(r),
        o.trivial_unsat ==> s.trivial_unsat,
        forall|k: int| 0 <= k < cls.len() ==> (#[trigger] cls[k]).0 < 2 * o.nv(),
    ensures
        has_clause(s, cls),
{
    assert(s.cdb.list(ClauseKind::Trans) == o.cdb.list(ClauseKind::Trans) || s.cdb.list(ClauseKind::Trans) == o.cdb.list(ClauseKind::Trans).push(r));
    assert forall|c: CRef| #[trigger] o.cdb.trans@.contains(c) implies s.cdb.trans@.contains(c) by {
        let j = choose|j: int| 0 <= j < o.cdb.trans@.len() && o.cdb.trans@[j] == c;
        assert(s.cdb.trans@[j] == c);
    }
    assert forall|k: int| 0 <= k < cls.len() implies o.value.covers(#[trigger] cls[k]) by {}
    lemma_has_clause_kept(o, s, cls);
}

/// Dropping the satisfied transition clauses and trimming the false
/// literals of the others keeps every clause the solver has.
pub proof fn lemma_has_clause_simplified(o: Solver, f: Solver, cls: Seq<Lit>)
    requires
        has_clause(o, cls),
        f.trivial_unsat == o.trivial_unsat,
        f.value == o.value,
        all_watched(f, f.cdb.trans@),
        forall|c: CRef| #[trigger] f.cdb.trans@.contains(c) <==> o.cdb.trans@.contains(c) && !o.satisfied(c),
        forall|c: CRef| #[trigger] f.listed_has(c) ==> kept_clause(o, f, c),
    ensures
        has_clause(f, cls),
{
    if !o.trivial_unsat && !(exists|k: int| 0 <= k < cls.len() && o.value.is_true(#[trigger] cls[k])) {
        let c = choose|c: CRef| #[trigger] o.cdb.trans@.contains(c) && o.watched(c) && holds_clause(o, c, cls);
        let ol = o.arena().lits(c);
        if o.satisfied(c) {
            let k = choose|k: int| 0 <= k < o.arena().clause_len(c) && o.value.is_true(#[trigger] ol[k]);
            assert(ol.contains(ol[k]));
            assert(cls.contains(ol[k]));
            let j = choose|j: int| 0 <= j < cls.len() && cls[j] == ol[k];
            assert(f.value.is_true(cls[j]));
        } else {
            assert(f.cdb.trans@.contains(c));
            let t = choose|t: int| 0 <= t < f.cdb.trans@.len() && f.cdb.trans@[t] == c;
            assert(f.watched(f.cdb.trans@[t]));
            assert(f.listed_has(c));
            assert(kept_clause(o, f, c));
            assert forall|l: Lit| #[trigger] f.arena().lits(c).contains(l) implies cls.contains(l) by {
                assert(ol.contains(l));
            }
            assert forall|l: Lit| #[trigger] cls.contains(l) && !f.value.is_false(l) implies f.arena().lits(c).contains(l) by {
                assert(ol.contains(l));
                let k = choose|k: int| 0 <= k < ol.len() && ol[k] == l;
                assert(!o.value.is_false(ol[k]));
            }
            assert(holds_clause(f, c, cls));
        }
    }
}

/// A watched clause lies in the arena.
proof fn lemma_watched_valid(s: Solver, d: CRef)
    requires
        s.inv(),
        s.watched(d),
    ensures
        s.arena().valid(d),
{
    let (q, i) = choose|q: int, i: int| #[trigger] s.is_watch(q, i) && s.wclause(q, i) == d;
    let x = s.watchers.wtrs@[q]@[i];
    assert(watchable(s.arena(), x.clause, s.watchers.wtrs.len() as nat));
}

/// Adding a transition clause to a solver whose only listed clauses are
/// watched transition clauses, each once, keeps them so.
proof fn lemma_trans_listed(o: Solver, s: Solver, r: CRef)
    requires
        o.inv(),
        distinct(o.cdb.trans@),
        all_watched(o, o.cdb.trans@),
        o.cdb.lemmas@.len() == 0,
        o.cdb.learnt@.len() == 0,
        forall|d: CRef| #[trigger] o.watched(d) ==> s.watched(d),
        r != spec_cref_none() ==> r.0 == o.cdb.allocator.data@.len() && s.watched(r),
        r == spec_cref_none() ==> s.cdb.trans == o.cdb.trans,
        forall|k: ClauseKind| k != ClauseKind::Trans && k != ClauseKind::Temporary ==> #[trigger] s.cdb.list(k) == o.cdb.list(k),
        forall|k: ClauseKind| #[trigger] s.cdb.list(k) == o.cdb.list(k) || s.cdb.list(k) == o.cdb.list(k).push(r),
    ensures
        distinct(s.cdb.trans@),
        all_watched(s, s.cdb.trans@),
        s.cdb.lemmas@.len() == 0,
        s.cdb.learnt@.len() == 0,
{
    assert(s.cdb.list(ClauseKind::Lemma) == o.cdb.list(ClauseKind::Lemma));
    assert(s.cdb.list(ClauseKind::Learnt) == o.cdb.list(ClauseKind::Learnt));
    let t = s.cdb.list(ClauseKind::Trans);
    let ot = o.cdb.trans@;
    if t != ot {
        assert(t == ot.push(r));
        assert forall|k: int| 0 <= k < ot.len() implies #[trigger] ot[k] != r by {
            assert(o.watched(ot[k]));
            lemma_watched_valid(o, ot[k]);
        }
        assert forall|a: int, b: int| 0 <= a < b < t.len() implies #[trigger] t[a] != #[trigger] t[b] by {
            if b == ot.len() {
                assert(ot[a] != r);
            } else {
                assert(ot[a] != ot[b]);
            }
        }
        assert forall|k: int| 0 <= k < t.len() implies s.watched(#[trigger] t[k]) by {
            if k < ot.len() {
                assert(o.watched(ot[k]));
            }
        }
    } else {
        assert forall|k: int| 0 <= k < t.len() implies s.watched(#[trigger] t[k]) by {
            assert(o.watched(ot[k]));
        }
    }
}

} // verus!
