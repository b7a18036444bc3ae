//! Simplification of the clause database at decision level zero: clauses
//! satisfied by the top-level assignment are dropped, and literals false
//! there are trimmed from the rest.
use crate::cdb::{h_learnt, h_removed, h_size, spec_cref_none, Allocator, CRef};
use crate::lit::{neg_code, Lit};
use crate::solver::{apart, Solver};
use crate::watch::{watchable, Watcher};
use crate::gc::{copied, words};
use crate::solver_clauses::{kept_clause, lemma_inv_ignores_lists, pending_clause, satisfied_in};
use vstd::prelude::*;

verus! {

/// When the clause database was last simplified.
pub struct Simplify {
    /// The length of the trail at the last removal of satisfied clauses.
    pub last_num_assign: u32,
    /// The number of solver calls at the last simplification.
    pub last_simplify: usize,
    /// Lemmas whose removal is deferred.
    pub lazy_remove: Vec<Vec<Lit>>,
    /// The number of lemmas after the last subsumption pass.
    pub last_num_lemma: u32,
}

impl Default for Simplify {
    fn default() -> (s: Self)
        ensures
            s.last_num_assign == 0,
            s.last_simplify == 0,
            s.lazy_remove@.len() == 0,
            s.last_num_lemma == 1000,
    {
        Simplify { last_num_assign: 0, last_simplify: 0, lazy_remove: Vec::new(), last_num_lemma: 1000 }
    }
}

/// No clause occurs twice in `s`.
pub open spec fn distinct(s: Seq<CRef>) -> bool {
    forall|a: int, b: int| 0 <= a < b < s.len() ==> #[trigger] s[a] != #[trigger] s[b]
}

/// No clause occurs in both `a` and `b`.
pub open spec fn disjoint(a: Seq<CRef>, b: Seq<CRef>) -> bool {
    forall|c: CRef| #[trigger] a.contains(c) ==> !b.contains(c)
}

/// Every clause of `l` is watched in `s`.
pub open spec fn all_watched(s: Solver, l: Seq<CRef>) -> bool {
    forall|k: int| 0 <= k < l.len() ==> s.watched(#[trigger] l[k])
}

impl Solver {
    /// The lemma, transition and learnt lists hold watched clauses, each
    /// once.
    pub open spec fn lists_ok(&self) -> bool {
        &&& distinct(self.cdb.lemmas@)
        &&& distinct(self.cdb.learnt@)
        &&& distinct(self.cdb.trans@)
        &&& all_watched(*self, self.cdb.lemmas@)
        &&& all_watched(*self, self.cdb.learnt@)
        &&& all_watched(*self, self.cdb.trans@)
        &&& disjoint(self.cdb.lemmas@, self.cdb.learnt@)
        &&& disjoint(self.cdb.lemmas@, self.cdb.trans@)
        &&& disjoint(self.cdb.learnt@, self.cdb.trans@)
    }

    /// The clause at `c` is in one of the three lists.
    pub open spec fn listed_has(&self, c: CRef) -> bool {
        self.cdb.lemmas@.contains(c) || self.cdb.learnt@.contains(c) || self.cdb.trans@.contains(c)
    }
}

impl Solver {
    /// Drops from the lemma, learnt and transition lists the clauses that
    /// the top-level assignment satisfies, detaching them, and trims the
    /// false literals past the first two of the others; nothing happens when
    /// no literal was assigned since the last time.
    #[verifier::rlimit(100)]
    #[verifier::spinoff_prover]
    pub fn simplify_satisfied(&mut self)
        requires
            old(self).inv(),
            old(self).pos_in_trail@.len() == 0,
            old(self).lists_ok(),
            old(self).trail@.len() <= u32::MAX,
            old(self).cdb.allocator.wasted + old(self).arena().data@.len() < usize::MAX,
        ensures
            final(self).inv(),
            final(self).lists_ok(),
            final(self).nv() == old(self).nv(),
            old(self).simplify.last_num_assign >= old(self).trail@.len() ==> *final(self) == *old(self),
            old(self).simplify.last_num_assign < old(self).trail@.len() ==> {
                &&& final(self).simplify.last_num_assign == old(self).trail@.len()
                &&& forall|c: CRef| #[trigger] final(self).cdb.lemmas@.contains(c) <==> old(self).cdb.lemmas@.contains(c) && !old(self).satisfied(c)
                &&& forall|c: CRef| #[trigger] final(self).cdb.learnt@.contains(c) <==> old(self).cdb.learnt@.contains(c) && !old(self).satisfied(c)
                &&& forall|c: CRef| #[trigger] final(self).cdb.trans@.contains(c) <==> old(self).cdb.trans@.contains(c) && !old(self).satisfied(c)
                &&& forall|c: CRef| #[trigger] old(self).listed_has(c) && old(self).satisfied(c) ==> !final(self).watched(c)
                &&& forall|c: CRef| #[trigger] final(self).listed_has(c) ==> kept_clause(*old(self), *final(self), c)
            },
            final(self).value == old(self).value,
            final(self).trail == old(self).trail,
            final(self).propagated == old(self).propagated,
            final(self).reason == old(self).reason,
            final(self).pos_in_trail == old(self).pos_in_trail,
            final(self).domain == old(self).domain,
            final(self).vsids == old(self).vsids,
            final(self).phase_saving == old(self).phase_saving,
            final(self).constrain_act == old(self).constrain_act,
            final(self).trivial_unsat == old(self).trivial_unsat,
            final(self).temporary_domain == old(self).temporary_domain,
            final(self).cdb.temporary == old(self).cdb.temporary,
    {
        if (self.simplify.last_num_assign as usize) >= self.trail.len() {
            return;
        }
        let ghost s0 = *self;
        let ghost a0 = s0.cdb.allocator;
        let ghost live = Set::new(|c: CRef| s0.watched(c));
        let ghost l1 = s0.cdb.lemmas@.to_set();
        let ghost l2 = s0.cdb.learnt@.to_set();
        let ghost l3 = s0.cdb.trans@.to_set();
        proof {
            crate::solver_clauses::lemma_live_watched(s0, live);
            lemma_lists_live(s0, live);
            lemma_copied_budget(a0, live, l1, Set::empty(), s0.cdb.allocator.wasted as int);
        }
        let mut lemmas: Vec<CRef> = Vec::new();
        std::mem::swap(&mut lemmas, &mut self.cdb.lemmas);
        let ghost t0 = *self;
        proof {
            lemma_inv_ignores_lists(s0, t0);
            assert(s0.cdb.lemmas@.to_set() == l1);
        }
        let lemmas = self.simplify_satisfied_clauses(lemmas);
        let ghost f1 = *self;
        self.cdb.lemmas = lemmas;
        let ghost s1 = *self;
        proof {
            lemma_inv_ignores_lists(f1, s1);
            assert(simplified(t0, f1, s0.cdb.lemmas@, s1.cdb.lemmas@));
            lemma_simplified_view(t0, s0, f1, s1, s0.cdb.lemmas@, s1.cdb.lemmas@);
        }
        let mut learnt: Vec<CRef> = Vec::new();
        std::mem::swap(&mut learnt, &mut self.cdb.learnt);
        let ghost t1 = *self;
        let ghost si1 = satisfied_in(t0, s0.cdb.lemmas@);
        proof {
            lemma_inv_ignores_lists(s1, t1);
            lemma_same_view(t1, s1);
            assert forall|k: int| 0 <= k < learnt@.len() implies t1.watched(#[trigger] learnt@[k]) by {
                let c = learnt@[k];
                assert(s0.cdb.learnt@.contains(c));
                assert(!s0.cdb.lemmas@.contains(c));
                assert(t0.watched(c));
            }
            // the learnt clauses were left alone, so their words are as they were
            assert forall|c: CRef| #[trigger] l2.contains(c) implies a0.header(c) == t1.cdb.allocator.header(c) by {
                assert(s0.cdb.learnt@.contains(c));
                assert(!s0.cdb.lemmas@.contains(c));
                assert(t0.watched(c));
                assert(pending_clause(t0, f1, c));
            }
            lemma_copied_same(a0, t1.cdb.allocator, l2);
            assert(si1.subset_of(l1));
            lemma_copied_budget(a0, live, l2, si1, s0.cdb.allocator.wasted as int);
            assert(learnt@.to_set() == l2);
        }
        let learnt = self.simplify_satisfied_clauses(learnt);
        let ghost f2 = *self;
        self.cdb.learnt = learnt;
        let ghost s2 = *self;
        proof {
            lemma_inv_ignores_lists(f2, s2);
            assert(simplified(t1, f2, s0.cdb.learnt@, s2.cdb.learnt@));
            lemma_simplified_view(t1, s1, f2, s2, s0.cdb.learnt@, s2.cdb.learnt@);
        }
        let mut trans: Vec<CRef> = Vec::new();
        std::mem::swap(&mut trans, &mut self.cdb.trans);
        let ghost t2 = *self;
        let ghost si2 = satisfied_in(t1, s0.cdb.learnt@);
        proof {
            lemma_inv_ignores_lists(s2, t2);
            lemma_same_view(t2, s2);
            assert forall|k: int| 0 <= k < trans@.len() implies t2.watched(#[trigger] trans@[k]) by {
                let c = trans@[k];
                assert(s0.cdb.trans@.contains(c));
                assert(!s0.cdb.lemmas@.contains(c));
                assert(!s0.cdb.learnt@.contains(c));
                assert(t0.watched(c));
                assert(t1.watched(c));
            }
            // the freed learnt clauses and the transition clauses were left
            // alone before, so their words are as they were
            assert forall|c: CRef| #[trigger] si2.contains(c) implies a0.header(c) == t1.cdb.allocator.header(c) by {
                assert(l2.contains(c));
            }
            lemma_copied_same(a0, t1.cdb.allocator, si2);
            assert forall|c: CRef| #[trigger] l3.contains(c) implies a0.header(c) == t2.cdb.allocator.header(c) by {
                assert(s0.cdb.trans@.contains(c));
                assert(!s0.cdb.lemmas@.contains(c));
                assert(!s0.cdb.learnt@.contains(c));
                assert(t0.watched(c));
                assert(pending_clause(t0, f1, c));
                assert(t1.watched(c));
                assert(pending_clause(t1, f2, c));
            }
            lemma_copied_same(a0, t2.cdb.allocator, l3);
            assert(si2.subset_of(l2));
            lemma_copied_union(a0, live, si1, si2);
            lemma_copied_budget(a0, live, l3, si1 + si2, s0.cdb.allocator.wasted as int);
            assert(trans@.to_set() == l3);
        }
        let trans = self.simplify_satisfied_clauses(trans);
        let ghost f3 = *self;
        self.cdb.trans = trans;
        self.simplify.last_num_assign = self.trail.len() as u32;
        proof {
            lemma_inv_ignores_lists(f3, *self);
            assert(simplified(t2, f3, s0.cdb.trans@, self.cdb.trans@));
            lemma_simplified_view(t2, s2, f3, *self, s0.cdb.trans@, self.cdb.trans@);
            lemma_simplified_lists(s0, s1, s2, *self);
        }
    }
}

/// Two solver states with the same watch lists, arena and assignment
/// agree on which clauses are watched, satisfied and clean.
proof fn lemma_same_view(a: Solver, b: Solver)
    requires
        a.watchers == b.watchers,
        a.cdb.allocator == b.cdb.allocator,
        a.value == b.value,
    ensures
        forall|c: CRef| #[trigger] a.watched(c) == b.watched(c),
        forall|c: CRef| #[trigger] a.satisfied(c) == b.satisfied(c),
        forall|c: CRef| #[trigger] a.clean_tail(c) == b.clean_tail(c),
        forall|o: Solver, c: CRef| #[trigger] kept_clause(o, a, c) == kept_clause(o, b, c),
        forall|o: Solver, c: CRef| #[trigger] kept_clause(a, o, c) == kept_clause(b, o, c),
        forall|o: Solver, c: CRef| #[trigger] pending_clause(o, a, c) == pending_clause(o, b, c),
        forall|o: Solver, c: CRef| #[trigger] pending_clause(a, o, c) == pending_clause(b, o, c),
{
    assert forall|c: CRef| #[trigger] a.watched(c) == b.watched(c) by {
        if a.watched(c) {
            let (q, i) = choose|q: int, i: int| #[trigger] a.is_watch(q, i) && a.wclause(q, i) == c;
            assert(b.is_watch(q, i) && b.wclause(q, i) == c);
        }
        if b.watched(c) {
            let (q, i) = choose|q: int, i: int| #[trigger] b.is_watch(q, i) && b.wclause(q, i) == c;
            assert(a.is_watch(q, i) && a.wclause(q, i) == c);
        }
    }
    assert(a.arena() == b.arena());
    assert forall|c: CRef| #[trigger] a.clean_tail(c) == b.clean_tail(c) by {
        assert(a.arena().lits(c) == b.arena().lits(c));
    }
    assert forall|c: CRef| #[trigger] a.satisfied(c) == b.satisfied(c) by {
        if a.satisfied(c) {
            let k = choose|k: int| 0 <= k < a.arena().clause_len(c) && a.value.is_true(#[trigger] a.arena().lits(c)[k]);
            assert(b.value.is_true(b.arena().lits(c)[k]));
        }
        if b.satisfied(c) {
            let k = choose|k: int| 0 <= k < b.arena().clause_len(c) && b.value.is_true(#[trigger] b.arena().lits(c)[k]);
            assert(a.value.is_true(a.arena().lits(c)[k]));
        }
    }
    assert forall|o: Solver, c: CRef| #[trigger] kept_clause(o, a, c) == kept_clause(o, b, c) by {
        assert(a.clean_tail(c) == b.clean_tail(c));
        assert(a.arena().lits(c) == b.arena().lits(c));
    }
    assert forall|o: Solver, c: CRef| #[trigger] kept_clause(a, o, c) == kept_clause(b, o, c) by {
        assert(a.satisfied(c) == b.satisfied(c));
        assert(a.arena().lits(c) == b.arena().lits(c));
    }
}

/// After the three lists were simplified in turn, each list holds what it
/// held and was not satisfied, the satisfied clauses are no longer watched,
/// and the others are kept.
proof fn lemma_simplified_lists(s0: Solver, s1: Solver, s2: Solver, s3: Solver)
    requires
        s0.lists_ok(),
        simplified(s0, s1, s0.cdb.lemmas@, s1.cdb.lemmas@),
        simplified(s1, s2, s0.cdb.learnt@, s2.cdb.learnt@),
        simplified(s2, s3, s0.cdb.trans@, s3.cdb.trans@),
        s1.cdb.learnt@ == s0.cdb.learnt@,
        s1.cdb.trans@ == s0.cdb.trans@,
        s2.cdb.lemmas@ == s1.cdb.lemmas@,
        s2.cdb.trans@ == s0.cdb.trans@,
        s3.cdb.lemmas@ == s1.cdb.lemmas@,
        s3.cdb.learnt@ == s2.cdb.learnt@,
    ensures
        s3.lists_ok(),
        forall|c: CRef| #[trigger] s3.cdb.lemmas@.contains(c) <==> s0.cdb.lemmas@.contains(c) && !s0.satisfied(c),
        forall|c: CRef| #[trigger] s3.cdb.learnt@.contains(c) <==> s0.cdb.learnt@.contains(c) && !s0.satisfied(c),
        forall|c: CRef| #[trigger] s3.cdb.trans@.contains(c) <==> s0.cdb.trans@.contains(c) && !s0.satisfied(c),
        forall|c: CRef| #[trigger] s0.listed_has(c) && s0.satisfied(c) ==> !s3.watched(c),
        forall|c: CRef| #[trigger] s3.listed_has(c) ==> kept_clause(s0, s3, c),
{
    assert forall|c: CRef| #[trigger] s3.cdb.learnt@.contains(c) <==> s0.cdb.learnt@.contains(c) && !s0.satisfied(c) by {
        if s0.cdb.learnt@.contains(c) {
            lemma_listed_untouched(s0, s1, s0.cdb.lemmas@, s0.cdb.learnt@, c);
            lemma_pending_transfer(s0, s1, c);
        }
    }
    assert forall|c: CRef| #[trigger] s3.cdb.trans@.contains(c) <==> s0.cdb.trans@.contains(c) && !s0.satisfied(c) by {
        if s0.cdb.trans@.contains(c) {
            lemma_listed_untouched(s0, s1, s0.cdb.lemmas@, s0.cdb.trans@, c);
            lemma_pending_transfer(s0, s1, c);
            assert(!s0.cdb.learnt@.contains(c));
            assert(s1.watched(c) && pending_clause(s1, s2, c));
            lemma_pending_transfer(s1, s2, c);
        }
    }
    assert forall|c: CRef| #[trigger] s0.listed_has(c) && s0.satisfied(c) implies !s3.watched(c) by {
        if s0.cdb.lemmas@.contains(c) {
            assert(!s1.watched(c));
            assert(!s2.watched(c));
        } else if s0.cdb.learnt@.contains(c) {
            lemma_listed_untouched(s0, s1, s0.cdb.lemmas@, s0.cdb.learnt@, c);
            lemma_pending_transfer(s0, s1, c);
            assert(!s2.watched(c));
        } else {
            lemma_listed_untouched(s0, s1, s0.cdb.lemmas@, s0.cdb.trans@, c);
            lemma_pending_transfer(s0, s1, c);
            assert(!s0.cdb.learnt@.contains(c));
            assert(s1.watched(c) && pending_clause(s1, s2, c));
            lemma_pending_transfer(s1, s2, c);
        }
    }
    assert forall|c: CRef| #[trigger] s3.listed_has(c) implies s3.watched(c) && kept_clause(s0, s3, c) by {
        if s3.cdb.lemmas@.contains(c) {
            assert(s1.watched(c) && kept_clause(s0, s1, c));
            assert(!s0.cdb.learnt@.contains(c));
            assert(s2.watched(c) && pending_clause(s1, s2, c));
            lemma_pending_transfer(s1, s2, c);
            assert(!s0.cdb.trans@.contains(c));
            assert(s3.watched(c) && pending_clause(s2, s3, c));
            lemma_pending_transfer(s2, s3, c);
        } else if s3.cdb.learnt@.contains(c) {
            assert(s0.cdb.learnt@.contains(c));
            lemma_listed_untouched(s0, s1, s0.cdb.lemmas@, s0.cdb.learnt@, c);
            lemma_pending_transfer(s0, s1, c);
            assert(s2.watched(c) && kept_clause(s1, s2, c));
            assert(!s0.cdb.trans@.contains(c));
            assert(s3.watched(c) && pending_clause(s2, s3, c));
            lemma_pending_transfer(s2, s3, c);
        } else {
            assert(s0.cdb.trans@.contains(c));
            lemma_listed_untouched(s0, s1, s0.cdb.lemmas@, s0.cdb.trans@, c);
            lemma_pending_transfer(s0, s1, c);
            assert(!s0.cdb.learnt@.contains(c));
            assert(s1.watched(c) && pending_clause(s1, s2, c));
            lemma_pending_transfer(s1, s2, c);
            assert(kept_clause(s2, s3, c));
        }
    }
    assert forall|k: int| 0 <= k < s3.cdb.lemmas@.len() implies s3.watched(#[trigger] s3.cdb.lemmas@[k]) by {
        assert(s3.listed_has(s3.cdb.lemmas@[k]));
    }
    assert forall|k: int| 0 <= k < s3.cdb.learnt@.len() implies s3.watched(#[trigger] s3.cdb.learnt@[k]) by {
        assert(s3.listed_has(s3.cdb.learnt@[k]));
    }
    assert forall|k: int| 0 <= k < s3.cdb.trans@.len() implies s3.watched(#[trigger] s3.cdb.trans@[k]) by {
        assert(s3.listed_has(s3.cdb.trans@[k]));
    }
}

/// A clause of list `l`, disjoint from the simplified list `cs`, is still
/// watched and untouched after the simplification.
proof fn lemma_listed_untouched(o: Solver, f: Solver, cs: Seq<CRef>, l: Seq<CRef>, c: CRef)
    requires
        forall|d: CRef| #[trigger] o.watched(d) && !cs.contains(d) ==> f.watched(d) && pending_clause(o, f, d),
        all_watched(o, l),
        disjoint(cs, l),
        l.contains(c),
    ensures
        f.watched(c),
        pending_clause(o, f, c),
{
    let k = choose|k: int| 0 <= k < l.len() && l[k] == c;
    assert(o.watched(l[k]));
}

/// A clause held alike in two states with the same assignment is satisfied,
/// clean and kept alike in both.
proof fn lemma_pending_transfer(a: Solver, b: Solver, c: CRef)
    requires
        pending_clause(a, b, c),
        a.value == b.value,
    ensures
        a.satisfied(c) == b.satisfied(c),
        a.clean_tail(c) == b.clean_tail(c),
        forall|x: Solver| #[trigger] kept_clause(x, a, c) == kept_clause(x, b, c),
        forall|x: Solver| #[trigger] kept_clause(a, x, c) == kept_clause(b, x, c),
{
    if a.satisfied(c) {
        let k = choose|k: int| 0 <= k < a.arena().clause_len(c) && a.value.is_true(#[trigger] a.arena().lits(c)[k]);
        assert(b.value.is_true(b.arena().lits(c)[k]));
    }
    if b.satisfied(c) {
        let k = choose|k: int| 0 <= k < b.arena().clause_len(c) && b.value.is_true(#[trigger] b.arena().lits(c)[k]);
        assert(a.value.is_true(a.arena().lits(c)[k]));
    }
}

/// What simplifying the list `cs` from `o` to `f`, giving `r`, ensures.
pub open spec fn simplified(o: Solver, f: Solver, cs: Seq<CRef>, r: Seq<CRef>) -> bool {
    &&& forall|c: CRef| #[trigger] r.contains(c) <==> cs.contains(c) && !o.satisfied(c)
    &&& forall|c: CRef| #[trigger] cs.contains(c) && o.satisfied(c) ==> !f.watched(c)
    &&& forall|c: CRef| #[trigger] r.contains(c) ==> f.watched(c) && kept_clause(o, f, c)
    &&& forall|d: CRef| #[trigger] o.watched(d) && !cs.contains(d) ==> f.watched(d) && pending_clause(o, f, d)
    &&& forall|d: CRef| #[trigger] f.watched(d) ==> o.watched(d)
    &&& distinct(r)
    &&& f.value == o.value
}

/// What a simplification ensures carries over to states with the same watch
/// lists, arena and assignment.
proof fn lemma_simplified_view(o1: Solver, o2: Solver, f1: Solver, f2: Solver, cs: Seq<CRef>, r: Seq<CRef>)
    requires
        simplified(o1, f1, cs, r),
        o1.watchers == o2.watchers,
        o1.cdb.allocator == o2.cdb.allocator,
        o1.value == o2.value,
        f1.watchers == f2.watchers,
        f1.cdb.allocator == f2.cdb.allocator,
        f1.value == f2.value,
    ensures
        simplified(o2, f2, cs, r),
{
    lemma_same_view(o1, o2);
    lemma_same_view(f1, f2);
    assert forall|c: CRef| #[trigger] r.contains(c) implies f2.watched(c) && kept_clause(o2, f2, c) by {
        assert(f1.watched(c) && kept_clause(o1, f1, c));
        assert(kept_clause(o1, f2, c));
    }
    assert forall|d: CRef| #[trigger] o2.watched(d) && !cs.contains(d) implies f2.watched(d) && pending_clause(o2, f2, d) by {
        assert(o1.watched(d));
        assert(pending_clause(o1, f1, d));
        assert(pending_clause(o1, f2, d));
    }
    assert forall|d: CRef| #[trigger] f2.watched(d) implies o2.watched(d) by {
        assert(f1.watched(d));
        assert(o1.watched(d));
    }
}

impl Solver {
    /// Removes `lit` from the watched clause at `cref`, of more than two
    /// literals: the last literal takes its place, and the clause is watched
    /// anew by its first two literals.
    #[verifier::rlimit(60)]
    #[verifier::spinoff_prover]
    pub fn strengthen_clause(&mut self, cref: CRef, lit: Lit)
        requires
            old(self).inv(),
            old(self).watched(cref),
            old(self).arena().clause_len(cref) > 2,
            old(self).arena().lits(cref).contains(lit),
            lit == old(self).arena().lits(cref)[0] ==> forall|t: int| 0 <= t < old(self).trail@.len()
                ==> old(self).reason_of(#[trigger] old(self).trail@[t]) != cref,
        ensures
            final(self).inv(),
            final(self).nv() == old(self).nv(),
            final(self).arena().lits(cref) == old(self).arena().lits(cref).update(
                old(self).arena().lits(cref).index_of(lit),
                old(self).arena().lits(cref).last(),
            ).drop_last(),
            forall|d: CRef| #[trigger] final(self).watched(d) == old(self).watched(d),
            forall|d: CRef| #[trigger] old(self).watched(d) && d != cref ==> final(self).arena().lits(d) == old(self).arena().lits(d)
                && final(self).arena().header(d) == old(self).arena().header(d),
            forall|d: CRef| #[trigger] old(self).arena().valid(d) && apart(old(self).arena(), cref, d) ==> final(self).arena().valid(d)
                && final(self).arena().lits(d) == old(self).arena().lits(d) && final(self).arena().header(d) == old(self).arena().header(d),
            final(self).arena().valid(cref),
            h_removed(final(self).arena().header(cref)) == h_removed(old(self).arena().header(cref)),
            h_size(final(self).arena().header(cref)) == h_size(old(self).arena().header(cref)) - 1,
            final(self).arena().data@.len() == old(self).arena().data@.len(),
            final(self).cdb.allocator.wasted == old(self).cdb.allocator.wasted,
            final(self).cdb.lemmas == old(self).cdb.lemmas,
            final(self).cdb.trans == old(self).cdb.trans,
            final(self).cdb.learnt == old(self).cdb.learnt,
            final(self).cdb.temporary == old(self).cdb.temporary,
            final(self).value == old(self).value,
            final(self).trail == old(self).trail,
            final(self).reason == old(self).reason,
            final(self).level == old(self).level,
            final(self).propagated == old(self).propagated,
            final(self).pos_in_trail == old(self).pos_in_trail,
            final(self).domain == old(self).domain,
            final(self).vsids == old(self).vsids,
            final(self).phase_saving == old(self).phase_saving,
            final(self).constrain_act == old(self).constrain_act,
            final(self).trivial_unsat == old(self).trivial_unsat,
            final(self).temporary_domain == old(self).temporary_domain,
            final(self).simplify == old(self).simplify,
    {
        let ghost o = *self;
        let ghost ol = o.arena().lits(cref);
        proof {
            let (q, i) = choose|q: int, i: int| #[trigger] o.is_watch(q, i) && o.wclause(q, i) == cref;
            assert(watchable(o.arena(), cref, 2 * o.nv()));
        }
        let n = self.cdb.allocator.clause_len_of(cref);
        let mut pos: usize = 0;
        loop
            invariant
                0 <= pos < n,
                ol == o.arena().lits(cref),
                n == ol.len(),
                n == o.arena().clause_len(cref),
                *self == o,
                ol.contains(lit),
                watchable(o.arena(), cref, 2 * o.nv()),
                forall|k: int| 0 <= k < pos ==> ol[k] != lit,
            ensures
                0 <= pos < n,
                *self == o,
                ol[pos as int] == lit,
            decreases n - pos,
        {
            let l = self.cdb.allocator.lit(cref, pos);
            if l.0 == lit.0 {
                break;
            }
            proof {
                let j = choose|j: int| 0 <= j < ol.len() && ol[j] == lit;
                assert(ol[pos as int] != lit);
                assert(j != pos);
                if j < pos {
                    assert(ol[j] != lit);
                }
            }
            pos = pos + 1;
        }
        proof {
            assert(ol.index_of(lit) == pos) by {
                let j = ol.index_of(lit);
                assert(0 <= j < ol.len() && ol[j] == lit);
                if j != pos {
                    assert(ol[j] != ol[pos as int]);
                }
            }
        }
        self.watchers.detach(cref, &self.cdb.allocator);
        let ghost w1 = self.watchers;
        self.cdb.allocator.swap_remove(cref, pos);
        let ghost a1 = self.cdb.allocator;
        proof {
            lemma_strengthen_mid(o, w1, a1, cref, pos as int);
            assert forall|d: CRef| #[trigger] o.arena().valid(d) && apart(o.arena(), cref, d) implies a1.valid(d)
                && a1.lits(d) == o.arena().lits(d) && a1.header(d) == o.arena().header(d) by {
                lemma_frame_shrink(o.arena(), &a1, cref, d);
            }
        }
        self.watchers.attach(cref, &self.cdb.allocator);
        proof {
            lemma_strengthen_end(o, w1, *self, cref, pos as int, lit);
        }
    }
}

/// After the watchers of `cref` left and its literal at `pos` was removed,
/// the other watchers still fit the arena, and the clause can be watched.
proof fn lemma_strengthen_mid(o: Solver, w1: crate::watch::Watchers, a1: Allocator, cref: CRef, pos: int)
    requires
        o.inv(),
        o.watched(cref),
        watchable(o.arena(), cref, 2 * o.nv()),
        o.arena().clause_len(cref) > 2,
        0 <= pos < o.arena().clause_len(cref),
        w1.wf(o.arena()),
        w1.wtrs.len() == o.watchers.wtrs.len(),
        forall|q: int, x: Watcher| 0 <= q < w1.wtrs.len() && #[trigger] w1.wtrs@[q]@.contains(x) ==> o.watchers.wtrs@[q]@.contains(x),
        ({
            let q0 = neg_code(o.arena().lits(cref)[0].0) as int;
            let q1 = neg_code(o.arena().lits(cref)[1].0) as int;
            &&& forall|q: int| 0 <= q < o.watchers.wtrs.len() && q != q0 && q != q1 ==> w1.wtrs@[q] == o.watchers.wtrs@[q]
            &&& forall|i: int| 0 <= i < w1.wtrs@[q0].len() ==> (#[trigger] w1.wtrs@[q0]@[i]).clause != cref
            &&& forall|i: int| 0 <= i < w1.wtrs@[q1].len() ==> (#[trigger] w1.wtrs@[q1]@[i]).clause != cref
        }),
        a1.valid(cref),
        a1.clause_len(cref) == o.arena().clause_len(cref) - 1,
        a1.lits(cref) == o.arena().lits(cref).update(pos, o.arena().lits(cref).last()).drop_last(),
        h_learnt(a1.header(cref)) == h_learnt(o.arena().header(cref)),
        forall|d: int| 0 <= d < o.arena().data.len() && (d < cref.0 || d > cref.0 + o.arena().clause_len(cref)) ==> a1.data@[d] == o.arena().data@[d],
        a1.data.len() == o.arena().data.len(),
    ensures
        w1.wf(&a1),
        w1.unwatched(cref),
        watchable(&a1, cref, w1.wtrs.len() as nat),
        h_size(a1.header(cref)) == h_size(o.arena().header(cref)) - 1,
        forall|d: CRef| #[trigger] o.watched(d) && d != cref ==> apart(o.arena(), cref, d) && apart(&a1, cref, d)
            && a1.valid(d) && a1.header(d) == o.arena().header(d) && a1.lits(d) == o.arena().lits(d),
{
    let oa = o.arena();
    let ol = oa.lits(cref);
    let nl = a1.lits(cref);
    assert forall|d: CRef| #[trigger] o.watched(d) && d != cref implies apart(oa, cref, d) && apart(&a1, cref, d)
        && a1.valid(d) && a1.header(d) == oa.header(d) && a1.lits(d) == oa.lits(d) by {
        let (qc, ic) = choose|q: int, i: int| #[trigger] o.is_watch(q, i) && o.wclause(q, i) == cref;
        let (q, i) = choose|q: int, i: int| #[trigger] o.is_watch(q, i) && o.wclause(q, i) == d;
        assert(o.wclause(qc, ic) == o.wclause(q, i) || apart(oa, o.wclause(qc, ic), o.wclause(q, i)));
        assert(watchable(oa, d, 2 * o.nv()));
        assert(a1.data@[d.0 as int] == oa.data@[d.0 as int]);
        assert(a1.lits(d) =~= oa.lits(d)) by {
            assert forall|k: int| 0 <= k < a1.clause_len(d) implies #[trigger] a1.lits(d)[k] == oa.lits(d)[k] by {
                assert(a1.data@[d.0 + 1 + k] == oa.data@[d.0 + 1 + k]);
            }
        }
    }
    assert(watchable(&a1, cref, w1.wtrs.len() as nat)) by {
        assert forall|k: int| 0 <= k < a1.clause_len(cref) implies (#[trigger] a1.lits(cref)[k]).0 < w1.wtrs.len() by {
            if k == pos {
                assert(nl[k] == ol[ol.len() - 1]);
            } else {
                assert(nl[k] == ol[k]);
            }
        }
        assert forall|x: int, y: int| 0 <= x < y < a1.clause_len(cref) implies #[trigger] a1.lits(cref)[x] != #[trigger] a1.lits(cref)[y] by {
            let xx = if x == pos { ol.len() - 1 } else { x };
            let yy = if y == pos { ol.len() - 1 } else { y };
            assert(nl[x] == ol[xx]);
            assert(nl[y] == ol[yy]);
        }
    }
    assert forall|q: int, i: int| 0 <= q < w1.wtrs.len() && 0 <= i < w1.wtrs@[q].len() implies (#[trigger] w1.wtrs@[q]@[i]).clause != cref by {
        let q0 = neg_code(oa.lits(cref)[0].0) as int;
        let q1 = neg_code(oa.lits(cref)[1].0) as int;
        if q != q0 && q != q1 {
            assert(w1.wtrs@[q] == o.watchers.wtrs@[q]);
            if w1.wtrs@[q]@[i].clause == cref {
                assert(o.is_watch(q, i));
                assert(oa.lits(cref)[0].0 == neg_code(q as u32) || oa.lits(cref)[1].0 == neg_code(q as u32));
                crate::lit::lemma_negated(oa.lits(cref)[0]);
                crate::lit::lemma_negated(oa.lits(cref)[1]);
                crate::lit::lemma_negated(Lit(q as u32));
            }
        }
    }
    assert forall|q: int, i: int|
        0 <= q < w1.wtrs.len() && 0 <= i < w1.wtrs@[q].len() implies {
            let w = #[trigger] w1.wtrs@[q]@[i];
            &&& watchable(&a1, w.clause, w1.wtrs.len() as nat)
            &&& (a1.lits(w.clause)[0].0 == neg_code(q as u32) || a1.lits(w.clause)[1].0 == neg_code(q as u32))
            &&& (w.blocker.0 as int) < w1.wtrs.len()
        } by {
        let w = w1.wtrs@[q]@[i];
        assert(w1.wtrs@[q]@.contains(w));
        assert(o.watchers.wtrs@[q]@.contains(w));
        let j = choose|j: int| 0 <= j < o.watchers.wtrs@[q]@.len() && o.watchers.wtrs@[q]@[j] == w;
        assert(o.is_watch(q, j));
        assert(o.watched(w.clause));
        assert(w.clause != cref);
    }
}

/// After the clause at `cref` is watched again by its new first two
/// literals, the invariant of propagation holds and every clause in use is
/// watched as before.
proof fn lemma_strengthen_end(o: Solver, w1: crate::watch::Watchers, s: Solver, cref: CRef, pos: int, lit: Lit)
    requires
        o.inv(),
        o.watched(cref),
        watchable(o.arena(), cref, 2 * o.nv()),
        o.arena().clause_len(cref) > 2,
        0 <= pos < o.arena().clause_len(cref),
        o.arena().lits(cref)[pos] == lit,
        lit == o.arena().lits(cref)[0] ==> forall|t: int| 0 <= t < o.trail@.len() ==> o.reason_of(#[trigger] o.trail@[t]) != cref,
        w1.wf(o.arena()),
        w1.unwatched(cref),
        w1.wtrs.len() == o.watchers.wtrs.len(),
        forall|q: int, x: Watcher| 0 <= q < w1.wtrs.len() && #[trigger] w1.wtrs@[q]@.contains(x) ==> o.watchers.wtrs@[q]@.contains(x),
        forall|q: int, x: Watcher| 0 <= q < w1.wtrs.len() && #[trigger] o.watchers.wtrs@[q]@.contains(x) && x.clause != cref ==> w1.wtrs@[q]@.contains(x),
        s.watchers.wf(s.arena()),
        s.watchers.wtrs.len() == w1.wtrs.len(),
        ({
            let a = s.arena();
            let q0 = neg_code(a.lits(cref)[0].0) as int;
            let q1 = neg_code(a.lits(cref)[1].0) as int;
            &&& s.watchers.wtrs@[q0]@ == w1.wtrs@[q0]@.push(Watcher { clause: cref, blocker: a.lits(cref)[1] })
            &&& s.watchers.wtrs@[q1]@ == w1.wtrs@[q1]@.push(Watcher { clause: cref, blocker: a.lits(cref)[0] })
            &&& forall|q: int| 0 <= q < w1.wtrs.len() && q != q0 && q != q1 ==> s.watchers.wtrs@[q] == w1.wtrs@[q]
        }),
        watchable(s.arena(), cref, s.watchers.wtrs.len() as nat),
        s.arena().lits(cref) == o.arena().lits(cref).update(pos, o.arena().lits(cref).last()).drop_last(),
        h_size(s.arena().header(cref)) == h_size(o.arena().header(cref)) - 1,
        forall|d: CRef| #[trigger] o.watched(d) && d != cref ==> apart(o.arena(), cref, d) && apart(s.arena(), cref, d)
            && s.arena().valid(d) && s.arena().header(d) == o.arena().header(d) && s.arena().lits(d) == o.arena().lits(d),
        s.arena().data.len() == o.arena().data.len(),
        forall|d: int| 0 <= d < o.arena().data.len() && (d < cref.0 || d > cref.0 + o.arena().clause_len(cref)) ==> s.arena().data@[d] == o.arena().data@[d],
        s.value == o.value,
        s.trail == o.trail,
        s.reason == o.reason,
        s.level == o.level,
        s.propagated == o.propagated,
        s.pos_in_trail == o.pos_in_trail,
        s.domain == o.domain,
    ensures
        s.inv(),
        forall|d: CRef| #[trigger] s.watched(d) == o.watched(d),
{
    let oa = o.arena();
    let a = s.arena();
    let ol = oa.lits(cref);
    let nl = a.lits(cref);
    let q0 = neg_code(a.lits(cref)[0].0) as int;
    let q1 = neg_code(a.lits(cref)[1].0) as int;
    // a watcher of `s` is the new one of `cref` or one of `o`
    assert forall|q: int, i: int| #[trigger] s.is_watch(q, i) implies s.wclause(q, i) == cref || (o.watched(s.wclause(q, i))
        && exists|j: int| 0 <= j < w1.wtrs@[q]@.len() && w1.wtrs@[q]@[j] == s.watchers.wtrs@[q]@[i]) by {
        let x = s.watchers.wtrs@[q]@[i];
        if x.clause != cref {
            if q == q0 || q == q1 {
                assert(i < w1.wtrs@[q]@.len());
                assert(w1.wtrs@[q]@[i] == x);
            } else {
                assert(w1.wtrs@[q]@[i] == x);
            }
            assert(w1.wtrs@[q]@.contains(x));
            assert(o.watchers.wtrs@[q]@.contains(x));
            let j = choose|j: int| 0 <= j < o.watchers.wtrs@[q]@.len() && o.watchers.wtrs@[q]@[j] == x;
            assert(o.is_watch(q, j));
        }
    }
    assert forall|d: CRef| #[trigger] s.watched(d) == o.watched(d) by {
        if s.watched(d) {
            let (q, i) = choose|q: int, i: int| #[trigger] s.is_watch(q, i) && s.wclause(q, i) == d;
        }
        if o.watched(d) {
            if d == cref {
                assert(s.is_watch(q0, w1.wtrs@[q0]@.len() as int));
            } else {
                let (q, i) = choose|q: int, i: int| #[trigger] o.is_watch(q, i) && o.wclause(q, i) == d;
                let x = o.watchers.wtrs@[q]@[i];
                assert(o.watchers.wtrs@[q]@.contains(x));
                assert(w1.wtrs@[q]@.contains(x));
                let j = choose|j: int| 0 <= j < w1.wtrs@[q]@.len() && w1.wtrs@[q]@[j] == x;
                assert(s.watchers.wtrs@[q]@[j] == x);
                assert(s.is_watch(q, j));
            }
        }
    }
    assert(s.trail_ok()) by {
        assert forall|t: int| 0 <= t < s.trail.len() implies (#[trigger] s.trail@[t]).0 < 2 * s.nv() && s.value.is_true(s.trail@[t]) by {
            assert(o.trail@[t] == s.trail@[t]);
        }
    }
    assert(s.disjoint_ok()) by {
        assert forall|qa: int, ia: int, qb: int, ib: int|
            s.is_watch(qa, ia) && s.is_watch(qb, ib) implies #[trigger] s.wclause(qa, ia) == #[trigger] s.wclause(qb, ib)
                || apart(a, s.wclause(qa, ia), s.wclause(qb, ib)) by {
            let c1 = s.wclause(qa, ia);
            let c2 = s.wclause(qb, ib);
            if c1 != c2 && c1 != cref && c2 != cref {
                let (p1, j1) = choose|p1: int, j1: int| #[trigger] o.is_watch(p1, j1) && o.wclause(p1, j1) == c1;
                let (p2, j2) = choose|p2: int, j2: int| #[trigger] o.is_watch(p2, j2) && o.wclause(p2, j2) == c2;
                assert(o.wclause(p1, j1) == o.wclause(p2, j2) || apart(oa, o.wclause(p1, j1), o.wclause(p2, j2)));
            }
        }
    }
    assert(s.reason_ok()) by {
        assert forall|t: int|
            0 <= t < s.trail.len() && s.reason_of(#[trigger] s.trail@[t]) != spec_cref_none()
                implies s.explains(s.reason_of(s.trail@[t]), s.trail@[t]) by {
            let x = s.trail@[t];
            assert(o.trail@[t] == x);
            let r = o.reason_of(x);
            assert(o.explains(r, x));
            if r == cref {
                assert(pos != 0);
                assert(nl.len() == ol.len() - 1);
                assert(a.clause_len(cref) == nl.len());
                assert(nl[0] == ol[0]);
                assert forall|k: int| 1 <= k < a.clause_len(r) implies s.value.is_false(#[trigger] a.lits(r)[k]) by {
                    if k == pos {
                        assert(nl[k] == ol[ol.len() - 1]);
                    } else {
                        assert(nl[k] == ol[k]);
                    }
                }
            } else {
                let (qc, ic) = choose|q: int, i: int| #[trigger] o.is_watch(q, i) && o.wclause(q, i) == cref;
                assert(o.wclause(qc, ic) == r || apart(oa, r, o.wclause(qc, ic)));
                assert(o.watched(cref));
                lemma_frame_shrink(oa, a, cref, r);
                assert forall|k: int| 1 <= k < a.clause_len(r) implies s.value.is_false(#[trigger] a.lits(r)[k]) by {
                    assert(oa.lits(r)[k] == a.lits(r)[k]);
                }
            }
            assert forall|q: int, i: int| #[trigger] s.is_watch(q, i) implies s.wclause(q, i) == r || apart(a, r, s.wclause(q, i)) by {
                let c = s.wclause(q, i);
                if c != r {
                    if c == cref {
                        assert(apart(oa, cref, r)) by {
                            let (qc, ic) = choose|q: int, i: int| #[trigger] o.is_watch(q, i) && o.wclause(q, i) == cref;
                            assert(o.wclause(qc, ic) == r || apart(oa, r, o.wclause(qc, ic)));
                        }
                    } else {
                        let (p1, j1) = choose|p1: int, j1: int| #[trigger] o.is_watch(p1, j1) && o.wclause(p1, j1) == c;
                        assert(o.wclause(p1, j1) == r || apart(oa, r, o.wclause(p1, j1)));
                    }
                }
            }
        }
    }
}

/// A clause apart from the clause at `c` keeps its words when only the
/// header and literal words of `c` change.
proof fn lemma_frame_shrink(a1: &Allocator, a2: &Allocator, c: CRef, d: CRef)
    requires
        a1.valid(c),
        a1.valid(d),
        apart(a1, c, d),
        a1.data.len() == a2.data.len(),
        forall|k: int| 0 <= k < a1.data.len() && (k < c.0 || k > c.0 + a1.clause_len(c)) ==> a2.data@[k] == a1.data@[k],
    ensures
        a2.valid(d),
        a2.header(d) == a1.header(d),
        a2.lits(d) == a1.lits(d),
{
    assert(a2.data@[d.0 as int] == a1.data@[d.0 as int]);
    assert(a2.lits(d) =~= a1.lits(d)) by {
        assert forall|k: int| 0 <= k < a1.clause_len(d) implies #[trigger] a2.lits(d)[k] == a1.lits(d)[k] by {
            assert(a2.data@[d.0 + 1 + k] == a1.data@[d.0 + 1 + k]);
        }
    }
}

/// The clause lists hold watched clauses only.
proof fn lemma_lists_live(s: Solver, live: Set<CRef>)
    requires
        s.lists_ok(),
        live == Set::new(|c: CRef| s.watched(c)),
    ensures
        s.cdb.lemmas@.to_set().subset_of(live),
        s.cdb.learnt@.to_set().subset_of(live),
        s.cdb.trans@.to_set().subset_of(live),
        s.cdb.lemmas@.to_set().disjoint(s.cdb.learnt@.to_set()),
        s.cdb.lemmas@.to_set().disjoint(s.cdb.trans@.to_set()),
        s.cdb.learnt@.to_set().disjoint(s.cdb.trans@.to_set()),
{
    assert forall|c: CRef| s.cdb.lemmas@.to_set().contains(c) implies live.contains(c) by {
        let k = choose|k: int| 0 <= k < s.cdb.lemmas@.len() && s.cdb.lemmas@[k] == c;
    }
    assert forall|c: CRef| s.cdb.learnt@.to_set().contains(c) implies live.contains(c) by {
        let k = choose|k: int| 0 <= k < s.cdb.learnt@.len() && s.cdb.learnt@[k] == c;
    }
    assert forall|c: CRef| s.cdb.trans@.to_set().contains(c) implies live.contains(c) by {
        let k = choose|k: int| 0 <= k < s.cdb.trans@.len() && s.cdb.trans@[k] == c;
    }
}

/// The words of clauses depend only on their headers.
proof fn lemma_copied_same(a1: Allocator, a2: Allocator, set: Set<CRef>)
    requires
        forall|c: CRef| #[trigger] set.contains(c) ==> a1.header(c) == a2.header(c),
    ensures
        copied(a1, set) == copied(a2, set),
{
    assert(copied(a1, set) =~= copied(a2, set)) by {
        assert forall|k: int| #[trigger] copied(a1, set).contains(k) == copied(a2, set).contains(k) by {
            if copied(a1, set).contains(k) {
                let c = choose|c: CRef| #[trigger] set.contains(c) && words(a1, c).contains(k);
                assert(words(a2, c).contains(k));
            }
            if copied(a2, set).contains(k) {
                let c = choose|c: CRef| #[trigger] set.contains(c) && words(a2, c).contains(k);
                assert(words(a1, c).contains(k));
            }
        }
    }
}

/// The words of two disjoint sets of clauses in use, apart from each
/// other, add up.
proof fn lemma_copied_union(a: Allocator, live: Set<CRef>, x: Set<CRef>, y: Set<CRef>)
    requires
        crate::solver_clauses::live_ok(a, live),
        x.subset_of(live),
        y.subset_of(live),
        x.disjoint(y),
    ensures
        copied(a, x + y) == copied(a, x) + copied(a, y),
        copied(a, x).disjoint(copied(a, y)),
        copied(a, x).finite(),
        copied(a, y).finite(),
        copied(a, x + y).finite(),
        copied(a, x + y).len() == copied(a, x).len() + copied(a, y).len(),
{
    assert(copied(a, x + y) =~= copied(a, x) + copied(a, y)) by {
        assert forall|k: int| #[trigger] copied(a, x + y).contains(k) == (copied(a, x) + copied(a, y)).contains(k) by {
            if copied(a, x + y).contains(k) {
                let c = choose|c: CRef| #[trigger] (x + y).contains(c) && words(a, c).contains(k);
                if x.contains(c) {
                    assert(copied(a, x).contains(k));
                } else {
                    assert(copied(a, y).contains(k));
                }
            }
            if copied(a, x).contains(k) {
                let c = choose|c: CRef| #[trigger] x.contains(c) && words(a, c).contains(k);
                assert((x + y).contains(c));
            }
            if copied(a, y).contains(k) {
                let c = choose|c: CRef| #[trigger] y.contains(c) && words(a, c).contains(k);
                assert((x + y).contains(c));
            }
        }
    }
    assert forall|k: int| copied(a, x).contains(k) implies !copied(a, y).contains(k) by {
        let c = choose|c: CRef| #[trigger] x.contains(c) && words(a, c).contains(k);
        if copied(a, y).contains(k) {
            let e = choose|e: CRef| #[trigger] y.contains(e) && words(a, e).contains(k);
            assert(live.contains(c) && live.contains(e));
            assert(c != e);
            assert(apart(&a, c, e));
        }
    }
    assert forall|c: CRef| #[trigger] (x + y).contains(c) implies a.valid(c) by {
        assert(live.contains(c));
    }
    assert forall|c: CRef| #[trigger] x.contains(c) implies a.valid(c) by {
        assert(live.contains(c));
    }
    assert forall|c: CRef| #[trigger] y.contains(c) implies a.valid(c) by {
        assert(live.contains(c));
    }
    crate::gc::lemma_copied_bound(a, x + y);
    crate::gc::lemma_copied_bound(a, x);
    crate::gc::lemma_copied_bound(a, y);
    vstd::set_lib::lemma_set_disjoint_lens(copied(a, x), copied(a, y));
}

/// With the waste and the arena both fitting, the words already freed from
/// `done` and those of the next list `next`, apart from them, fit too.
proof fn lemma_copied_budget(a: Allocator, live: Set<CRef>, next: Set<CRef>, done: Set<CRef>, w: int)
    requires
        crate::solver_clauses::live_ok(a, live),
        next.subset_of(live),
        done.subset_of(live),
        next.disjoint(done),
        w + a.data.len() < usize::MAX,
    ensures
        copied(a, next).finite(),
        copied(a, done).finite(),
        w + copied(a, done).len() + copied(a, next).len() < usize::MAX,
{
    lemma_copied_union(a, live, done, next);
    assert forall|c: CRef| #[trigger] (done + next).contains(c) implies a.valid(c) by {
        assert(live.contains(c));
    }
    crate::gc::lemma_copied_bound(a, done + next);
}

} // verus!
