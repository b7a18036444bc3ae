use crate::cdb::{h_reloced, h_size, spec_cref_none, CRef};
use crate::gc::{copied, lemma_copied_bound, lemma_copied_room, moved_all, same_clause, same_list};
use crate::simplify::{disjoint, distinct};
use crate::solver::Solver;
use crate::solver_clauses::{lemma_live_watched, lemma_watched_apart, live_ok, pending_clause};
use crate::watch::watchable;
use vstd::prelude::*;

verus! {

/// There are enough learnt clauses to thin them: with `full`, one for every
/// fifteen transition clauses; else as many as there are transition clauses.
pub open spec fn learnt_crowded(s: Solver, full: bool) -> bool {
    ||| full && s.cdb.learnt@.len() * 15 >= s.cdb.trans@.len()
    ||| s.cdb.learnt@.len() >= s.cdb.trans@.len()
}

/// The clause at position `i` of `order`, the learnt clauses from the most
/// active down, is to go: it lies past the first third, is not the reason
/// of its first literal, and has more than two literals.
pub open spec fn drops_at(s: Solver, order: Seq<CRef>, i: int) -> bool {
    let c = order[i];
    let l = s.arena().lits(c)[0];
    &&& i > order.len() / 3
    &&& !(s.value.is_true(l) && s.reason_of(l) == c)
    &&& s.arena().clause_len(c) > 2
}

/// The clauses of the first `i` of `order` that stay, in their order.
pub open spec fn kept_prefix(s: Solver, order: Seq<CRef>, i: int) -> Seq<CRef>
    decreases i,
{
    if i <= 0 {
        Seq::empty()
    } else if drops_at(s, order, i - 1) {
        kept_prefix(s, order, i - 1)
    } else {
        kept_prefix(s, order, i - 1).push(order[i - 1])
    }
}

/// The clauses of the first `i` of `order` that go.
pub open spec fn dropped_prefix(s: Solver, order: Seq<CRef>, i: int) -> Set<CRef> {
    Set::new(|c: CRef| exists|j: int| 0 <= j < i && order[j] == c && #[trigger] drops_at(s, order, j))
}

/// Every clause kept from the first `i` of `order` is one that stays.
proof fn lemma_kept_prefix(s: Solver, order: Seq<CRef>, i: int)
    requires
        0 <= i <= order.len(),
    ensures
        forall|k: int| 0 <= k < kept_prefix(s, order, i).len() ==> exists|j: int|
            0 <= j < i && order[j] == #[trigger] kept_prefix(s, order, i)[k] && !drops_at(s, order, j),
        forall|j: int| 0 <= j < i && !drops_at(s, order, j) ==> #[trigger] kept_prefix(s, order, i).contains(order[j]),
    decreases i,
{
    if i > 0 {
        lemma_kept_prefix(s, order, i - 1);
        let p = kept_prefix(s, order, i - 1);
        let q = kept_prefix(s, order, i);
        assert forall|k: int| 0 <= k < q.len() implies exists|j: int|
            0 <= j < i && order[j] == #[trigger] q[k] && !drops_at(s, order, j) by {
            if k < p.len() {
                assert(q[k] == p[k]);
                let j = choose|j: int| 0 <= j < i - 1 && order[j] == #[trigger] p[k] && !drops_at(s, order, j);
                assert(0 <= j < i && order[j] == q[k] && !drops_at(s, order, j));
            } else {
                assert(q[k] == order[i - 1]);
            }
        }
        assert forall|j: int| 0 <= j < i && !drops_at(s, order, j) implies #[trigger] q.contains(order[j]) by {
            if j < i - 1 {
                assert(p.contains(order[j]));
                let k = choose|k: int| 0 <= k < p.len() && p[k] == order[j];
                assert(q[k] == order[j]);
            } else {
                assert(q[q.len() - 1] == order[j]);
            }
        }
    }
}

impl Solver {
    /// Thins the learnt clauses when there are enough of them (see
    /// `learnt_crowded`). `order` holds the learnt clauses from the most
    /// active down; past its first third, those that are not the reason of
    /// their first literal and have more than two literals are detached
    /// and freed, and the others stay, in that order. The arena is then
    /// compacted when a third of it is wasted.
    #[verifier::rlimit(100)]
    #[verifier::spinoff_prover]
    pub fn clean_leanrt(&mut self, full: bool, order: Vec<CRef>)
        requires
            old(self).inv(),
            old(self).movable(),
            old(self).lists_ok(),
            disjoint(old(self).cdb.temporary@, old(self).cdb.learnt@),
            distinct(order@),
            forall|c: CRef| #[trigger] order@.contains(c) <==> old(self).cdb.learnt@.contains(c),
            old(self).cdb.allocator.wasted + copied(old(self).cdb.allocator, old(self).cdb.learnt@.to_set()).len()
                <= old(self).cdb.allocator.data@.len(),
            old(self).cdb.allocator.wasted + old(self).cdb.allocator.data@.len() < usize::MAX,
        ensures
            final(self).inv(),
            final(self).movable(),
            final(self).nv() == old(self).nv(),
            !learnt_crowded(*old(self), full) ==> *final(self) == *old(self),
            learnt_crowded(*old(self), full) ==> {
                &&& same_list(*old(self), kept_prefix(*old(self), order@, order@.len() as int), *final(self), final(self).cdb.learnt@)
                &&& same_list(*old(self), old(self).cdb.trans@, *final(self), final(self).cdb.trans@)
                &&& same_list(*old(self), old(self).cdb.lemmas@, *final(self), final(self).cdb.lemmas@)
                &&& same_list(*old(self), old(self).cdb.temporary@, *final(self), final(self).cdb.temporary@)
            },
            final(self).value == old(self).value,
            final(self).trail == old(self).trail,
            final(self).propagated == old(self).propagated,
            final(self).pos_in_trail == old(self).pos_in_trail,
            final(self).domain == old(self).domain,
            final(self).vsids == old(self).vsids,
            final(self).phase_saving == old(self).phase_saving,
            final(self).constrain_act == old(self).constrain_act,
            final(self).trivial_unsat == old(self).trivial_unsat,
            final(self).temporary_domain == old(self).temporary_domain,
            final(self).simplify == old(self).simplify,
    {
        let nl = self.cdb.learnt.len();
        let nt = self.cdb.trans.len();
        let crowded = nl >= nt || (full && nl >= nt / 15 + if nt % 15 == 0 { 0 } else { 1 });
        proof {
            assert(crowded == learnt_crowded(*self, full)) by (nonlinear_arith)
                requires
                    crowded == (nl >= nt || (full && nl >= nt / 15 + if nt % 15 == 0 { 0int } else { 1int })),
                    nl == self.cdb.learnt@.len(),
                    nt == self.cdb.trans@.len(),
            ;
        }
        if !crowded {
            return;
        }
        let ghost o = *self;
        let ghost ord = order@;
        let ghost live = Set::new(|c: CRef| o.watched(c));
        let n = order.len();
        let mut kept: Vec<CRef> = Vec::new();
        let mut learnt: Vec<CRef> = Vec::new();
        std::mem::swap(&mut learnt, &mut self.cdb.learnt);
        proof {
            lemma_live_watched(o, live);
            crate::solver_clauses::lemma_inv_ignores_lists(o, *self);
            assert forall|k: int| 0 <= k < ord.len() implies o.watched(#[trigger] ord[k]) by {
                assert(ord.contains(ord[k]));
                assert(o.cdb.learnt@.contains(ord[k]));
                let j = choose|j: int| 0 <= j < o.cdb.learnt@.len() && o.cdb.learnt@[j] == ord[k];
                assert(o.watched(o.cdb.learnt@[j]));
            }
            assert(dropped_prefix(o, ord, 0) =~= Set::<CRef>::empty());
            assert(copied(o.cdb.allocator, Set::<CRef>::empty()) =~= Set::<int>::empty());
            assert(kept_prefix(o, ord, 0) =~= Seq::<CRef>::empty());
        }
        let mut i: usize = 0;
        while i < n
            invariant
                self.inv(),
                self.nv() == o.nv(),
                0 <= i <= n,
                n == ord.len(),
                ord == order@,
                distinct(ord),
                o.inv(),
                forall|c: CRef| #[trigger] ord.contains(c) <==> o.cdb.learnt@.contains(c),
                forall|k: int| 0 <= k < ord.len() ==> o.watched(#[trigger] ord[k]),
                live == Set::new(|c: CRef| o.watched(c)),
                live_ok(o.cdb.allocator, live),
                kept@ == kept_prefix(o, ord, i as int),
                forall|j: int| i <= j < n ==> self.watched(#[trigger] ord[j]) && pending_clause(o, *self, ord[j]),
                forall|j: int| 0 <= j < i && !drops_at(o, ord, j) ==> self.watched(#[trigger] ord[j]) && pending_clause(o, *self, ord[j]),
                forall|j: int| 0 <= j < i && drops_at(o, ord, j) ==> !self.watched(#[trigger] ord[j]),
                forall|d: CRef| #[trigger] o.watched(d) && !ord.contains(d) ==> self.watched(d) && pending_clause(o, *self, d),
                forall|d: CRef| #[trigger] self.watched(d) ==> o.watched(d),
                copied(o.cdb.allocator, dropped_prefix(o, ord, i as int)).finite(),
                self.cdb.allocator.wasted <= o.cdb.allocator.wasted + copied(o.cdb.allocator, dropped_prefix(o, ord, i as int)).len(),
                o.cdb.allocator.wasted + o.cdb.allocator.data@.len() < usize::MAX,
                self.arena().data@.len() == o.arena().data@.len(),
                self.value == o.value,
                self.trail == o.trail,
                self.reason == o.reason,
                self.propagated == o.propagated,
                self.pos_in_trail == o.pos_in_trail,
                self.domain == o.domain,
                self.vsids == o.vsids,
                self.phase_saving == o.phase_saving,
                self.constrain_act == o.constrain_act,
                self.trivial_unsat == o.trivial_unsat,
                self.temporary_domain == o.temporary_domain,
                self.simplify == o.simplify,
                self.cdb.lemmas == o.cdb.lemmas,
                self.cdb.trans == o.cdb.trans,
                self.cdb.temporary == o.cdb.temporary,
                self.cdb.learnt@.len() == 0,
            decreases n - i,
        {
            let l = order[i];
            proof {
                assert(self.watched(ord[i as int]) && pending_clause(o, *self, ord[i as int]));
                lemma_watched_apart(*self, l, l);
                assert(watchable(o.arena(), l, 2 * o.nv())) by {
                    lemma_watched_apart(o, l, l);
                }
            }
            let lk = self.locked(l);
            let len = self.cdb.allocator.clause_len_of(l);
            if i > n / 3 && !lk && len > 2 {
                let ghost s1 = *self;
                proof {
                    assert(drops_at(o, ord, i as int));
                    let db = dropped_prefix(o, ord, i as int);
                    assert(db.subset_of(live)) by {
                        assert forall|c: CRef| #[trigger] db.contains(c) implies live.contains(c) by {
                            let j = choose|j: int| 0 <= j < i && ord[j] == c && #[trigger] drops_at(o, ord, j);
                        }
                    }
                    assert(!db.contains(l)) by {
                        if db.contains(l) {
                            let j = choose|j: int| 0 <= j < i && ord[j] == l && #[trigger] drops_at(o, ord, j);
                            assert(ord[j] != ord[i as int]);
                        }
                    }
                    lemma_copied_room(o.cdb.allocator, live, db, l);
                    assert(dropped_prefix(o, ord, i + 1) =~= db.insert(l)) by {
                        assert forall|c: CRef| dropped_prefix(o, ord, i + 1).contains(c) implies #[trigger] db.insert(l).contains(c) by {
                            let j = choose|j: int| 0 <= j < i + 1 && ord[j] == c && #[trigger] drops_at(o, ord, j);
                            if j < i {
                                assert(db.contains(c));
                            }
                        }
                        assert forall|c: CRef| db.insert(l).contains(c) implies #[trigger] dropped_prefix(o, ord, i + 1).contains(c) by {
                            if c == l {
                                assert(0 <= i < i + 1 && ord[i as int] == c && drops_at(o, ord, i as int));
                            } else {
                                let j = choose|j: int| 0 <= j < i && ord[j] == c && #[trigger] drops_at(o, ord, j);
                                assert(0 <= j < i + 1 && ord[j] == c && drops_at(o, ord, j));
                            }
                        }
                    }
                    assert forall|c: CRef| #[trigger] db.insert(l).contains(c) implies o.cdb.allocator.valid(c) by {
                        assert(live.contains(c));
                    }
                    lemma_copied_bound(o.cdb.allocator, db.insert(l));
                    assert(h_size(s1.arena().header(l)) == h_size(o.arena().header(l)));
                }
                self.detach_clause(l);
                proof {
                    assert forall|d: CRef| #[trigger] s1.watched(d) && d != l implies self.watched(d) && pending_clause(o, *self, d) by {
                        lemma_watched_apart(s1, l, d);
                        assert(s1.arena().valid(d));
                    }
                    assert forall|j: int| i + 1 <= j < n implies self.watched(#[trigger] ord[j]) && pending_clause(o, *self, ord[j]) by {
                        assert(s1.watched(ord[j]));
                        assert(ord[j] != ord[i as int]);
                    }
                    assert forall|j: int| 0 <= j < i + 1 && !drops_at(o, ord, j) implies self.watched(#[trigger] ord[j]) && pending_clause(o, *self, ord[j]) by {
                        assert(s1.watched(ord[j]));
                        assert(ord[j] != ord[i as int]);
                    }
                    assert forall|j: int| 0 <= j < i + 1 && drops_at(o, ord, j) implies !self.watched(#[trigger] ord[j]) by {
                        if j < i {
                            assert(!s1.watched(ord[j]));
                        }
                    }
                    assert forall|d: CRef| #[trigger] o.watched(d) && !ord.contains(d) implies self.watched(d) && pending_clause(o, *self, d) by {
                        assert(s1.watched(d));
                        assert(d != l) by {
                            assert(ord.contains(ord[i as int]));
                        }
                    }
                    assert(kept_prefix(o, ord, i + 1) == kept_prefix(o, ord, i as int));
                }
            } else {
                proof {
                    assert(!drops_at(o, ord, i as int));
                    assert(dropped_prefix(o, ord, i + 1) =~= dropped_prefix(o, ord, i as int)) by {
                        assert forall|c: CRef| dropped_prefix(o, ord, i + 1).contains(c) implies #[trigger] dropped_prefix(o, ord, i as int).contains(c) by {
                            let j = choose|j: int| 0 <= j < i + 1 && ord[j] == c && #[trigger] drops_at(o, ord, j);
                            assert(0 <= j < i && ord[j] == c && drops_at(o, ord, j));
                        }
                        assert forall|c: CRef| dropped_prefix(o, ord, i as int).contains(c) implies #[trigger] dropped_prefix(o, ord, i + 1).contains(c) by {
                            let j = choose|j: int| 0 <= j < i && ord[j] == c && #[trigger] drops_at(o, ord, j);
                            assert(0 <= j < i + 1 && ord[j] == c && drops_at(o, ord, j));
                        }
                    }
                }
                kept.push(l);
                proof {
                    assert(kept_prefix(o, ord, i + 1) == kept_prefix(o, ord, i as int).push(ord[i as int]));
                }
            }
            i = i + 1;
        }
        let ghost pre = *self;
        self.cdb.learnt = kept;
        let ghost m = *self;
        proof {
            crate::solver_clauses::lemma_inv_ignores_lists(pre, *self);
            assert(n == ord.len());
            lemma_kept_prefix(o, ord, ord.len() as int);
            self.lemma_thinned_movable(o, ord);
            let ls = o.cdb.learnt@.to_set();
            let dp = dropped_prefix(o, ord, n as int);
            assert forall|c: CRef| #[trigger] ls.contains(c) implies o.cdb.allocator.valid(c) by {
                assert(ord.contains(c));
                let k = choose|k: int| 0 <= k < ord.len() && ord[k] == c;
                assert(live.contains(ord[k]));
            }
            lemma_copied_bound(o.cdb.allocator, ls);
            assert(copied(o.cdb.allocator, dp).subset_of(copied(o.cdb.allocator, ls))) by {
                assert forall|w: int| #[trigger] copied(o.cdb.allocator, dp).contains(w) implies copied(o.cdb.allocator, ls).contains(w) by {
                    let c = choose|c: CRef| #[trigger] dp.contains(c) && crate::gc::words(o.cdb.allocator, c).contains(w);
                    let j = choose|j: int| 0 <= j < n && ord[j] == c && #[trigger] drops_at(o, ord, j);
                    assert(ord.contains(c));
                    assert(ls.contains(c));
                }
            }
            vstd::set_lib::lemma_len_subset(copied(o.cdb.allocator, dp), copied(o.cdb.allocator, ls));
        }
        self.garbage_collect();
        proof {
            self.lemma_thinned_lists(o, m, ord);
        }
    }

    /// After the learnt list was thinned, the clauses in use are still
    /// watched and none is marked as moved.
    proof fn lemma_thinned_movable(&self, o: Solver, ord: Seq<CRef>)
        requires
            o.inv(),
            o.movable(),
            o.lists_ok(),
            disjoint(o.cdb.temporary@, o.cdb.learnt@),
            self.inv(),
            forall|c: CRef| #[trigger] ord.contains(c) <==> o.cdb.learnt@.contains(c),
            self.cdb.learnt@ == kept_prefix(o, ord, ord.len() as int),
            forall|k: int| 0 <= k < kept_prefix(o, ord, ord.len() as int).len() ==> exists|j: int|
                0 <= j < ord.len() && ord[j] == #[trigger] kept_prefix(o, ord, ord.len() as int)[k] && !drops_at(o, ord, j),
            forall|j: int| 0 <= j < ord.len() && !drops_at(o, ord, j) ==> self.watched(#[trigger] ord[j]) && pending_clause(o, *self, ord[j]),
            forall|j: int| 0 <= j < ord.len() && drops_at(o, ord, j) ==> !self.watched(#[trigger] ord[j]),
            forall|d: CRef| #[trigger] o.watched(d) && !ord.contains(d) ==> self.watched(d) && pending_clause(o, *self, d),
            forall|d: CRef| #[trigger] self.watched(d) ==> o.watched(d),
            self.value == o.value,
            self.trail == o.trail,
            self.reason == o.reason,
            self.cdb.lemmas == o.cdb.lemmas,
            self.cdb.trans == o.cdb.trans,
            self.cdb.temporary == o.cdb.temporary,
        ensures
            self.movable(),
    {
        assert forall|c: CRef| #[trigger] self.watched(c) implies !h_reloced(self.arena().header(c)) by {
            assert(o.watched(c));
            if ord.contains(c) {
                let j = choose|j: int| 0 <= j < ord.len() && ord[j] == c;
                if drops_at(o, ord, j) {
                    assert(!self.watched(ord[j]));
                } else {
                    assert(pending_clause(o, *self, ord[j]));
                }
            } else {
                assert(pending_clause(o, *self, c));
            }
        }
        assert forall|k: int| 0 <= k < self.cdb.trans@.len() implies self.watched(#[trigger] self.cdb.trans@[k]) by {
            let c = o.cdb.trans@[k];
            assert(o.watched(c));
            assert(o.cdb.trans@.contains(c));
            assert(!o.cdb.learnt@.contains(c));
        }
        assert forall|k: int| 0 <= k < self.cdb.lemmas@.len() implies self.watched(#[trigger] self.cdb.lemmas@[k]) by {
            let c = o.cdb.lemmas@[k];
            assert(o.watched(c));
            assert(o.cdb.lemmas@.contains(c));
            assert(!o.cdb.learnt@.contains(c));
        }
        assert forall|k: int| 0 <= k < self.cdb.temporary@.len() implies self.watched(#[trigger] self.cdb.temporary@[k]) by {
            let c = o.cdb.temporary@[k];
            assert(o.watched(c));
            assert(o.cdb.temporary@.contains(c));
            assert(!o.cdb.learnt@.contains(c));
        }
        let kp = kept_prefix(o, ord, ord.len() as int);
        assert forall|k: int| 0 <= k < self.cdb.learnt@.len() implies self.watched(#[trigger] self.cdb.learnt@[k]) by {
            let j = choose|j: int| 0 <= j < ord.len() && ord[j] == #[trigger] kp[k] && !drops_at(o, ord, j);
        }
        assert forall|t: int| 0 <= t < self.trail@.len() && self.reason_of(#[trigger] self.trail@[t]) != spec_cref_none()
            implies self.watched(self.reason_of(self.trail@[t])) by {
            let x = self.trail@[t];
            let r = o.reason_of(x);
            assert(o.trail@[t] == x);
            assert(o.watched(r));
            assert(o.explains(r, x));
            if ord.contains(r) {
                let j = choose|j: int| 0 <= j < ord.len() && ord[j] == r;
                assert(o.value.is_true(x));
                assert(!drops_at(o, ord, j));
                assert(self.watched(ord[j]));
            } else {
                assert(self.watched(r));
            }
        }
    }

    /// After thinning and compacting, every list names the clauses it named
    /// before, or kept.
    proof fn lemma_thinned_lists(&self, o: Solver, m: Solver, ord: Seq<CRef>)
        requires
            o.inv(),
            o.movable(),
            o.lists_ok(),
            disjoint(o.cdb.temporary@, o.cdb.learnt@),
            m.cdb.allocator.wasted * 3 <= m.cdb.allocator.data@.len() ==> *self == m,
            m.cdb.allocator.wasted * 3 > m.cdb.allocator.data@.len() ==> moved_all(m, *self),
            forall|c: CRef| #[trigger] ord.contains(c) <==> o.cdb.learnt@.contains(c),
            m.cdb.learnt@ == kept_prefix(o, ord, ord.len() as int),
            forall|j: int| 0 <= j < ord.len() && !drops_at(o, ord, j) ==> pending_clause(o, m, #[trigger] ord[j]),
            forall|d: CRef| #[trigger] o.watched(d) && !ord.contains(d) ==> pending_clause(o, m, d),
            m.cdb.lemmas == o.cdb.lemmas,
            m.cdb.trans == o.cdb.trans,
            m.cdb.temporary == o.cdb.temporary,
        ensures
            same_list(o, kept_prefix(o, ord, ord.len() as int), *self, self.cdb.learnt@),
            same_list(o, o.cdb.trans@, *self, self.cdb.trans@),
            same_list(o, o.cdb.lemmas@, *self, self.cdb.lemmas@),
            same_list(o, o.cdb.temporary@, *self, self.cdb.temporary@),
    {
        lemma_kept_prefix(o, ord, ord.len() as int);
        let kp = kept_prefix(o, ord, ord.len() as int);
        assert forall|k: int| 0 <= k < kp.len() implies #[trigger] same_clause(o, kp[k], m, m.cdb.learnt@[k]) by {
            let j = choose|j: int| 0 <= j < ord.len() && ord[j] == #[trigger] kp[k] && !drops_at(o, ord, j);
            assert(pending_clause(o, m, ord[j]));
        }
        assert forall|k: int| 0 <= k < o.cdb.trans@.len() implies #[trigger] same_clause(o, o.cdb.trans@[k], m, m.cdb.trans@[k]) by {
            let c = o.cdb.trans@[k];
            assert(o.watched(c));
            assert(o.cdb.trans@.contains(c));
            assert(!ord.contains(c));
        }
        assert forall|k: int| 0 <= k < o.cdb.lemmas@.len() implies #[trigger] same_clause(o, o.cdb.lemmas@[k], m, m.cdb.lemmas@[k]) by {
            let c = o.cdb.lemmas@[k];
            assert(o.watched(c));
            assert(o.cdb.lemmas@.contains(c));
            assert(!ord.contains(c));
        }
        assert forall|k: int| 0 <= k < o.cdb.temporary@.len() implies #[trigger] same_clause(o, o.cdb.temporary@[k], m, m.cdb.temporary@[k]) by {
            let c = o.cdb.temporary@[k];
            assert(o.cdb.temporary@.contains(c));
            assert(!o.cdb.learnt@.contains(c));
            assert(!ord.contains(c));
            assert(o.watched(c));
        }
        if m.cdb.allocator.wasted * 3 > m.cdb.allocator.data@.len() {
            assert forall|k: int| 0 <= k < kp.len() implies #[trigger] same_clause(o, kp[k], *self, self.cdb.learnt@[k]) by {
                assert(same_clause(o, kp[k], m, m.cdb.learnt@[k]));
                assert(same_clause(m, m.cdb.learnt@[k], *self, self.cdb.learnt@[k]));
            }
            assert forall|k: int| 0 <= k < o.cdb.trans@.len() implies #[trigger] same_clause(o, o.cdb.trans@[k], *self, self.cdb.trans@[k]) by {
                assert(same_clause(o, o.cdb.trans@[k], m, m.cdb.trans@[k]));
                assert(same_clause(m, m.cdb.trans@[k], *self, self.cdb.trans@[k]));
            }
            assert forall|k: int| 0 <= k < o.cdb.lemmas@.len() implies #[trigger] same_clause(o, o.cdb.lemmas@[k], *self, self.cdb.lemmas@[k]) by {
                assert(same_clause(o, o.cdb.lemmas@[k], m, m.cdb.lemmas@[k]));
                assert(same_clause(m, m.cdb.lemmas@[k], *self, self.cdb.lemmas@[k]));
            }
            assert forall|k: int| 0 <= k < o.cdb.temporary@.len() implies #[trigger] same_clause(o, o.cdb.temporary@[k], *self, self.cdb.temporary@[k]) by {
                assert(same_clause(o, o.cdb.temporary@[k], m, m.cdb.temporary@[k]));
                assert(same_clause(m, m.cdb.temporary@[k], *self, self.cdb.temporary@[k]));
            }
        }
    }
}

} // verus!
