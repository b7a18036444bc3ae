//! Compaction of the clause arena: the clauses in use are copied into a
//! fresh arena, and every reference to them is moved along.
use crate::cdb::{h_len, h_reloced, h_same_except, h_size, lemma_extend_keeps, spec_cref_none, Allocator, CRef};
use crate::solver::Solver;
use crate::watch::watchable;
use crate::lit::Lit;
use crate::watch::Watcher;
use crate::solver::apart;
use vstd::prelude::*;
use vstd::set_lib::{lemma_int_range, lemma_len_subset, lemma_set_disjoint_lens, set_int_range};

verus! {

/// The words that the clause at `c` occupies in `a`.
pub open spec fn words(a: Allocator, c: CRef) -> Set<int> {
    set_int_range(c.0 as int, c.0 + h_size(a.header(c)))
}

/// Where `from` forwards the clause at `c` once it was moved.
pub open spec fn moved_to(from: Allocator, c: CRef) -> CRef {
    CRef(from.data@[c.0 + 1])
}

/// The words of `orig` taken by the clauses of `done`.
pub open spec fn copied(orig: Allocator, done: Set<CRef>) -> Set<int> {
    Set::new(|k: int| exists|c: CRef| #[trigger] done.contains(c) && words(orig, c).contains(k))
}

/// The words of the clause at `c` are in `from` as they were in `orig`.
pub open spec fn untouched(orig: Allocator, from: Allocator, c: CRef) -> bool {
    forall|k: int| #[trigger] words(orig, c).contains(k) ==> from.data@[k] == orig.data@[k]
}

/// The clause at `c` of `orig` has a copy in `to`, to which `from` forwards.
pub open spec fn moved(orig: Allocator, from: Allocator, to: Allocator, c: CRef) -> bool {
    let r = moved_to(from, c);
    &&& h_reloced(from.header(c))
    &&& h_same_except(from.header(c), orig.header(c), false, false, true, false, false)
    &&& to.valid(r)
    &&& to.header(r) == orig.header(c)
    &&& to.lits(r) == orig.lits(c)
    &&& r.0 + h_size(orig.header(c)) <= to.data.len()
}

/// Moving the clauses `live` of `orig` into `to` stands at `done`: these
/// were copied, side by side, and `from` forwards to the copies; the others
/// are still in `from` as they were.
pub open spec fn reloc_ok(orig: Allocator, from: Allocator, to: Allocator, live: Set<CRef>, done: Set<CRef>) -> bool {
    &&& from.data.len() == orig.data.len()
    &&& orig.data.len() < u32::MAX
    &&& to.wasted == 0
    &&& done.subset_of(live)
    &&& copied(orig, done).finite()
    &&& to.data.len() == copied(orig, done).len()
    &&& forall|c: CRef| #[trigger] live.contains(c) ==> orig.valid(c) && h_len(orig.header(c)) > 0 && !h_reloced(orig.header(c))
    &&& forall|c1: CRef, c2: CRef| #[trigger] live.contains(c1) && #[trigger] live.contains(c2) ==> c1 == c2 || apart(&orig, c1, c2)
    &&& forall|c: CRef| #[trigger] live.contains(c) && !done.contains(c) ==> untouched(orig, from, c)
    &&& forall|c: CRef| #[trigger] done.contains(c) ==> moved(orig, from, to, c)
    &&& forall|c1: CRef, c2: CRef| #[trigger] done.contains(c1) && #[trigger] done.contains(c2) ==> c1 == c2
        || apart(&to, moved_to(from, c1), moved_to(from, c2))
}

/// Moves the clause at `c`, one of `live`, unless it was moved already, and
/// gives where it now is.
fn reloc_live(from: &mut Allocator, to: &mut Allocator, c: CRef, Ghost(orig): Ghost<Allocator>, Ghost(live): Ghost<Set<CRef>>, Ghost(done): Ghost<Set<CRef>>) -> (r: CRef)
    requires
        reloc_ok(orig, *old(from), *old(to), live, done),
        live.contains(c),
    ensures
        reloc_ok(orig, *final(from), *final(to), live, done.insert(c)),
        r == moved_to(*final(from), c),
        forall|d: CRef| #[trigger] done.contains(d) ==> moved_to(*final(from), d) == moved_to(*old(from), d),
        done.contains(c) ==> *final(from) == *old(from) && *final(to) == *old(to),
{
    let ghost f0 = *from;
    let ghost t0 = *to;
    proof {
        assert(words(orig, c).contains(c.0 as int));
        if done.contains(c) {
            assert(moved(orig, f0, t0, c));
        } else {
            assert(untouched(orig, f0, c));
            assert(f0.header(c) == orig.header(c));
            lemma_copied_room(orig, live, done, c);
        }
    }
    let r = from.reloc(c, to);
    proof {
        if done.contains(c) {
            assert(done.insert(c) =~= done);
        } else {
            lemma_reloc_step(orig, f0, t0, *from, *to, live, done, c, r);
        }
    }
    r
}

/// Before the clause at `c`, not yet moved, is copied, the words copied
/// so far and its own fit in the arena.
pub(crate) proof fn lemma_copied_room(orig: Allocator, live: Set<CRef>, done: Set<CRef>, c: CRef)
    requires
        done.subset_of(live),
        copied(orig, done).finite(),
        live.contains(c),
        !done.contains(c),
        forall|d: CRef| #[trigger] live.contains(d) ==> orig.valid(d) && h_len(orig.header(d)) > 0,
        forall|c1: CRef, c2: CRef| #[trigger] live.contains(c1) && #[trigger] live.contains(c2) ==> c1 == c2 || apart(&orig, c1, c2),
    ensures
        copied(orig, done).disjoint(words(orig, c)),
        copied(orig, done.insert(c)) == copied(orig, done) + words(orig, c),
        copied(orig, done.insert(c)).finite(),
        copied(orig, done.insert(c)).len() == copied(orig, done).len() + h_size(orig.header(c)),
        copied(orig, done.insert(c)).len() <= orig.data.len(),
{
    let a = copied(orig, done);
    let w = words(orig, c);
    assert forall|k: int| a.contains(k) implies !w.contains(k) by {
        let d = choose|d: CRef| #[trigger] done.contains(d) && words(orig, d).contains(k);
        assert(live.contains(d));
        assert(d != c);
        assert(apart(&orig, c, d));
    }
    assert(copied(orig, done.insert(c)) =~= a + w) by {
        assert forall|k: int| #[trigger] copied(orig, done.insert(c)).contains(k) implies (a + w).contains(k) by {
            let d = choose|d: CRef| #[trigger] done.insert(c).contains(d) && words(orig, d).contains(k);
            if d != c {
                assert(done.contains(d));
            }
        }
        assert forall|k: int| #[trigger] (a + w).contains(k) implies copied(orig, done.insert(c)).contains(k) by {
            if a.contains(k) {
                let d = choose|d: CRef| #[trigger] done.contains(d) && words(orig, d).contains(k);
                assert(done.insert(c).contains(d));
            } else {
                assert(done.insert(c).contains(c));
            }
        }
    }
    lemma_int_range(c.0 as int, c.0 + h_size(orig.header(c)));
    lemma_set_disjoint_lens(a, w);
    let all = set_int_range(0, orig.data.len() as int);
    lemma_int_range(0, orig.data.len() as int);
    assert((a + w).subset_of(all)) by {
        assert forall|k: int| #[trigger] (a + w).contains(k) implies all.contains(k) by {
            if a.contains(k) {
                let d = choose|d: CRef| #[trigger] done.contains(d) && words(orig, d).contains(k);
                assert(live.contains(d));
            }
        }
    }
    lemma_len_subset(a + w, all);
}

/// One step of moving: the clause at `c`, not yet moved, was copied to `r`.
#[verifier::spinoff_prover]
#[verifier::rlimit(40)]
proof fn lemma_reloc_step(orig: Allocator, f0: Allocator, t0: Allocator, f1: Allocator, t1: Allocator, live: Set<CRef>, done: Set<CRef>, c: CRef, r: CRef)
    requires
        reloc_ok(orig, f0, t0, live, done),
        live.contains(c),
        !done.contains(c),
        f0.header(c) == orig.header(c),
        r.0 == t0.data.len(),
        t1.data@ == t0.data@ + f0.data@.subrange(c.0 as int, c.0 + h_size(f0.header(c))),
        t1.wasted == t0.wasted,
        t1.valid(r),
        t1.header(r) == f0.header(c),
        t1.lits(r) == f0.lits(c),
        h_reloced(f1.header(c)),
        h_same_except(f1.header(c), f0.header(c), false, false, true, false, false),
        f1.data@[c.0 + 1] == r.0,
        forall|d: int| 0 <= d < f0.data.len() && d != c.0 && d != c.0 + 1 ==> f1.data@[d] == f0.data@[d],
        f1.data.len() == f0.data.len(),
    ensures
        reloc_ok(orig, f1, t1, live, done.insert(c)),
        r == moved_to(f1, c),
        forall|d: CRef| #[trigger] done.contains(d) ==> moved_to(f1, d) == moved_to(f0, d),
{
    lemma_copied_room(orig, live, done, c);
    let nd = done.insert(c);
    assert(f0.lits(c) =~= orig.lits(c)) by {
        assert forall|k: int| 0 <= k < f0.clause_len(c) implies #[trigger] f0.lits(c)[k] == orig.lits(c)[k] by {
            assert(words(orig, c).contains(c.0 + 1 + k));
        }
    }
    assert(t0.data@ == t1.data@.subrange(0, t0.data.len() as int));
    // the words of every other clause in use stay where they were
    assert forall|d: CRef| #[trigger] live.contains(d) && d != c implies f1.data@[d.0 as int] == f0.data@[d.0 as int]
        && f1.data@[d.0 + 1] == f0.data@[d.0 + 1] by {
        assert(apart(&orig, c, d));
    }
    assert forall|d: CRef| #[trigger] live.contains(d) && !nd.contains(d) implies untouched(orig, f1, d) by {
        assert(untouched(orig, f0, d));
        assert(apart(&orig, c, d));
        assert forall|k: int| #[trigger] words(orig, d).contains(k) implies f1.data@[k] == orig.data@[k] by {
            assert(f0.data@[k] == orig.data@[k]);
        }
    }
    assert forall|d: CRef| #[trigger] nd.contains(d) implies moved(orig, f1, t1, d) by {
        if d != c {
            assert(done.contains(d));
            assert(moved(orig, f0, t0, d));
            assert(live.contains(d));
            lemma_extend_keeps(&t0, &t1, moved_to(f0, d));
        }
    }
    assert forall|c1: CRef, c2: CRef| #[trigger] nd.contains(c1) && #[trigger] nd.contains(c2) implies c1 == c2
        || apart(&t1, moved_to(f1, c1), moved_to(f1, c2)) by {
        if c1 != c2 {
            if c1 != c && c2 != c {
                assert(done.contains(c1) && done.contains(c2));
                assert(moved(orig, f0, t0, c1) && moved(orig, f0, t0, c2));
                assert(live.contains(c1) && live.contains(c2));
                lemma_extend_keeps(&t0, &t1, moved_to(f0, c1));
                lemma_extend_keeps(&t0, &t1, moved_to(f0, c2));
                assert(apart(&t0, moved_to(f0, c1), moved_to(f0, c2)));
            } else if c1 == c {
                assert(done.contains(c2));
                assert(moved(orig, f0, t0, c2));
                assert(live.contains(c2));
                lemma_extend_keeps(&t0, &t1, moved_to(f0, c2));
            } else {
                assert(done.contains(c1));
                assert(moved(orig, f0, t0, c1));
                assert(live.contains(c1));
                lemma_extend_keeps(&t0, &t1, moved_to(f0, c1));
            }
        }
    }
    assert forall|d: CRef| #[trigger] done.contains(d) implies moved_to(f1, d) == moved_to(f0, d) by {
        assert(live.contains(d));
    }
}

/// The clause at `c` has a watcher in `w`.
pub open spec fn in_lists(w: Seq<Vec<Watcher>>, c: CRef) -> bool {
    exists|q: int, i: int| 0 <= q < w.len() && 0 <= i < w[q]@.len() && (#[trigger] w[q]@[i]).clause == c
}

/// Moves every clause of the watch lists `wtrs` and points each watcher at
/// the copy of its clause.
fn reloc_watchers(wtrs: &mut Vec<Vec<Watcher>>, from: &mut Allocator, to: &mut Allocator, Ghost(orig): Ghost<Allocator>, Ghost(live): Ghost<Set<CRef>>)
    requires
        reloc_ok(orig, *old(from), *old(to), live, Set::empty()),
        forall|c: CRef| #[trigger] live.contains(c) <==> in_lists(old(wtrs)@, c),
    ensures
        reloc_ok(orig, *final(from), *final(to), live, live),
        final(wtrs)@.len() == old(wtrs)@.len(),
        forall|q: int| 0 <= q < old(wtrs)@.len() ==> (#[trigger] final(wtrs)@[q])@.len() == old(wtrs)@[q]@.len(),
        forall|q: int, i: int| 0 <= q < old(wtrs)@.len() && 0 <= i < old(wtrs)@[q]@.len() ==> (#[trigger] final(wtrs)@[q]@[i])
            == (Watcher { clause: moved_to(*final(from), old(wtrs)@[q]@[i].clause), blocker: old(wtrs)@[q]@[i].blocker }),
{
    let ghost ow = wtrs@;
    let ghost mut done: Set<CRef> = Set::empty();
    let mut q: usize = 0;
    while q < wtrs.len()
        invariant
            0 <= q <= wtrs@.len(),
            wtrs@.len() == ow.len(),
            forall|p: int| 0 <= p < ow.len() ==> (#[trigger] wtrs@[p])@.len() == ow[p]@.len(),
            reloc_ok(orig, *from, *to, live, done),
            forall|c: CRef| #[trigger] live.contains(c) <==> in_lists(ow, c),
            forall|p: int, j: int| 0 <= p < q && 0 <= j < ow[p]@.len() ==> done.contains((#[trigger] ow[p]@[j]).clause),
            forall|p: int, j: int| 0 <= p < q && 0 <= j < ow[p]@.len() ==> (#[trigger] wtrs@[p]@[j])
                == (Watcher { clause: moved_to(*from, ow[p]@[j].clause), blocker: ow[p]@[j].blocker }),
            forall|p: int, j: int| q <= p < ow.len() && 0 <= j < ow[p]@.len() ==> (#[trigger] wtrs@[p]@[j]) == ow[p]@[j],
        decreases wtrs@.len() - q,
    {
        let mut i: usize = 0;
        while i < wtrs[q].len()
            invariant
                0 <= q < wtrs@.len(),
                0 <= i <= wtrs@[q as int]@.len(),
                wtrs@.len() == ow.len(),
                forall|p: int| 0 <= p < ow.len() ==> (#[trigger] wtrs@[p])@.len() == ow[p]@.len(),
                reloc_ok(orig, *from, *to, live, done),
                forall|c: CRef| #[trigger] live.contains(c) <==> in_lists(ow, c),
                forall|p: int, j: int| 0 <= p < q && 0 <= j < ow[p]@.len() ==> done.contains((#[trigger] ow[p]@[j]).clause),
                forall|j: int| 0 <= j < i ==> done.contains((#[trigger] ow[q as int]@[j]).clause),
                forall|p: int, j: int| 0 <= p < q && 0 <= j < ow[p]@.len() ==> (#[trigger] wtrs@[p]@[j])
                    == (Watcher { clause: moved_to(*from, ow[p]@[j].clause), blocker: ow[p]@[j].blocker }),
                forall|j: int| 0 <= j < i ==> (#[trigger] wtrs@[q as int]@[j])
                    == (Watcher { clause: moved_to(*from, ow[q as int]@[j].clause), blocker: ow[q as int]@[j].blocker }),
                forall|j: int| i <= j < ow[q as int]@.len() ==> (#[trigger] wtrs@[q as int]@[j]) == ow[q as int]@[j],
                forall|p: int, j: int| q < p < ow.len() && 0 <= j < ow[p]@.len() ==> (#[trigger] wtrs@[p]@[j]) == ow[p]@[j],
            decreases wtrs@[q as int]@.len() - i,
        {
            let w = wtrs[q][i];
            proof {
                assert(w == ow[q as int]@[i as int]);
                assert(in_lists(ow, w.clause));
            }
            let ghost f0 = *from;
            let r = reloc_live(from, to, w.clause, Ghost(orig), Ghost(live), Ghost(done));
            let ghost w0 = wtrs@;
            let mut row = Vec::new();
            std::mem::swap(&mut row, &mut wtrs[q]);
            row.set(i, Watcher { clause: r, blocker: w.blocker });
            std::mem::swap(&mut row, &mut wtrs[q]);
            proof {
                assert forall|p: int| 0 <= p < ow.len() && p != q implies wtrs@[p] == w0[p] by {}
                done = done.insert(w.clause);
            }
            i = i + 1;
        }
        q = q + 1;
    }
    proof {
        assert(done =~= live) by {
            assert forall|c: CRef| #[trigger] live.contains(c) implies done.contains(c) by {
                let (p, j) = choose|p: int, j: int| 0 <= p < ow.len() && 0 <= j < ow[p]@.len() && (#[trigger] ow[p]@[j]).clause == c;
                assert(done.contains(ow[p]@[j].clause));
            }
        }
    }
}

/// Points each reference of `list`, all to clauses already moved, at the
/// copy.
fn reloc_refs(list: &mut Vec<CRef>, from: &mut Allocator, to: &mut Allocator, Ghost(orig): Ghost<Allocator>, Ghost(live): Ghost<Set<CRef>>)
    requires
        reloc_ok(orig, *old(from), *old(to), live, live),
        forall|k: int| 0 <= k < old(list)@.len() ==> live.contains(#[trigger] old(list)@[k]),
    ensures
        *final(from) == *old(from),
        *final(to) == *old(to),
        final(list)@.len() == old(list)@.len(),
        forall|k: int| 0 <= k < old(list)@.len() ==> #[trigger] final(list)@[k] == moved_to(*old(from), old(list)@[k]),
{
    let ghost ol = list@;
    let ghost f0 = *from;
    let ghost t0 = *to;
    let mut i: usize = 0;
    while i < list.len()
        invariant
            0 <= i <= list@.len(),
            list@.len() == ol.len(),
            *from == f0,
            *to == t0,
            reloc_ok(orig, f0, t0, live, live),
            forall|k: int| 0 <= k < ol.len() ==> live.contains(#[trigger] ol[k]),
            forall|k: int| 0 <= k < i ==> #[trigger] list@[k] == moved_to(f0, ol[k]),
            forall|k: int| i <= k < ol.len() ==> #[trigger] list@[k] == ol[k],
        decreases list@.len() - i,
    {
        let c = list[i];
        proof {
            assert(live.contains(ol[i as int]));
        }
        let r = reloc_live(from, to, c, Ghost(orig), Ghost(live), Ghost(live));
        proof {
            assert(live.insert(c) =~= live);
        }
        list.set(i, r);
        i = i + 1;
    }
}

/// Points the reason of each literal of `trail` that has one, a clause
/// already moved, at the copy.
fn reloc_reasons(reason: &mut Vec<CRef>, trail: &Vec<Lit>, from: &mut Allocator, to: &mut Allocator, Ghost(orig): Ghost<Allocator>, Ghost(live): Ghost<Set<CRef>>)
    requires
        reloc_ok(orig, *old(from), *old(to), live, live),
        forall|t: int| 0 <= t < trail@.len() ==> ((#[trigger] trail@[t]).var().0 as int) < old(reason)@.len(),
        forall|t1: int, t2: int| 0 <= t1 < t2 < trail@.len() ==> (#[trigger] trail@[t1]).var() != (#[trigger] trail@[t2]).var(),
        forall|t: int| 0 <= t < trail@.len() && old(reason)@[(#[trigger] trail@[t]).var().0 as int] != crate::cdb::spec_cref_none()
            ==> live.contains(old(reason)@[trail@[t].var().0 as int]),
    ensures
        *final(from) == *old(from),
        *final(to) == *old(to),
        final(reason)@.len() == old(reason)@.len(),
        forall|t: int| 0 <= t < trail@.len() ==> #[trigger] final(reason)@[trail@[t].var().0 as int] == (if old(reason)@[trail@[t].var().0 as int]
            == crate::cdb::spec_cref_none() { crate::cdb::spec_cref_none() } else { moved_to(*old(from), old(reason)@[trail@[t].var().0 as int]) }),
        forall|v: int| 0 <= v < old(reason)@.len() && (forall|t: int| 0 <= t < trail@.len() ==> (#[trigger] trail@[t]).var().0 != v)
            ==> #[trigger] final(reason)@[v] == old(reason)@[v],
{
    let ghost orr = reason@;
    let ghost f0 = *from;
    let ghost t0 = *to;
    let mut i: usize = 0;
    while i < trail.len()
        invariant
            0 <= i <= trail@.len(),
            reason@.len() == orr.len(),
            *from == f0,
            *to == t0,
            reloc_ok(orig, f0, t0, live, live),
            forall|t: int| 0 <= t < trail@.len() ==> ((#[trigger] trail@[t]).var().0 as int) < orr.len(),
            forall|t1: int, t2: int| 0 <= t1 < t2 < trail@.len() ==> (#[trigger] trail@[t1]).var() != (#[trigger] trail@[t2]).var(),
            forall|t: int| 0 <= t < trail@.len() && orr[(#[trigger] trail@[t]).var().0 as int] != crate::cdb::spec_cref_none()
                ==> live.contains(orr[trail@[t].var().0 as int]),
            forall|t: int| 0 <= t < i ==> #[trigger] reason@[trail@[t].var().0 as int] == (if orr[trail@[t].var().0 as int]
                == crate::cdb::spec_cref_none() { crate::cdb::spec_cref_none() } else { moved_to(f0, orr[trail@[t].var().0 as int]) }),
            forall|v: int| 0 <= v < orr.len() && (forall|t: int| 0 <= t < i ==> (#[trigger] trail@[t]).var().0 != v)
                ==> #[trigger] reason@[v] == orr[v],
        decreases trail@.len() - i,
    {
        let l = trail[i];
        let v = l.var_of();
        let vi = v.0 as usize;
        proof {
            assert(trail@[i as int] == l);
        }
        let c = reason[vi];
        proof {
            assert forall|t: int| 0 <= t < i implies (#[trigger] trail@[t]).var().0 != vi by {
                assert(trail@[t].var() != trail@[i as int].var());
            }
            assert(c == orr[vi as int]);
        }
        if c.0 != u32::MAX {
            proof {
                assert(c != crate::cdb::spec_cref_none());
            }
            let r = reloc_live(from, to, c, Ghost(orig), Ghost(live), Ghost(live));
            proof {
                assert(live.insert(c) =~= live);
            }
            reason.set(vi, r);
        } else {
            proof {
                assert(c == crate::cdb::spec_cref_none());
            }
        }
        proof {
            assert forall|t: int| 0 <= t < i + 1 implies #[trigger] reason@[trail@[t].var().0 as int] == (if orr[trail@[t].var().0 as int]
                == crate::cdb::spec_cref_none() { crate::cdb::spec_cref_none() } else { moved_to(f0, orr[trail@[t].var().0 as int]) }) by {
                if t < i {
                    assert(trail@[t].var() != trail@[i as int].var());
                }
            }
            assert forall|w: int| 0 <= w < orr.len() && (forall|t: int| 0 <= t < i + 1 ==> (#[trigger] trail@[t]).var().0 != w)
                implies #[trigger] reason@[w] == orr[w] by {
                assert(trail@[i as int].var().0 != w);
            }
        }
        i = i + 1;
    }
}

/// The clause at `d` of `b` has the header and literals of the clause at
/// `c` of `a`.
pub open spec fn same_clause(a: Solver, c: CRef, b: Solver, d: CRef) -> bool {
    &&& b.arena().header(d) == a.arena().header(c)
    &&& b.arena().lits(d) == a.arena().lits(c)
}

/// Each entry of `l2` names, in `b`, the clause that the entry of `l1` at the
/// same position names in `a`.
pub open spec fn same_list(a: Solver, l1: Seq<CRef>, b: Solver, l2: Seq<CRef>) -> bool {
    &&& l2.len() == l1.len()
    &&& forall|k: int| 0 <= k < l1.len() ==> #[trigger] same_clause(a, l1[k], b, l2[k])
}

/// `s` is `o` with every clause in use moved to a fresh arena that holds
/// nothing else: each watcher, list entry and reason of `s` names a clause
/// with the header and literals of the one it named in `o`.
pub open spec fn moved_all(o: Solver, s: Solver) -> bool {
    &&& s.watchers.wtrs@.len() == o.watchers.wtrs@.len()
    &&& forall|q: int| 0 <= q < o.watchers.wtrs@.len() ==> (#[trigger] s.watchers.wtrs@[q])@.len() == o.watchers.wtrs@[q]@.len()
    &&& forall|q: int, i: int| #[trigger] o.is_watch(q, i) ==> same_clause(o, o.wclause(q, i), s, s.wclause(q, i))
        && s.watchers.wtrs@[q]@[i].blocker == o.watchers.wtrs@[q]@[i].blocker
    &&& same_list(o, o.cdb.trans@, s, s.cdb.trans@)
    &&& same_list(o, o.cdb.lemmas@, s, s.cdb.lemmas@)
    &&& same_list(o, o.cdb.learnt@, s, s.cdb.learnt@)
    &&& same_list(o, o.cdb.temporary@, s, s.cdb.temporary@)
    &&& forall|t: int| 0 <= t < o.trail@.len() ==> {
        let x = #[trigger] o.trail@[t];
        &&& (s.reason_of(x) == spec_cref_none()) == (o.reason_of(x) == spec_cref_none())
        &&& o.reason_of(x) != spec_cref_none() ==> same_clause(o, o.reason_of(x), s, s.reason_of(x))
    }
    &&& s.cdb.allocator.wasted == 0
    &&& s.cdb.allocator.data@.len() <= o.cdb.allocator.data@.len()
}

impl Solver {
    /// The clauses in use can be moved: none is marked as moved already,
    /// and the clause lists and the reasons on the trail name watched
    /// clauses.
    pub open spec fn movable(&self) -> bool {
        &&& forall|c: CRef| #[trigger] self.watched(c) ==> !h_reloced(self.arena().header(c))
        &&& forall|k: int| 0 <= k < self.cdb.trans@.len() ==> self.watched(#[trigger] self.cdb.trans@[k])
        &&& forall|k: int| 0 <= k < self.cdb.lemmas@.len() ==> self.watched(#[trigger] self.cdb.lemmas@[k])
        &&& forall|k: int| 0 <= k < self.cdb.learnt@.len() ==> self.watched(#[trigger] self.cdb.learnt@[k])
        &&& forall|k: int| 0 <= k < self.cdb.temporary@.len() ==> self.watched(#[trigger] self.cdb.temporary@[k])
        &&& forall|t: int| 0 <= t < self.trail@.len() && self.reason_of(#[trigger] self.trail@[t]) != spec_cref_none()
            ==> self.watched(self.reason_of(self.trail@[t]))
    }

    /// When a third of the arena or more is wasted on freed clauses, copies
    /// the clauses in use to a fresh arena and points every watcher, list
    /// entry and reason at the copies.
    #[verifier::rlimit(40)]
    #[verifier::spinoff_prover]
    pub fn garbage_collect(&mut self)
        requires
            old(self).inv(),
            old(self).movable(),
            old(self).cdb.allocator.wasted <= old(self).cdb.allocator.data@.len(),
        ensures
            final(self).inv(),
            final(self).movable(),
            old(self).cdb.allocator.wasted * 3 <= old(self).cdb.allocator.data@.len() ==> *final(self) == *old(self),
            old(self).cdb.allocator.wasted * 3 > old(self).cdb.allocator.data@.len() ==> moved_all(*old(self), *final(self)),
            final(self).value == old(self).value,
            final(self).trail == old(self).trail,
            final(self).level == old(self).level,
            final(self).propagated == old(self).propagated,
            final(self).pos_in_trail == old(self).pos_in_trail,
            final(self).domain == old(self).domain,
            final(self).vsids == old(self).vsids,
            final(self).phase_saving == old(self).phase_saving,
            final(self).constrain_act == old(self).constrain_act,
            final(self).trivial_unsat == old(self).trivial_unsat,
            final(self).temporary_domain == old(self).temporary_domain,
            final(self).simplify == old(self).simplify,
    {
        let n = self.cdb.allocator.len();
        if self.cdb.allocator.wasted <= n / 3 {
            return;
        }
        let mut to = Allocator::with_capacity(n - self.cdb.allocator.wasted);
        let ghost o = *self;
        let ghost orig = o.cdb.allocator;
        let ghost live = Set::new(|c: CRef| o.watched(c));
        proof {
            lemma_gc_start(o, to, live);
        }
        reloc_watchers(&mut self.watchers.wtrs, &mut self.cdb.allocator, &mut to, Ghost(orig), Ghost(live));
        let ghost f = self.cdb.allocator;
        reloc_refs(&mut self.cdb.trans, &mut self.cdb.allocator, &mut to, Ghost(orig), Ghost(live));
        reloc_refs(&mut self.cdb.lemmas, &mut self.cdb.allocator, &mut to, Ghost(orig), Ghost(live));
        reloc_refs(&mut self.cdb.learnt, &mut self.cdb.allocator, &mut to, Ghost(orig), Ghost(live));
        reloc_refs(&mut self.cdb.temporary, &mut self.cdb.allocator, &mut to, Ghost(orig), Ghost(live));
        reloc_reasons(&mut self.reason, &self.trail, &mut self.cdb.allocator, &mut to, Ghost(orig), Ghost(live));
        self.cdb.allocator = to;
        proof {
            lemma_gc_done(o, *self, f, live);
        }
    }
}

/// Before any clause moves, moving the watched clauses of `o` into the
/// empty `to` stands at its start.
proof fn lemma_gc_start(o: Solver, to: Allocator, live: Set<CRef>)
    requires
        o.inv(),
        o.movable(),
        to.data.len() == 0,
        to.wasted == 0,
        live == Set::new(|c: CRef| o.watched(c)),
    ensures
        reloc_ok(o.cdb.allocator, o.cdb.allocator, to, live, Set::empty()),
        forall|c: CRef| #[trigger] live.contains(c) <==> in_lists(o.watchers.wtrs@, c),
{
    let orig = o.cdb.allocator;
    assert(copied(orig, Set::empty()) =~= Set::<int>::empty());
    assert forall|c: CRef| #[trigger] live.contains(c) implies orig.valid(c) && h_len(orig.header(c)) > 0 && !h_reloced(orig.header(c)) by {
        let (q, i) = choose|q: int, i: int| #[trigger] o.is_watch(q, i) && o.wclause(q, i) == c;
        assert(watchable(o.arena(), c, 2 * o.nv()));
    }
    assert forall|c1: CRef, c2: CRef| #[trigger] live.contains(c1) && #[trigger] live.contains(c2) implies c1 == c2 || apart(&orig, c1, c2) by {
        let (q1, i1) = choose|q: int, i: int| #[trigger] o.is_watch(q, i) && o.wclause(q, i) == c1;
        let (q2, i2) = choose|q: int, i: int| #[trigger] o.is_watch(q, i) && o.wclause(q, i) == c2;
        assert(o.wclause(q1, i1) == o.wclause(q2, i2) || apart(o.arena(), o.wclause(q1, i1), o.wclause(q2, i2)));
    }
    assert forall|c: CRef| #[trigger] live.contains(c) <==> in_lists(o.watchers.wtrs@, c) by {
        if live.contains(c) {
            let (q, i) = choose|q: int, i: int| #[trigger] o.is_watch(q, i) && o.wclause(q, i) == c;
            assert(o.watchers.wtrs@[q]@[i].clause == c);
        }
        if in_lists(o.watchers.wtrs@, c) {
            let (q, i) = choose|q: int, i: int| 0 <= q < o.watchers.wtrs@.len() && 0 <= i < o.watchers.wtrs@[q]@.len()
                && (#[trigger] o.watchers.wtrs@[q]@[i]).clause == c;
            assert(o.is_watch(q, i));
        }
    }
}

/// After the watched clauses moved and every reference followed them, the
/// invariant of propagation holds over the fresh arena.
proof fn lemma_gc_done(o: Solver, s: Solver, f: Allocator, live: Set<CRef>)
    requires
        o.inv(),
        o.movable(),
        live == Set::new(|c: CRef| o.watched(c)),
        reloc_ok(o.cdb.allocator, f, s.cdb.allocator, live, live),
        s.watchers.wtrs@.len() == o.watchers.wtrs@.len(),
        forall|q: int| 0 <= q < o.watchers.wtrs@.len() ==> (#[trigger] s.watchers.wtrs@[q])@.len() == o.watchers.wtrs@[q]@.len(),
        forall|q: int, i: int| 0 <= q < o.watchers.wtrs@.len() && 0 <= i < o.watchers.wtrs@[q]@.len() ==> (#[trigger] s.watchers.wtrs@[q]@[i])
            == (Watcher { clause: moved_to(f, o.watchers.wtrs@[q]@[i].clause), blocker: o.watchers.wtrs@[q]@[i].blocker }),
        s.cdb.trans@.len() == o.cdb.trans@.len(),
        forall|k: int| 0 <= k < o.cdb.trans@.len() ==> #[trigger] s.cdb.trans@[k] == moved_to(f, o.cdb.trans@[k]),
        s.cdb.lemmas@.len() == o.cdb.lemmas@.len(),
        forall|k: int| 0 <= k < o.cdb.lemmas@.len() ==> #[trigger] s.cdb.lemmas@[k] == moved_to(f, o.cdb.lemmas@[k]),
        s.cdb.learnt@.len() == o.cdb.learnt@.len(),
        forall|k: int| 0 <= k < o.cdb.learnt@.len() ==> #[trigger] s.cdb.learnt@[k] == moved_to(f, o.cdb.learnt@[k]),
        s.cdb.temporary@.len() == o.cdb.temporary@.len(),
        forall|k: int| 0 <= k < o.cdb.temporary@.len() ==> #[trigger] s.cdb.temporary@[k] == moved_to(f, o.cdb.temporary@[k]),
        s.reason@.len() == o.reason@.len(),
        forall|t: int| 0 <= t < o.trail@.len() ==> #[trigger] s.reason@[o.trail@[t].var().0 as int] == (if o.reason@[o.trail@[t].var().0 as int]
            == spec_cref_none() { spec_cref_none() } else { moved_to(f, o.reason@[o.trail@[t].var().0 as int]) }),
        s.value == o.value,
        s.trail == o.trail,
        s.level == o.level,
        s.propagated == o.propagated,
        s.pos_in_trail == o.pos_in_trail,
        s.domain == o.domain,
    ensures
        s.inv(),
        s.movable(),
        moved_all(o, s),
{
    let orig = o.cdb.allocator;
    let a = s.cdb.allocator;
    let n = 2 * o.nv();
    lemma_copied_bound(orig, live);
    // every watcher of `s` names the copy of the clause its twin in `o` names
    assert forall|q: int, i: int| #[trigger] s.is_watch(q, i) implies o.is_watch(q, i) && live.contains(o.wclause(q, i))
        && s.wclause(q, i) == moved_to(f, o.wclause(q, i)) && moved(orig, f, a, o.wclause(q, i)) by {
        assert(o.is_watch(q, i));
        assert(o.watched(o.wclause(q, i)));
    }
    assert forall|q: int, i: int| #[trigger] o.is_watch(q, i) implies s.is_watch(q, i) by {}
    // copies of watchable clauses are watchable
    assert forall|c: CRef, m: nat| live.contains(c) && #[trigger] watchable(&orig, c, m) implies watchable(&a, moved_to(f, c), m) by {
        assert(moved(orig, f, a, c));
    }
    // copies of distinct clauses in use are apart, hence distinct
    assert forall|c1: CRef, c2: CRef| #[trigger] live.contains(c1) && #[trigger] live.contains(c2) && c1 != c2
        implies apart(&a, moved_to(f, c1), moved_to(f, c2)) && moved_to(f, c1) != moved_to(f, c2) by {
        assert(moved(orig, f, a, c1));
    }
    assert(s.watchers.wf(&a)) by {
        assert forall|q: int, i: int|
            0 <= q < s.watchers.wtrs.len() && 0 <= i < s.watchers.wtrs@[q].len() implies {
                let w = #[trigger] s.watchers.wtrs@[q]@[i];
                &&& watchable(&a, w.clause, s.watchers.wtrs.len() as nat)
                &&& (a.lits(w.clause)[0].0 == crate::lit::neg_code(q as u32) || a.lits(w.clause)[1].0 == crate::lit::neg_code(q as u32))
                &&& (w.blocker.0 as int) < s.watchers.wtrs.len()
            } by {
            assert(s.is_watch(q, i));
            let c = o.wclause(q, i);
            assert(o.watchers.wtrs@[q]@[i].clause == c);
            assert(watchable(&orig, c, o.watchers.wtrs.len() as nat));
        }
        assert forall|q: int, i: int, j: int|
            0 <= q < s.watchers.wtrs.len() && 0 <= i < j < s.watchers.wtrs@[q].len() implies (#[trigger] s.watchers.wtrs@[q]@[i]).clause
                != (#[trigger] s.watchers.wtrs@[q]@[j]).clause by {
            assert(s.is_watch(q, i) && s.is_watch(q, j));
            assert(o.watchers.wtrs@[q]@[i].clause != o.watchers.wtrs@[q]@[j].clause);
        }
    }
    assert(s.disjoint_ok()) by {
        assert forall|q1: int, i1: int, q2: int, i2: int|
            s.is_watch(q1, i1) && s.is_watch(q2, i2) implies #[trigger] s.wclause(q1, i1) == #[trigger] s.wclause(q2, i2)
                || apart(s.arena(), s.wclause(q1, i1), s.wclause(q2, i2)) by {
            let c1 = o.wclause(q1, i1);
            let c2 = o.wclause(q2, i2);
            assert(live.contains(c1) && live.contains(c2));
        }
    }
    assert(s.reason_ok()) by {
        assert forall|t: int|
            0 <= t < s.trail.len() && s.reason_of(#[trigger] s.trail@[t]) != spec_cref_none()
                implies s.explains(s.reason_of(s.trail@[t]), s.trail@[t]) by {
            let x = s.trail@[t];
            assert(o.trail@[t] == x);
            let c = o.reason_of(x);
            assert(c != spec_cref_none());
            assert(o.explains(c, x));
            assert(o.watched(c));
            assert(live.contains(c));
            let r = s.reason_of(x);
            assert(r == moved_to(f, c));
            assert(moved(orig, f, a, c));
            assert(watchable(&orig, c, n));
            assert forall|q: int, i: int| #[trigger] s.is_watch(q, i) implies s.wclause(q, i) == r || apart(s.arena(), r, s.wclause(q, i)) by {
                let c2 = o.wclause(q, i);
                assert(live.contains(c2));
                if c2 != c {
                    assert(apart(&a, moved_to(f, c), moved_to(f, c2)));
                }
            }
        }
    }
    assert(s.movable()) by {
        assert forall|d: CRef| #[trigger] s.watched(d) implies !h_reloced(s.arena().header(d)) by {
            let (q, i) = choose|q: int, i: int| #[trigger] s.is_watch(q, i) && s.wclause(q, i) == d;
            assert(live.contains(o.wclause(q, i)));
        }
        assert forall|c: CRef| #[trigger] o.watched(c) implies s.watched(moved_to(f, c)) by {
            let (q, i) = choose|q: int, i: int| #[trigger] o.is_watch(q, i) && o.wclause(q, i) == c;
            assert(s.is_watch(q, i));
        }
        assert forall|k: int| 0 <= k < s.cdb.trans@.len() implies s.watched(#[trigger] s.cdb.trans@[k]) by {
            assert(o.watched(o.cdb.trans@[k]));
        }
        assert forall|k: int| 0 <= k < s.cdb.lemmas@.len() implies s.watched(#[trigger] s.cdb.lemmas@[k]) by {
            assert(o.watched(o.cdb.lemmas@[k]));
        }
        assert forall|k: int| 0 <= k < s.cdb.learnt@.len() implies s.watched(#[trigger] s.cdb.learnt@[k]) by {
            assert(o.watched(o.cdb.learnt@[k]));
        }
        assert forall|k: int| 0 <= k < s.cdb.temporary@.len() implies s.watched(#[trigger] s.cdb.temporary@[k]) by {
            assert(o.watched(o.cdb.temporary@[k]));
        }
        assert forall|t: int| 0 <= t < s.trail@.len() && s.reason_of(#[trigger] s.trail@[t]) != spec_cref_none()
            implies s.watched(s.reason_of(s.trail@[t])) by {
            assert(o.trail@[t] == s.trail@[t]);
            assert(o.watched(o.reason_of(o.trail@[t])));
        }
    }
    assert(moved_all(o, s)) by {
        assert forall|k: int| 0 <= k < o.cdb.trans@.len() implies #[trigger] same_clause(o, o.cdb.trans@[k], s, s.cdb.trans@[k]) by {
            assert(live.contains(o.cdb.trans@[k]));
        }
        assert forall|k: int| 0 <= k < o.cdb.lemmas@.len() implies #[trigger] same_clause(o, o.cdb.lemmas@[k], s, s.cdb.lemmas@[k]) by {
            assert(live.contains(o.cdb.lemmas@[k]));
        }
        assert forall|k: int| 0 <= k < o.cdb.learnt@.len() implies #[trigger] same_clause(o, o.cdb.learnt@[k], s, s.cdb.learnt@[k]) by {
            assert(live.contains(o.cdb.learnt@[k]));
        }
        assert forall|k: int| 0 <= k < o.cdb.temporary@.len() implies #[trigger] same_clause(o, o.cdb.temporary@[k], s, s.cdb.temporary@[k]) by {
            assert(live.contains(o.cdb.temporary@[k]));
        }
        assert forall|t: int| 0 <= t < o.trail@.len() implies {
            let x = #[trigger] o.trail@[t];
            &&& (s.reason_of(x) == spec_cref_none()) == (o.reason_of(x) == spec_cref_none())
            &&& o.reason_of(x) != spec_cref_none() ==> same_clause(o, o.reason_of(x), s, s.reason_of(x))
        } by {
            let x = o.trail@[t];
            if o.reason_of(x) != spec_cref_none() {
                assert(live.contains(o.reason_of(x)));
                assert(moved(orig, f, a, o.reason_of(x)));
            }
        }
    }
}

/// The words copied from `orig` are no more than `orig` holds.
pub(crate) proof fn lemma_copied_bound(orig: Allocator, done: Set<CRef>)
    requires
        forall|c: CRef| #[trigger] done.contains(c) ==> orig.valid(c),
    ensures
        copied(orig, done).finite(),
        copied(orig, done).len() <= orig.data.len(),
{
    let all = set_int_range(0, orig.data.len() as int);
    lemma_int_range(0, orig.data.len() as int);
    assert(copied(orig, done).subset_of(all)) by {
        assert forall|k: int| #[trigger] copied(orig, done).contains(k) implies all.contains(k) by {
            let d = choose|d: CRef| #[trigger] done.contains(d) && words(orig, d).contains(k);
        }
    }
    lemma_len_subset(copied(orig, done), all);
}

} // verus!
