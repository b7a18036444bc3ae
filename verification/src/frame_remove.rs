//! Taking lemmas out of the frames, as when a lemma turns out not to hold.
use crate::cube::{lemma_sorted_unique, sorted, Lemma};
use crate::frame::{frame_wf, has_lits, lemma_frame_wf_at, lits_of, FrameLemma, Frames};
use crate::lit::Lit;
use vstd::prelude::*;

verus! {

/// `l` is, up to order, one of the cubes of `lemmas`.
pub open spec fn listed(lemmas: Seq<Vec<Lit>>, l: Seq<Lit>) -> bool {
    exists|m: int| 0 <= m < lemmas.len() && l.to_multiset() == (#[trigger] lemmas[m])@.to_multiset()
}

/// Some lemma of `f` carries the proof obligation `p`.
pub open spec fn has_po(f: Seq<FrameLemma>, p: usize) -> bool {
    exists|x: FrameLemma| #[trigger] f.contains(x) && x.po == Some(p)
}

/// Some entry of `rs` is the lemma `l` of frame `k`.
pub open spec fn removed_has(rs: Seq<(usize, Lemma)>, k: int, l: Seq<Lit>) -> bool {
    exists|m: int| 0 <= m < rs.len() && (#[trigger] rs[m]).0 == k && rs[m].1.cube@ == l
}

/// Some lemma of frames `1..=frame` carries the proof obligation `p`.
pub open spec fn po_in_frames(fs: Seq<Vec<FrameLemma>>, frame: int, p: usize) -> bool {
    exists|k: int| 1 <= k <= frame && #[trigger] has_po(fs[k]@, p)
}

/// `keys` are the cubes of `lemmas`, in the same order, each sorted.
pub open spec fn keys_of(keys: Seq<Vec<Lit>>, lemmas: Seq<Vec<Lit>>) -> bool {
    &&& keys.len() == lemmas.len()
    &&& forall|m: int| 0 <= m < keys.len() ==> sorted((#[trigger] keys[m])@) && keys[m]@.to_multiset() == lemmas[m]@.to_multiset()
}

/// Whether the sorted `l` is one of the cubes that `keys` were made of.
fn in_keys(keys: &Vec<Vec<Lit>>, l: &Lemma, Ghost(lemmas): Ghost<Seq<Vec<Lit>>>) -> (b: bool)
    requires
        keys_of(keys@, lemmas),
        sorted(l.cube@),
    ensures
        b == listed(lemmas, l.cube@),
{
    let mut m: usize = 0;
    while m < keys.len()
        invariant
            keys_of(keys@, lemmas),
            sorted(l.cube@),
            0 <= m <= keys@.len(),
            forall|m2: int| 0 <= m2 < m ==> l.cube@.to_multiset() != (#[trigger] lemmas[m2])@.to_multiset(),
        decreases keys@.len() - m,
    {
        if crate::proofoblig::compare_lits(&keys[m], &l.cube) == crate::proofoblig::Order::Equal {
            proof {
                assert(l.cube@.to_multiset() == lemmas[m as int]@.to_multiset());
            }
            return true;
        }
        proof {
            if l.cube@.to_multiset() == lemmas[m as int]@.to_multiset() {
                lemma_sorted_unique(keys@[m as int]@, l.cube@);
            }
        }
        m = m + 1;
    }
    false
}

/// A copy of `v`.
fn copy_lits(v: &Vec<Lit>) -> (r: Vec<Lit>)
    ensures
        r@ == v@,
{
    let mut r: Vec<Lit> = Vec::new();
    let mut i: usize = 0;
    while i < v.len()
        invariant
            0 <= i <= v@.len(),
            r@ == v@.subrange(0, i as int),
        decreases v@.len() - i,
    {
        r.push(v[i]);
        i = i + 1;
    }
    assert(r@ =~= v@);
    r
}

/// Takes out of the frame `f` (of index `i`) every lemma listed in
/// `lemmas`, recording each in `removed`, and records in `marked` the
/// proof obligation of every lemma of the frame.
fn remove_from_frame(
    f: &mut Vec<FrameLemma>,
    keys: &Vec<Vec<Lit>>,
    Ghost(lemmas): Ghost<Seq<Vec<Lit>>>,
    i: usize,
    marked: &mut Vec<usize>,
    removed: &mut Vec<(usize, Lemma)>,
)
    requires
        frame_wf(old(f)@),
        keys_of(keys@, lemmas),
    ensures
        frame_wf(final(f)@),
        forall|x: FrameLemma| #[trigger] final(f)@.contains(x) <==> old(f)@.contains(x) && !listed(lemmas, lits_of(x)),
        final(marked)@.len() >= old(marked)@.len(),
        final(marked)@.subrange(0, old(marked)@.len() as int) == old(marked)@,
        forall|m: int| old(marked)@.len() <= m < final(marked)@.len() ==> has_po(old(f)@, #[trigger] final(marked)@[m]),
        forall|x: FrameLemma| #[trigger] old(f)@.contains(x) ==> (x.po matches Some(p) ==> final(marked)@.contains(p)),
        final(removed)@.len() >= old(removed)@.len(),
        final(removed)@.subrange(0, old(removed)@.len() as int) == old(removed)@,
        forall|m: int|
            old(removed)@.len() <= m < final(removed)@.len() ==> (#[trigger] final(removed)@[m]).0 == i && listed(lemmas, final(removed)@[m].1.cube@)
                && has_lits(old(f)@, final(removed)@[m].1.cube@),
        forall|x: FrameLemma|
            #[trigger] old(f)@.contains(x) && listed(lemmas, lits_of(x)) ==> exists|m: int|
                old(removed)@.len() <= m < final(removed)@.len() && (#[trigger] final(removed)@[m]).1.cube@ == lits_of(x),
{
    let ghost f0 = f@;
    let ghost m0 = marked@;
    let ghost r0 = removed@;
    proof {
        assert forall|k: int| 0 <= k < f@.len() implies f0.contains(#[trigger] f@[k]) by {
            assert(f0[k] == f@[k]);
        }
        assert(f@.subrange(0, f@.len() as int) =~= f@);
    }
    let mut j: usize = 0;
    while j < f.len()
        invariant
            0 <= j <= f@.len(),
            f0 == old(f)@,
            m0 == old(marked)@,
            r0 == old(removed)@,
            keys_of(keys@, lemmas),
            frame_wf(f@),
            forall|k: int| 0 <= k < f@.len() ==> f0.contains(#[trigger] f@[k]),
            forall|x: FrameLemma| #[trigger] f0.contains(x) ==> f@.contains(x) || listed(lemmas, lits_of(x)),
            forall|k: int| 0 <= k < j ==> !listed(lemmas, lits_of(#[trigger] f@[k])),
            marked@.len() >= m0.len(),
            marked@.subrange(0, m0.len() as int) == m0,
            forall|m: int| m0.len() <= m < marked@.len() ==> has_po(f0, #[trigger] marked@[m]),
            forall|x: FrameLemma| #[trigger] f0.contains(x) && !f@.subrange(j as int, f@.len() as int).contains(x) ==> (x.po matches Some(p) ==> marked@.contains(p)),
            removed@.len() >= r0.len(),
            removed@.subrange(0, r0.len() as int) == r0,
            forall|m: int|
                r0.len() <= m < removed@.len() ==> (#[trigger] removed@[m]).0 == i && listed(lemmas, removed@[m].1.cube@)
                    && has_lits(f0, removed@[m].1.cube@),
            forall|x: FrameLemma|
                #[trigger] f0.contains(x) && listed(lemmas, lits_of(x)) && !f@.subrange(j as int, f@.len() as int).contains(x) ==> exists|m: int|
                    r0.len() <= m < removed@.len() && (#[trigger] removed@[m]).1.cube@ == lits_of(x),
        decreases f@.len() - j,
    {
        let ghost fb = f@;
        let ghost mb = marked@;
        let ghost rb = removed@;
        let x = f[j].po;
        if let Some(p) = x {
            marked.push(p);
        }
        proof {
            assert(f0.contains(fb[j as int]));
            assert forall|m: int| m0.len() <= m < marked@.len() implies has_po(f0, #[trigger] marked@[m]) by {
                if m < mb.len() {
                    assert(marked@[m] == mb[m]);
                } else {
                    assert(f0.contains(fb[j as int]) && fb[j as int].po == Some(marked@[m]));
                }
            }
            assert(marked@.subrange(0, m0.len() as int) =~= mb.subrange(0, m0.len() as int));
            assert forall|p: usize| #[trigger] mb.contains(p) implies marked@.contains(p) by {
                let k = choose|k: int| 0 <= k < mb.len() && mb[k] == p;
                assert(marked@[k] == mb[k]);
            }
            if fb[j as int].po is Some {
                assert(marked@[marked@.len() - 1] == fb[j as int].po->0);
            }
            assert(sorted(fb[j as int].lemma.cube@));
        }
        if in_keys(keys, &f[j].lemma, Ghost(lemmas)) {
            let y = f.swap_remove(j);
            proof {
                assert(y == fb[j as int]);
                let k0 = choose|k0: int| 0 <= k0 < f0.len() && f0[k0] == y;
                assert(lits_of(f0[k0]) == y.lemma.cube@);
            }
            removed.push((i, y.lemma));
            proof {
                let fa = f@;
                assert(fa == fb.update(j as int, fb.last()).drop_last());
                assert forall|k: int| 0 <= k < fa.len() implies f0.contains(#[trigger] fa[k]) by {
                    if k == j {
                        assert(fa[k] == fb[fb.len() - 1]);
                        lemma_frame_wf_at(fb, fb.len() - 1);
                    } else {
                        assert(fa[k] == fb[k]);
                        lemma_frame_wf_at(fb, k);
                    }
                }
                assert forall|z: FrameLemma| #[trigger] f0.contains(z) implies fa.contains(z) || listed(lemmas, lits_of(z)) by {
                    if fb.contains(z) && !listed(lemmas, lits_of(z)) {
                        let k = choose|k: int| 0 <= k < fb.len() && fb[k] == z;
                        if k == j {
                        } else if k == fb.len() - 1 {
                            assert(fa[j as int] == z);
                        } else {
                            assert(fa[k] == z);
                        }
                    }
                }
                assert forall|k: int| 0 <= k < j implies !listed(lemmas, lits_of(#[trigger] fa[k])) by {
                    assert(fa[k] == fb[k]);
                }
                assert forall|k: int| 0 <= k < fa.len() implies sorted(#[trigger] fa[k].lemma.cube@) by {
                    if k == j {
                        assert(fa[k] == fb[fb.len() - 1]);
                        lemma_frame_wf_at(fb, fb.len() - 1);
                    } else {
                        assert(fa[k] == fb[k]);
                        lemma_frame_wf_at(fb, k);
                    }
                }
                // what is still to visit is what was, but for the removed lemma
                assert forall|z: FrameLemma| #[trigger] fb.subrange(j + 1, fb.len() as int).contains(z) implies fa.subrange(j as int, fa.len() as int).contains(z) by {
                    let k = choose|k: int| 0 <= k < fb.len() - j - 1 && #[trigger] fb.subrange(j + 1, fb.len() as int)[k] == z;
                    let kk = j + 1 + k;
                    if kk == fb.len() - 1 {
                        assert(fa.subrange(j as int, fa.len() as int)[0] == z);
                    } else {
                        assert(fa.subrange(j as int, fa.len() as int)[kk - j] == z);
                    }
                }
                assert forall|z: FrameLemma| #[trigger] f0.contains(z) && !fa.subrange(j as int, fa.len() as int).contains(z) implies (z.po matches Some(p) ==> marked@.contains(p)) by {
                    if fb.subrange(j as int, fb.len() as int).contains(z) {
                        if z != fb[j as int] {
                            let k = choose|k: int| 0 <= k < fb.len() - j && #[trigger] fb.subrange(j as int, fb.len() as int)[k] == z;
                            assert(k != 0);
                            assert(fb.subrange(j + 1, fb.len() as int)[k - 1] == z);
                            assert(fb.subrange(j + 1, fb.len() as int).contains(z));
                        }
                    }
                }
                assert(removed@.subrange(0, r0.len() as int) =~= rb.subrange(0, r0.len() as int));
                assert forall|m: int|
                    r0.len() <= m < removed@.len() implies (#[trigger] removed@[m]).0 == i && listed(lemmas, removed@[m].1.cube@)
                        && has_lits(f0, removed@[m].1.cube@) by {
                    if m < rb.len() {
                        assert(removed@[m] == rb[m]);
                    } else {
                        let k0 = choose|k0: int| 0 <= k0 < f0.len() && f0[k0] == y;
                        assert(lits_of(f0[k0]) == removed@[m].1.cube@);
                    }
                }
                assert forall|z: FrameLemma|
                    #[trigger] f0.contains(z) && listed(lemmas, lits_of(z)) && !fa.subrange(j as int, fa.len() as int).contains(z) implies exists|m: int|
                        r0.len() <= m < removed@.len() && (#[trigger] removed@[m]).1.cube@ == lits_of(z) by {
                    if fb.subrange(j as int, fb.len() as int).contains(z) && z != fb[j as int] {
                        let k = choose|k: int| 0 <= k < fb.len() - j && #[trigger] fb.subrange(j as int, fb.len() as int)[k] == z;
                        assert(k != 0);
                        assert(fb.subrange(j + 1, fb.len() as int)[k - 1] == z);
                        assert(fb.subrange(j + 1, fb.len() as int).contains(z));
                    }
                    if z == fb[j as int] {
                        assert(removed@[removed@.len() - 1].1.cube@ == lits_of(z));
                    } else {
                        let m = choose|m: int| r0.len() <= m < rb.len() && (#[trigger] rb[m]).1.cube@ == lits_of(z);
                        assert(removed@[m] == rb[m]);
                    }
                }
            }
        } else {
            proof {
                assert forall|z: FrameLemma| #[trigger] f0.contains(z) && !fb.subrange(j + 1, fb.len() as int).contains(z) implies (z.po matches Some(p) ==> marked@.contains(p)) by {
                    if fb.subrange(j as int, fb.len() as int).contains(z) && z != fb[j as int] {
                        let k = choose|k: int| 0 <= k < fb.len() - j && #[trigger] fb.subrange(j as int, fb.len() as int)[k] == z;
                        assert(k != 0);
                        assert(fb.subrange(j + 1, fb.len() as int)[k - 1] == z);
                    }
                }
                assert forall|z: FrameLemma|
                    #[trigger] f0.contains(z) && listed(lemmas, lits_of(z)) && !fb.subrange(j + 1, fb.len() as int).contains(z) implies exists|m: int|
                        r0.len() <= m < removed@.len() && (#[trigger] removed@[m]).1.cube@ == lits_of(z) by {
                    if fb.subrange(j as int, fb.len() as int).contains(z) && z != fb[j as int] {
                        let k = choose|k: int| 0 <= k < fb.len() - j && #[trigger] fb.subrange(j as int, fb.len() as int)[k] == z;
                        assert(k != 0);
                        assert(fb.subrange(j + 1, fb.len() as int)[k - 1] == z);
                    }
                }
            }
            j = j + 1;
        }
    }
    proof {
        assert forall|x: FrameLemma| #[trigger] f@.contains(x) implies f0.contains(x) && !listed(lemmas, lits_of(x)) by {
            let k = choose|k: int| 0 <= k < f@.len() && f@[k] == x;
            assert(!listed(lemmas, lits_of(f@[k])));
        }
        assert(f@.subrange(j as int, f@.len() as int) =~= Seq::<FrameLemma>::empty());
    }
}



impl Frames {
    /// Takes every lemma listed in `lemmas` (each up to the order of its
    /// literals) out of frames `1..=frame`. Returns the proof obligations
    /// of all lemmas of those frames, which are to be marked removed, and
    /// the removed lemmas with their frames, which leave the solvers of
    /// frames `0..=frame`.
    pub fn remove_lemma(&mut self, frame: usize, lemmas: Vec<Vec<Lit>>) -> (r: (Vec<usize>, Vec<(usize, Lemma)>))
        requires
            old(self).wf(),
            frame < old(self).frames@.len(),
        ensures
            final(self).wf(),
            final(self).frames@.len() == old(self).frames@.len(),
            final(self).early == old(self).early,
            forall|i: int| 0 <= i < old(self).frames@.len() && (i == 0 || i > frame) ==> #[trigger] final(self).frame(i) == old(self).frame(i),
            forall|i: int, x: FrameLemma|
                1 <= i <= frame ==> (#[trigger] final(self).frame(i).contains(x) <==> old(self).frame(i).contains(x) && !listed(lemmas@, lits_of(x))),
            forall|i: int, x: FrameLemma|
                1 <= i <= frame && #[trigger] old(self).frame(i).contains(x) ==> (x.po matches Some(p) ==> r.0@.contains(p)),
            forall|m: int| 0 <= m < r.0@.len() ==> po_in_frames(old(self).frames@, frame as int, #[trigger] r.0@[m]),
            forall|m: int|
                0 <= m < r.1@.len() ==> 1 <= (#[trigger] r.1@[m]).0 <= frame && listed(lemmas@, r.1@[m].1.cube@)
                    && has_lits(old(self).frame(r.1@[m].0 as int), r.1@[m].1.cube@),
            forall|i: int, x: FrameLemma|
                1 <= i <= frame && #[trigger] old(self).frame(i).contains(x) && listed(lemmas@, lits_of(x)) ==> removed_has(r.1@, i, lits_of(x)),
    {
        let ghost o = self.frames@;
        let mut keys: Vec<Vec<Lit>> = Vec::new();
        let mut m: usize = 0;
        while m < lemmas.len()
            invariant
                0 <= m <= lemmas@.len(),
                keys_of(keys@, lemmas@.subrange(0, m as int)),
            decreases lemmas@.len() - m,
        {
            let l = Lemma::new(copy_lits(&lemmas[m]));
            keys.push(l.cube);
            proof {
                let sub = lemmas@.subrange(0, m + 1);
                assert forall|m2: int| 0 <= m2 < keys@.len() implies sorted((#[trigger] keys@[m2])@) && keys@[m2]@.to_multiset() == sub[m2]@.to_multiset() by {
                    if m2 < m {
                        assert(sub[m2] == lemmas@.subrange(0, m as int)[m2]);
                    }
                }
            }
            m = m + 1;
        }
        proof {
            assert(lemmas@.subrange(0, lemmas@.len() as int) =~= lemmas@);
        }
        let mut marked: Vec<usize> = Vec::new();
        let mut removed: Vec<(usize, Lemma)> = Vec::new();
        let mut i: usize = frame;
        while i > 0
            invariant
                0 <= i <= frame < o.len(),
                o == old(self).frames@,
                self.frames@.len() == o.len(),
                self.wf(),
                self.early == old(self).early,
                keys_of(keys@, lemmas@),
                forall|k: int| 0 <= k < o.len() && (k <= i || k > frame) ==> #[trigger] self.frame(k) == o[k]@,
                forall|k: int, x: FrameLemma|
                    i < k <= frame ==> (#[trigger] self.frame(k).contains(x) <==> o[k]@.contains(x) && !listed(lemmas@, lits_of(x))),
                forall|k: int, x: FrameLemma|
                    i < k <= frame && #[trigger] o[k]@.contains(x) ==> (x.po matches Some(p) ==> marked@.contains(p)),
                forall|mm: int| 0 <= mm < marked@.len() ==> exists|k: int| i < k <= frame && has_po(o[k]@, #[trigger] marked@[mm]),
                forall|mm: int|
                    0 <= mm < removed@.len() ==> i < (#[trigger] removed@[mm]).0 <= frame && listed(lemmas@, removed@[mm].1.cube@)
                        && has_lits(o[removed@[mm].0 as int]@, removed@[mm].1.cube@),
                forall|k: int, x: FrameLemma|
                    i < k <= frame && #[trigger] o[k]@.contains(x) && listed(lemmas@, lits_of(x)) ==> removed_has(removed@, k, lits_of(x)),
            decreases i,
        {
            let ghost s0 = self.frames@;
            let ghost mb = marked@;
            let ghost rb = removed@;
            let mut fi: Vec<FrameLemma> = Vec::new();
            std::mem::swap(&mut fi, &mut self.frames[i]);
            proof {
                assert(fi@ == o[i as int]@);
                assert(frame_wf(o[i as int]@));
            }
            remove_from_frame(&mut fi, &keys, Ghost(lemmas@), i, &mut marked, &mut removed);
            std::mem::swap(&mut fi, &mut self.frames[i]);
            proof {
                assert forall|k: int| 0 <= k < self.frames@.len() && k != i implies self.frames@[k] == s0[k] by {}
                assert forall|k: int| 0 <= k < self.frames@.len() implies frame_wf(#[trigger] self.frames@[k]@) by {
                    if k != i {
                        assert(self.frames@[k] == s0[k]);
                    }
                }
                assert forall|mm: int| 0 <= mm < marked@.len() implies exists|k: int| i - 1 < k <= frame && has_po(o[k]@, #[trigger] marked@[mm]) by {
                    if mm < mb.len() {
                        assert(marked@[mm] == mb[mm]);
                        let k = choose|k: int| i < k <= frame && has_po(o[k]@, #[trigger] mb[mm]);
                    } else {
                        assert(has_po(o[i as int]@, marked@[mm]));
                    }
                }
                assert forall|k: int, x: FrameLemma|
                    i - 1 < k <= frame && #[trigger] o[k]@.contains(x) implies (x.po matches Some(p) ==> marked@.contains(p)) by {
                    if k > i {
                        if x.po is Some {
                            let p = x.po->0;
                            assert(mb.contains(p));
                            let q = choose|q: int| 0 <= q < mb.len() && mb[q] == p;
                            assert(marked@[q] == mb[q]);
                        }
                    }
                }
                assert forall|mm: int|
                    0 <= mm < removed@.len() implies i - 1 < (#[trigger] removed@[mm]).0 <= frame && listed(lemmas@, removed@[mm].1.cube@)
                        && has_lits(o[removed@[mm].0 as int]@, removed@[mm].1.cube@) by {
                    if mm < rb.len() {
                        assert(removed@[mm] == rb[mm]);
                    }
                }
                assert forall|k: int, x: FrameLemma|
                    i - 1 < k <= frame && #[trigger] o[k]@.contains(x) && listed(lemmas@, lits_of(x)) implies removed_has(removed@, k, lits_of(x)) by {
                    if k > i {
                        let mm = choose|mm: int| 0 <= mm < rb.len() && (#[trigger] rb[mm]).0 == k && rb[mm].1.cube@ == lits_of(x);
                        assert(removed@[mm] == rb[mm]);
                    } else {
                        let mm = choose|mm: int| rb.len() <= mm < removed@.len() && (#[trigger] removed@[mm]).1.cube@ == lits_of(x);
                        assert(removed@[mm].0 == i);
                    }
                }
            }
            i = i - 1;
        }
        proof {
            assert forall|mm: int| 0 <= mm < marked@.len() implies po_in_frames(o, frame as int, #[trigger] marked@[mm]) by {
                let k = choose|k: int| 0 < k <= frame && has_po(o[k]@, #[trigger] marked@[mm]);
                assert(1 <= k <= frame && has_po(o[k]@, marked@[mm]));
            }

        }
        (marked, removed)
    }
}

} // verus!
