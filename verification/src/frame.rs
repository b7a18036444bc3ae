//! The frames of IC3: frame `i` holds the lemmas known to hold in every
//! state reachable within `i` steps. Each lemma may carry the proof
//! obligation (by its index) that it was learnt from.
use crate::cube::{covers, lemma_covers_same_lits, sorted, Lemma};
use crate::lit::Lit;
use vstd::prelude::*;

verus! {

/// A lemma of a frame, with the proof obligation it came from.
pub struct FrameLemma {
    pub lemma: Lemma,
    pub po: Option<usize>,
}

/// The literals of a frame's lemma.
pub open spec fn lits_of(x: FrameLemma) -> Seq<Lit> {
    x.lemma.cube@
}

/// Every lemma of the frame is sorted.
pub open spec fn frame_wf(f: Seq<FrameLemma>) -> bool {
    forall|k: int| 0 <= k < f.len() ==> sorted(#[trigger] f[k].lemma.cube@)
}

/// Some lemma of `f` has the literals `l`.
pub open spec fn has_lits(f: Seq<FrameLemma>, l: Seq<Lit>) -> bool {
    exists|k: int| 0 <= k < f.len() && lits_of(#[trigger] f[k]) == l
}

/// Some lemma of `f` covers the cube `c`.
pub open spec fn has_cover(f: Seq<FrameLemma>, c: Seq<Lit>) -> bool {
    exists|k: int| 0 <= k < f.len() && covers(lits_of(#[trigger] f[k]), c)
}

/// Each lemma of `s` is a lemma of `o`.
pub open spec fn kept_from(o: Seq<FrameLemma>, s: Seq<FrameLemma>) -> bool {
    forall|m: int| 0 <= m < s.len() ==> o.contains(#[trigger] s[m])
}

/// Each lemma of `o` missing from `s` is subsumed by `nl`.
pub open spec fn dropped_covered(o: Seq<FrameLemma>, s: Seq<FrameLemma>, nl: Seq<Lit>) -> bool {
    forall|x: FrameLemma| o.contains(x) ==> s.contains(x) || covers(nl, lits_of(x))
}

/// No lemma of `s` is subsumed by `nl`.
pub open spec fn clean(s: Seq<FrameLemma>, nl: Seq<Lit>) -> bool {
    forall|m: int| 0 <= m < s.len() ==> !covers(nl, lits_of(#[trigger] s[m]))
}

/// `b <= k`, as a trigger-free bound.
pub open spec fn r_begin_le(b: int, k: int) -> bool {
    b <= k
}

/// A frame whose last lemma was made from `cube` holds a lemma that
/// subsumes `cube`: once added, a lemma is found again by the containment
/// check.
pub proof fn lemma_added_is_contained(f: Seq<FrameLemma>, cube: Seq<Lit>)
    requires
        f.len() > 0,
        lits_of(f[f.len() - 1]).to_multiset() == cube.to_multiset(),
    ensures
        has_cover(f, cube),
{
    let nl = lits_of(f[f.len() - 1]);
    crate::cube::lemma_covers_preorder(nl, nl, nl);
    lemma_covers_same_lits(nl, nl, cube);
    assert(covers(lits_of(f[f.len() - 1]), cube));
}

/// Each lemma of a well-formed frame is sorted.
pub proof fn lemma_frame_wf_at(f: Seq<FrameLemma>, k: int)
    requires
        frame_wf(f),
        0 <= k < f.len(),
    ensures
        sorted(f[k].lemma.cube@),
{
}

/// Pushing onto a frame keeps its lemmas where they were.
proof fn lemma_push_keeps(f: Seq<FrameLemma>, x: FrameLemma)
    ensures
        forall|m: int| 0 <= m < f.len() ==> #[trigger] f.push(x)[m] == f[m],
        f.push(x)[f.len() as int] == x,
        f.push(x).len() == f.len() + 1,
{
}

/// Where the scan of one frame stopped.
#[derive(PartialEq, Eq, Structural)]
pub enum ScanStop {
    /// The whole frame was scanned.
    Done,
    /// The frame held the lemma itself, which was taken out.
    Equal,
    /// The frame held a strictly stronger lemma.
    Subsumed,
}

/// What adding a lemma did, for the solvers of the frames: the clause of
/// the lemma goes to the solvers of frames `begin..=frame`, and each
/// removed lemma leaves the solver of its frame.
pub struct LemmaUpdate {
    /// Whether the lemma was added at all.
    pub added: bool,
    /// Whether a frame became empty, so that an inductive invariant was found.
    pub result: bool,
    /// The first frame whose solver learns the lemma.
    pub begin: usize,
    /// Whether the lemma was already in frame `begin - 1` and moved up.
    pub moved: bool,
    /// The lemmas that the new lemma subsumed, with their frames.
    pub removed: Vec<(usize, Lemma)>,
}

/// Scans the frame `f` for the new lemma `nl` of frame index `i`: takes
/// out each lemma that `nl` subsumes, recording it in `removed`, and stops
/// at the first lemma that subsumes `nl` (taking it out when it is `nl`
/// itself).
fn scan_frame(f: &mut Vec<FrameLemma>, nl: &Lemma, removed: &mut Vec<(usize, Lemma)>, i: usize) -> (r:
    ScanStop)
    requires
        frame_wf(old(f)@),
        nl.wf(),
    ensures
        frame_wf(final(f)@),
        forall|k: int| 0 <= k < final(f)@.len() ==> old(f)@.contains(#[trigger] final(f)@[k]),
        forall|x: FrameLemma|
            old(f)@.contains(x) ==> final(f)@.contains(x) || covers(nl.lits(), lits_of(x)),
        final(removed)@.len() >= old(removed)@.len(),
        final(removed)@.subrange(0, old(removed)@.len() as int) == old(removed)@,
        forall|m: int|
            old(removed)@.len() <= m < final(removed)@.len() ==> {
                &&& (#[trigger] final(removed)@[m]).0 == i
                &&& covers(nl.lits(), final(removed)@[m].1.cube@)
                &&& has_lits(old(f)@, final(removed)@[m].1.cube@)
            },
        r == ScanStop::Done ==> forall|k: int|
            0 <= k < final(f)@.len() ==> !covers(nl.lits(), lits_of(#[trigger] final(f)@[k])),
        r == ScanStop::Done ==> !has_cover(old(f)@, nl.lits()),
        r == ScanStop::Equal ==> has_lits(old(f)@, nl.lits()),
        r == ScanStop::Subsumed ==> has_cover(old(f)@, nl.lits()),
{
    let ghost f0 = f@;
    let ghost r0 = removed@;
    let mut j: usize = 0;
    while j < f.len()
        invariant
            0 <= j <= f.len(),
            nl.wf(),
            f0 == old(f)@,
            r0 == old(removed)@,
            frame_wf(f@),
            forall|k: int| 0 <= k < f@.len() ==> f0.contains(#[trigger] f@[k]),
            forall|x: FrameLemma| f0.contains(x) ==> f@.contains(x) || covers(nl.lits(), lits_of(x)),
            forall|k: int| 0 <= k < j ==> !covers(nl.lits(), lits_of(#[trigger] f@[k])),
            forall|x: FrameLemma| #[trigger] f0.contains(x) && covers(lits_of(x), nl.lits())
                ==> exists|k: int| j <= k < f@.len() && f@[k] == x,
            removed@.len() >= r0.len(),
            removed@.subrange(0, r0.len() as int) == r0,
            forall|m: int|
                r0.len() <= m < removed@.len() ==> {
                    &&& (#[trigger] removed@[m]).0 == i
                    &&& covers(nl.lits(), removed@[m].1.cube@)
                    &&& has_lits(f0, removed@[m].1.cube@)
                },
        decreases f.len() - j,
    {
        if f[j].lemma.subsume(nl) {
            if f[j].lemma.eq(nl) {
                proof {
                    assert(f0.contains(f@[j as int]));
                    let k0 = choose|k0: int| 0 <= k0 < f0.len() && f0[k0] == f@[j as int];
                    assert(lits_of(f0[k0]) == nl.lits());
                    assert(covers(nl.lits(), nl.lits()));
                }
                let ghost fb = f@;
                let _ = f.swap_remove(j);
                proof {
                    assert forall|k: int| 0 <= k < f@.len() implies f0.contains(#[trigger] f@[k]) by {
                        if k == j {
                            assert(f@[k] == fb[fb.len() - 1]);
                            lemma_frame_wf_at(fb, fb.len() - 1);
                        } else {
                            assert(f@[k] == fb[k]);
                            lemma_frame_wf_at(fb, k);
                        }
                    }
                    assert forall|x: FrameLemma| f0.contains(x) implies f@.contains(x) || covers(
                        nl.lits(),
                        lits_of(x),
                    ) by {
                        if fb.contains(x) && !covers(nl.lits(), lits_of(x)) {
                            let k = choose|k: int| 0 <= k < fb.len() && fb[k] == x;
                            if k == j {
                                assert(lits_of(x) == nl.lits());
                            } else if k == fb.len() - 1 {
                                assert(f@[j as int] == x);
                            } else {
                                assert(f@[k] == x);
                            }
                        }
                    }
                    assert forall|k: int| 0 <= k < f@.len() implies sorted(
                        #[trigger] f@[k].lemma.cube@,
                    ) by {
                        if k == j {
                            assert(f@[k] == fb[fb.len() - 1]);
                            lemma_frame_wf_at(fb, fb.len() - 1);
                        } else {
                            assert(f@[k] == fb[k]);
                            lemma_frame_wf_at(fb, k);
                        }
                    }
                    assert(removed@.subrange(0, r0.len() as int) == r0);
                }
                return ScanStop::Equal;
            } else {
                proof {
                    assert(f0.contains(f@[j as int]));
                    let k0 = choose|k0: int| 0 <= k0 < f0.len() && f0[k0] == f@[j as int];
                    assert(covers(lits_of(f0[k0]), nl.lits()));
                }
                return ScanStop::Subsumed;
            }
        }
        if nl.subsume(&f[j].lemma) {
            let ghost fb = f@;
            let ghost rb = removed@;
            let x = f.swap_remove(j);
            proof {
                assert(fb[j as int] == x);
                assert(f0.contains(x));
                let k0 = choose|k0: int| 0 <= k0 < f0.len() && f0[k0] == x;
                assert(lits_of(f0[k0]) == x.lemma.cube@);
                assert forall|k: int| 0 <= k < f@.len() implies f0.contains(#[trigger] f@[k]) by {
                    if k == j {
                        assert(f@[k] == fb[fb.len() - 1]);
                        lemma_frame_wf_at(fb, fb.len() - 1);
                    } else {
                        assert(f@[k] == fb[k]);
                        lemma_frame_wf_at(fb, k);
                    }
                }
                assert forall|x2: FrameLemma| f0.contains(x2) implies f@.contains(x2) || covers(
                    nl.lits(),
                    lits_of(x2),
                ) by {
                    if fb.contains(x2) && !covers(nl.lits(), lits_of(x2)) {
                        let k = choose|k: int| 0 <= k < fb.len() && fb[k] == x2;
                        if k == j {
                        } else if k == fb.len() - 1 {
                            assert(f@[j as int] == x2);
                        } else {
                            assert(f@[k] == x2);
                        }
                    }
                }
                assert forall|k: int| 0 <= k < f@.len() implies sorted(#[trigger] f@[k].lemma.cube@) by {
                    if k == j {
                        assert(f@[k] == fb[fb.len() - 1]);
                        lemma_frame_wf_at(fb, fb.len() - 1);
                    } else {
                        assert(f@[k] == fb[k]);
                        lemma_frame_wf_at(fb, k);
                    }
                }
                assert forall|k: int| 0 <= k < j implies !covers(nl.lits(), lits_of(#[trigger] f@[k])) by {
                    assert(f@[k] == fb[k]);
                }
                assert forall|y: FrameLemma| #[trigger] f0.contains(y) && covers(lits_of(y), nl.lits())
                    implies exists|k: int| j <= k < f@.len() && f@[k] == y by {
                    let k = choose|k: int| j <= k < fb.len() && fb[k] == y;
                    if k == j {
                        assert(false);
                    } else if k == fb.len() - 1 {
                        assert(f@[j as int] == y);
                    } else {
                        assert(f@[k] == y);
                    }
                }
            }
            removed.push((i, x.lemma));
            proof {
                assert(removed@.subrange(0, r0.len() as int) =~= rb.subrange(0, r0.len() as int));
                assert forall|m: int| r0.len() <= m < removed@.len() implies {
                    &&& (#[trigger] removed@[m]).0 == i
                    &&& covers(nl.lits(), removed@[m].1.cube@)
                    &&& has_lits(f0, removed@[m].1.cube@)
                } by {
                    if m < rb.len() {
                        assert(removed@[m] == rb[m]);
                    } else {
                        let k0 = choose|k0: int| 0 <= k0 < f0.len() && f0[k0] == x;
                        assert(lits_of(f0[k0]) == removed@[m].1.cube@);
                    }
                }
            }
        } else {
            proof {
                assert forall|y: FrameLemma| #[trigger] f0.contains(y) && covers(lits_of(y), nl.lits())
                    implies exists|k: int| j + 1 <= k < f@.len() && f@[k] == y by {
                    let k = choose|k: int| j <= k < f@.len() && f@[k] == y;
                    assert(k != j);
                }
            }
            j = j + 1;
        }
    }
    proof {
        assert forall|k: int| 0 <= k < f0.len() implies !covers(lits_of(#[trigger] f0[k]), nl.lits()) by {
            assert(f0.contains(f0[k]));
        }
    }
    ScanStop::Done
}

/// The frames of IC3.
pub struct Frames {
    pub frames: Vec<Vec<FrameLemma>>,
    pub early: usize,
}

impl Frames {
    /// Every lemma of every frame is sorted.
    pub open spec fn wf(&self) -> bool {
        forall|i: int| 0 <= i < self.frames@.len() ==> frame_wf(#[trigger] self.frames@[i]@)
    }

    /// The lemmas of frame `i`.
    #[verifier::inline]
    pub open spec fn frame(&self, i: int) -> Seq<FrameLemma> {
        self.frames@[i]@
    }

    /// No frames yet; the earliest changed frame is the first.
    pub fn new() -> (f: Frames)
        ensures
            f.wf(),
            f.frames@.len() == 0,
            f.early == 1,
    {
        Frames { frames: Vec::new(), early: 1 }
    }

    /// Adds an empty frame on top.
    pub fn new_frame(&mut self)
        requires
            old(self).wf(),
        ensures
            final(self).wf(),
            final(self).frames@.len() == old(self).frames@.len() + 1,
            forall|i: int| 0 <= i < old(self).frames@.len() ==> final(self).frame(i) == old(self).frame(i),
            final(self).frame(old(self).frames@.len() as int).len() == 0,
            final(self).early == old(self).early,
    {
        self.frames.push(Vec::new());
        proof {
            assert forall|i: int| 0 <= i < self.frames@.len() implies frame_wf(#[trigger] self.frames@[i]@) by {
                if i < old(self).frames@.len() {
                    assert(self.frames@[i] == old(self).frames@[i]);
                }
            }
        }
    }

    /// The first lemma, from frame `frame` upwards, that subsumes `lemma`:
    /// its frame and its position there.
    pub fn trivial_contained(&self, frame: usize, lemma: &Lemma) -> (r: Option<(usize, usize)>)
        requires
            self.wf(),
            lemma.wf(),
        ensures
            match r {
                Some((i, j)) => {
                    &&& frame <= i < self.frames@.len()
                    &&& j < self.frame(i as int).len()
                    &&& covers(lits_of(self.frame(i as int)[j as int]), lemma.lits())
                    &&& forall|i2: int| frame <= i2 < i ==> !has_cover(#[trigger] self.frame(i2), lemma.lits())
                    &&& forall|j2: int|
                        0 <= j2 < j ==> !covers(lits_of(#[trigger] self.frame(i as int)[j2]), lemma.lits())
                },
                None => forall|i2: int|
                    frame <= i2 < self.frames@.len() ==> !has_cover(#[trigger] self.frame(i2), lemma.lits()),
            },
    {
        let mut i = frame;
        while i < self.frames.len()
            invariant
                self.wf(),
                lemma.wf(),
                frame <= i,
                forall|i2: int| frame <= i2 < i ==> !has_cover(#[trigger] self.frame(i2), lemma.lits()),
            decreases self.frames.len() - i,
        {
            let mut j: usize = 0;
            while j < self.frames[i].len()
                invariant
                    self.wf(),
                    lemma.wf(),
                    frame <= i < self.frames@.len(),
                    0 <= j <= self.frame(i as int).len(),
                    forall|i2: int| frame <= i2 < i ==> !has_cover(#[trigger] self.frame(i2), lemma.lits()),
                    forall|j2: int|
                        0 <= j2 < j ==> !covers(lits_of(#[trigger] self.frame(i as int)[j2]), lemma.lits()),
                decreases self.frames[i as int]@.len() - j,
            {
                proof {
                    assert(frame_wf(self.frames@[i as int]@));
                }
                if self.frames[i][j].lemma.subsume(lemma) {
                    return Some((i, j));
                }
                j = j + 1;
            }
            i = i + 1;
        }
        None
    }

    /// Adds `cube`, as a lemma learnt from the proof obligation `po`, to
    /// frame `frame` (`frame` 0 holds the initial states and gets it
    /// directly). Unless `subsume_check` is off, nothing happens when a
    /// frame from `frame` up already holds a lemma that subsumes it.
    /// Otherwise, going down from `frame`, each lemma the new one subsumes
    /// is taken out, until a frame holds the lemma itself (which then moves
    /// up to `frame`) or one that subsumes it. The result says whether a
    /// frame below `frame` that was passed became empty.
    #[verifier::rlimit(60)]
    pub fn add_lemma(&mut self, frame: usize, cube: Vec<Lit>, subsume_check: bool, po: Option<usize>) -> (r:
        LemmaUpdate)
        requires
            old(self).wf(),
            frame < old(self).frames@.len(),
            frame == 0 ==> old(self).frames@.len() == 1,
        ensures
            final(self).wf(),
            final(self).frames@.len() == old(self).frames@.len(),
            !r.added <==> (frame > 0 && subsume_check && exists|i: int|
                frame <= i < old(self).frames@.len() && has_cover(#[trigger] old(self).frame(i), cube@)),
            !r.added ==> {
                &&& forall|i: int| 0 <= i < old(self).frames@.len() ==> final(self).frame(i) == old(self).frame(i)
                &&& final(self).early == old(self).early
                &&& r.begin == frame + 1
                &&& !r.result
                &&& !r.moved
                &&& r.removed@.len() == 0
            },
            r.added ==> {
                let nf = final(self).frame(frame as int);
                &&& nf.len() > 0
                &&& nf[nf.len() - 1].po == po
                &&& sorted(lits_of(nf[nf.len() - 1]))
                &&& lits_of(nf[nf.len() - 1]).to_multiset() == cube@.to_multiset()
            },
            r.added ==> forall|i: int, k: int|
                0 <= i < old(self).frames@.len() && 0 <= k < final(self).frame(i).len() && !(i == frame && k
                    == final(self).frame(i).len() - 1) ==> old(self).frame(i).contains(
                    #[trigger] final(self).frame(i)[k],
                ),
            r.added ==> forall|i: int, x: FrameLemma|
                0 <= i < old(self).frames@.len() && #[trigger] old(self).frame(i).contains(x) ==> final(self).frame(i).contains(x) || (1 <= i <= frame && covers(cube@, lits_of(x))),
            r.added ==> forall|i: int|
                0 <= i < old(self).frames@.len() && i != frame && (i == 0 || i > frame) ==> #[trigger] final(self).frame(i) == old(self).frame(i),
            forall|m: int|
                0 <= m < r.removed@.len() ==> {
                    &&& 1 <= (#[trigger] r.removed@[m]).0 <= frame
                    &&& covers(cube@, r.removed@[m].1.cube@)
                    &&& has_lits(old(self).frame(r.removed@[m].0 as int), r.removed@[m].1.cube@)
                },
            frame == 0 ==> {
                &&& r.added
                &&& !r.moved
                &&& !r.result
                &&& r.begin == 0
                &&& r.removed@.len() == 0
                &&& final(self).early == old(self).early
                &&& final(self).frame(0).len() == old(self).frame(0).len() + 1
                &&& final(self).frame(0).subrange(0, old(self).frame(0).len() as int) == old(self).frame(0)
            },
            r.added && frame > 0 ==> {
                &&& 1 <= r.begin <= frame + 1
                &&& final(self).early == if old(self).early <= r.begin {
                    old(self).early
                } else {
                    r.begin
                }
                &&& r.begin > 1 ==> has_cover(old(self).frame(r.begin - 1), cube@)
                &&& forall|k: int| r.begin <= k <= frame ==> !has_cover(#[trigger] old(self).frame(k), cube@)
                &&& forall|k: int| 0 <= k < r.begin - 1 ==> #[trigger] final(self).frame(k) == old(self).frame(k)
                &&& forall|k: int, m: int|
                    r.begin <= k <= frame && 0 <= m < final(self).frame(k).len() && !(k == frame && m
                        == final(self).frame(k).len() - 1) ==> !covers(
                        cube@,
                        lits_of(#[trigger] final(self).frame(k)[m]),
                    )
            },
            r.moved ==> {
                let nf = final(self).frame(frame as int);
                &&& r.added && frame > 0 && r.begin > 1
                &&& has_lits(old(self).frame(r.begin - 1), lits_of(nf[nf.len() - 1]))
                &&& r.result == (final(self).frame(r.begin - 1).len() == 0)
            },
            r.added && !r.moved && frame > 0 ==> (r.result <==> exists|k: int|
                r.begin <= k < frame && (#[trigger] final(self).frame(k)).len() == 0),
    {
        let ghost c = cube@;
        let ghost o = self.frames@;
        let lemma = Lemma::new(cube);
        let ghost nl = lemma.lits();
        proof {
            assert forall|a: Seq<Lit>| covers(a, nl) == covers(a, c) && covers(nl, a) == covers(c, a) by {
                lemma_covers_same_lits(a, nl, c);
            }
        }
        if frame == 0 {
            let mut f0: Vec<FrameLemma> = Vec::new();
            std::mem::swap(&mut f0, &mut self.frames[0]);
            f0.push(FrameLemma { lemma, po });
            std::mem::swap(&mut f0, &mut self.frames[0]);
            proof {
                assert forall|i: int| 0 <= i < self.frames@.len() implies frame_wf(
                    #[trigger] self.frames@[i]@,
                ) by {
                    if i == 0 {
                        assert forall|k: int| 0 <= k < self.frames@[0]@.len() implies sorted(
                            #[trigger] self.frames@[0]@[k].lemma.cube@,
                        ) by {
                            if k < o[0]@.len() {
                                assert(self.frames@[0]@[k] == o[0]@[k]);
                                assert(frame_wf(o[0]@));
                            }
                        }
                    }
                }
                assert forall|i: int, k: int|
                    0 <= i < o.len() && 0 <= k < self.frame(i).len() && !(i == frame && k == self.frame(i).len()
                        - 1) implies o[i]@.contains(#[trigger] self.frame(i)[k]) by {
                    assert(self.frame(0)[k] == o[0]@[k]);
                }
                assert forall|i: int, x: FrameLemma|
                    0 <= i < o.len() && #[trigger] o[i]@.contains(x) implies self.frame(i).contains(x) by {
                    let k = choose|k: int| 0 <= k < o[i]@.len() && o[i]@[k] == x;
                    assert(self.frame(0)[k] == x);
                }
            }
            proof {
                assert(self.frame(0).subrange(0, o[0]@.len() as int) =~= o[0]@);
            }
            return LemmaUpdate { added: true, result: false, begin: 0, moved: false, removed: Vec::new() };
        }
        if subsume_check {
            let t = self.trivial_contained(frame, &lemma);
            if t.is_some() {
                proof {
                    let (ti, tj) = t.unwrap();
                    assert(has_cover(self.frame(ti as int), c)) by {
                        assert(covers(lits_of(self.frame(ti as int)[tj as int]), c));
                    }
                }
                let n = self.frames.len();
                return LemmaUpdate { added: false, result: false, begin: frame + 1, moved: false, removed: Vec::new() };
            }
            proof {
                assert forall|i: int| frame <= i < o.len() implies !has_cover(#[trigger] self.frame(i), c) by {
                    assert(!has_cover(self.frame(i), nl));
                    if has_cover(self.frame(i), c) {
                        let k = choose|k: int| 0 <= k < self.frame(i).len() && covers(lits_of(#[trigger] self.frame(i)[k]), c);
                        assert(covers(lits_of(self.frame(i)[k]), nl));
                    }
                }
            }
        }
        let nframes = self.frames.len();
        let mut removed: Vec<(usize, Lemma)> = Vec::new();
        let mut begin: usize = 1;
        let mut inv_found = false;
        let mut stopped = false;
        let mut moved = false;
        let mut i: usize = frame;
        while i > 0 && !stopped
            invariant
                0 <= i <= frame < o.len(),
                nframes == o.len(),
                frame > 0,
                self.wf(),
                lemma.wf(),
                lemma.lits() == nl,
                self.frames@.len() == o.len(),
                o == old(self).frames@,
                self.early == old(self).early,
                forall|a: Seq<Lit>| covers(a, nl) == covers(a, c) && covers(nl, a) == covers(c, a),
                forall|k: int|
                    0 <= k < o.len() && (k < i || k > frame || (k == i && !stopped)) ==> #[trigger] self.frame(k)
                        == o[k]@,
                forall|k: int|
                    (i < k <= frame || (k == i && stopped)) ==> kept_from(o[k]@, #[trigger] self.frame(k)),
                forall|k: int|
                    (i < k <= frame || (k == i && stopped)) ==> dropped_covered(o[k]@, #[trigger] self.frame(k), nl),
                forall|k: int| i < k <= frame ==> clean(#[trigger] self.frame(k), nl),
                stopped ==> begin == i + 1 && i >= 1 && has_cover(o[i as int]@, c),
                moved ==> stopped && has_lits(o[i as int]@, nl),
                !stopped ==> begin == 1,
                forall|m: int|
                    0 <= m < removed@.len() ==> {
                        &&& 1 <= (#[trigger] removed@[m]).0 <= frame
                        &&& covers(nl, removed@[m].1.cube@)
                        &&& has_lits(o[removed@[m].0 as int]@, removed@[m].1.cube@)
                    },
                inv_found <==> exists|k: int| i < k < frame && (#[trigger] self.frame(k)).len() == 0,
                forall|k: int| i < k <= frame ==> !has_cover(#[trigger] o[k]@, c),
            decreases i + (if stopped { 0int } else { 1int }),
        {
            let ghost s0 = self.frames@;
            proof {
                assert(self.frame(i as int) == o[i as int]@);
            }
            let mut fi: Vec<FrameLemma> = Vec::new();
            std::mem::swap(&mut fi, &mut self.frames[i]);
            let ghost rb = removed@;
            let ghost sb = self.frames@;
            proof {
                assert(fi == s0[i as int]);
                assert(fi@ == o[i as int]@);
                assert(frame_wf(o[i as int]@));
            }
            let stop = scan_frame(&mut fi, &lemma, &mut removed, i);
            std::mem::swap(&mut fi, &mut self.frames[i]);
            proof {
                assert forall|k: int| 0 <= k < self.frames@.len() && k != i implies self.frames@[k] == s0[k] by {
                    assert(sb[k] == s0[k]);
                }
                assert forall|k: int| 0 <= k < self.frames@.len() implies frame_wf(#[trigger] self.frames@[k]@) by {
                    if k != i {
                        assert(self.frames@[k] == s0[k]);
                    }
                }
                assert forall|k: int| 0 <= k < o.len() && k != i implies #[trigger] self.frame(k) == s0[k]@ by {
                    assert(self.frames@[k] == s0[k]);
                }
                assert forall|m: int| 0 <= m < removed@.len() implies {
                    &&& 1 <= (#[trigger] removed@[m]).0 <= frame
                    &&& covers(nl, removed@[m].1.cube@)
                    &&& has_lits(o[removed@[m].0 as int]@, removed@[m].1.cube@)
                } by {
                    if m < rb.len() {
                        assert(removed@[m] == rb[m]);
                    }
                }
                assert(kept_from(o[i as int]@, self.frame(i as int)));
                assert(dropped_covered(o[i as int]@, self.frame(i as int), nl));
            }
            if stop == ScanStop::Done {
                proof {
                    assert(clean(self.frame(i as int), nl));
                    assert(!has_cover(o[i as int]@, c)) by {
                        if has_cover(o[i as int]@, c) {
                            let k = choose|k: int| 0 <= k < o[i as int]@.len() && covers(lits_of(#[trigger] o[i as int]@[k]), c);
                            assert(covers(lits_of(o[i as int]@[k]), nl));
                            assert(has_cover(o[i as int]@, nl));
                        }
                    }
                }
                if i != frame && self.frames[i].len() == 0 {
                    inv_found = true;
                }
                i = i - 1;
            } else {
                proof {
                    if stop == ScanStop::Equal {
                        let k = choose|k: int| 0 <= k < o[i as int]@.len() && lits_of(#[trigger] o[i as int]@[k]) == nl;
                        assert(covers(nl, nl));
                        assert(covers(lits_of(o[i as int]@[k]), c));
                    } else {
                        let k = choose|k: int| 0 <= k < o[i as int]@.len() && covers(lits_of(#[trigger] o[i as int]@[k]), nl);
                        assert(covers(lits_of(o[i as int]@[k]), c));
                    }
                }
                moved = stop == ScanStop::Equal;
                stopped = true;
                begin = i + 1;
            }
        }
        let ghost se = self.frames@;
        proof {
            assert(begin == i + 1);
        }
        let mut ff: Vec<FrameLemma> = Vec::new();
        std::mem::swap(&mut ff, &mut self.frames[frame]);
        let ghost fb = ff@;
        let ghost sb = self.frames@;
        let ghost x = FrameLemma { lemma, po };
        ff.push(FrameLemma { lemma, po });
        std::mem::swap(&mut ff, &mut self.frames[frame]);
        if begin < self.early {
            self.early = begin;
        }
        let result = if moved {
            self.frames[i].len() == 0
        } else {
            inv_found
        };
        proof {
            assert(self.frame(frame as int) == fb.push(x));
            assert forall|k: int| 0 <= k < self.frames@.len() && k != frame implies self.frames@[k] == sb[k] by {}
            lemma_push_keeps(fb, x);
            assert forall|k: int| 0 <= k < self.frames@.len() implies frame_wf(#[trigger] self.frames@[k]@) by {
                if k != frame {
                    assert(self.frames@[k] == sb[k]);
                }
            }
            assert forall|k: int, m: int|
                0 <= k < o.len() && 0 <= m < self.frame(k).len() && !(k == frame && m == self.frame(k).len() - 1)
                implies o[k]@.contains(#[trigger] self.frame(k)[m]) by {
                if k == frame {
                    assert(self.frame(k)[m] == fb[m]);
                    if !(i < k <= frame || (k == i && stopped)) {
                        assert(fb == o[k]@);
                    } else {
                        assert(kept_from(o[k]@, fb));
                    }
                } else {
                    assert(self.frames@[k] == sb[k]);
                    if i < k <= frame || (k == i && stopped) {
                        assert(kept_from(o[k]@, self.frame(k)));
                    }
                }
            }
            assert forall|k: int, y: FrameLemma|
                0 <= k < o.len() && #[trigger] o[k]@.contains(y) implies self.frame(k).contains(y) || (1 <= k
                    <= frame && covers(c, lits_of(y))) by {
                if k == frame {
                    if i < k <= frame || (k == i && stopped) {
                        assert(dropped_covered(o[k]@, fb, nl));
                        if fb.contains(y) {
                            let m = choose|m: int| 0 <= m < fb.len() && fb[m] == y;
                            assert(self.frame(k)[m] == y);
                        }
                    } else {
                        let m = choose|m: int| 0 <= m < fb.len() && fb[m] == y;
                        assert(self.frame(k)[m] == y);
                    }
                } else {
                    assert(self.frames@[k] == sb[k]);
                    if i < k <= frame || (k == i && stopped) {
                        assert(dropped_covered(o[k]@, self.frame(k), nl));
                    }
                }
            }
            assert forall|k: int, m: int|
                r_begin_le(begin as int, k) && k <= frame && 0 <= m < self.frame(k).len() && !(k == frame && m
                    == self.frame(k).len() - 1) implies !covers(c, lits_of(#[trigger] self.frame(k)[m])) by {
                if k == frame {
                    assert(self.frame(k)[m] == fb[m]);
                    assert(clean(fb, nl));
                } else {
                    assert(self.frames@[k] == sb[k]);
                    assert(clean(self.frame(k), nl));
                }
            }
            if moved {
                assert(lits_of(self.frame(frame as int)[self.frame(frame as int).len() - 1]) == nl);
            }
            if !moved {
                if inv_found {
                    let k = choose|k: int| i < k < frame && (#[trigger] se[k]@).len() == 0;
                    assert(self.frames@[k] == sb[k]);
                    assert(sb[k] == se[k]);
                    assert(begin <= k < frame && self.frame(k).len() == 0);
                }
                if exists|k: int| begin <= k < frame && (#[trigger] self.frame(k)).len() == 0 {
                    let k = choose|k: int| begin <= k < frame && (#[trigger] self.frame(k)).len() == 0;
                    assert(self.frames@[k] == sb[k]);
                    assert(sb[k] == se[k]);
                    assert(i < k < frame && se[k]@.len() == 0);
                }
            }
        }
        LemmaUpdate { added: true, result, begin, moved, removed }
    }

    /// The first lemma of frame `frame - 1` that subsumes `lemma`; none
    /// for frame 1, whose predecessor holds the initial states.
    pub fn _parent_lemma(&self, lemma: &Lemma, frame: usize) -> (r: Option<Lemma>)
        requires
            self.wf(),
            lemma.wf(),
            1 <= frame <= self.frames@.len(),
        ensures
            frame == 1 ==> r is None,
            frame > 1 ==> match r {
                Some(p) => exists|j: int|
                    0 <= j < self.frame(frame - 1).len() && lits_of(#[trigger] self.frame(frame - 1)[j])
                        == p.cube@ && covers(p.cube@, lemma.lits()) && forall|j2: int|
                        0 <= j2 < j ==> !covers(lits_of(#[trigger] self.frame(frame - 1)[j2]), lemma.lits()),
                None => !has_cover(self.frame(frame - 1), lemma.lits()),
            },
    {
        if frame == 1 {
            return None;
        }
        let f = &self.frames[frame - 1];
        proof {
            assert(frame_wf(self.frames@[frame - 1]@));
        }
        let mut j: usize = 0;
        while j < f.len()
            invariant
                0 <= j <= f@.len(),
                1 < frame <= self.frames@.len(),
                *f == self.frames@[frame - 1],
                frame_wf(f@),
                lemma.wf(),
                forall|j2: int| 0 <= j2 < j ==> !covers(lits_of(#[trigger] f@[j2]), lemma.lits()),
            decreases f@.len() - j,
        {
            if f[j].lemma.subsume(lemma) {
                let p = f[j].lemma.clone_lemma();
                proof {
                    assert(lits_of(self.frame(frame - 1)[j as int]) == p.cube@);
                }
                return Some(p);
            }
            j = j + 1;
        }
        None
    }

    /// All lemmas of frame `frame - 1` that subsume `lemma`, in order;
    /// none for frame 1.
    pub fn _parent_lemmas(&self, lemma: &Lemma, frame: usize) -> (r: Vec<Lemma>)
        requires
            self.wf(),
            lemma.wf(),
            1 <= frame <= self.frames@.len(),
        ensures
            frame == 1 ==> r@.len() == 0,
            frame > 1 ==> r@.map_values(|p: Lemma| p.cube@) == self.frame(frame - 1).map_values(
                |x: FrameLemma| lits_of(x),
            ).filter(|l: Seq<Lit>| covers(l, lemma.lits())),
    {
        let mut res: Vec<Lemma> = Vec::new();
        if frame == 1 {
            return res;
        }
        let f = &self.frames[frame - 1];
        let ghost ls = f@.map_values(|x: FrameLemma| lits_of(x));
        let ghost pred = |l: Seq<Lit>| covers(l, lemma.lits());
        proof {
            assert(frame_wf(self.frames@[frame - 1]@));
        }
        let mut j: usize = 0;
        while j < f.len()
            invariant
                0 <= j <= f@.len(),
                1 < frame <= self.frames@.len(),
                *f == self.frames@[frame - 1],
                frame_wf(f@),
                lemma.wf(),
                ls == f@.map_values(|x: FrameLemma| lits_of(x)),
                pred == (|l: Seq<Lit>| covers(l, lemma.lits())),
                res@.map_values(|p: Lemma| p.cube@) == ls.subrange(0, j as int).filter(pred),
            decreases f@.len() - j,
        {
            let ghost before = res@;
            proof {
                reveal(Seq::filter);
                assert(ls.subrange(0, j + 1).drop_last() =~= ls.subrange(0, j as int));
                assert(ls[j as int] == f@[j as int].lemma.cube@);
                assert(ls.subrange(0, j + 1).last() == ls[j as int]);
            }
            if f[j].lemma.subsume(lemma) {
                let p = f[j].lemma.clone_lemma();
                res.push(p);
                proof {
                    assert(res@.map_values(|p: Lemma| p.cube@) =~= before.map_values(|p: Lemma| p.cube@).push(
                        p.cube@,
                    ));
                }
            }
            j = j + 1;
        }
        proof {
            assert(ls.subrange(0, f@.len() as int) =~= ls);
        }
        res
    }
}

} // verus!
