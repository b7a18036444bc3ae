//! Proof obligations of IC3 and the queue that orders them.
//!
//! An obligation asks to show that the states of its lemma cannot be
//! reached within `frame` steps; `next` points (by index, into the list of
//! all obligations that the engine keeps) at the obligation it was derived
//! from, so that a chain of them, followed to its end, is a counterexample.
use crate::cube::Lemma;
use crate::lit::Lit;
use vstd::prelude::*;

verus! {

/// A proof obligation.
pub struct ProofObligation {
    pub frame: usize,
    pub input: Vec<Lit>,
    pub lemma: Lemma,
    pub depth: usize,
    pub next: Option<usize>,
    pub removed: bool,
}

/// The outcome of comparing two values.
#[derive(PartialEq, Eq, Structural, Clone, Copy, Debug)]
pub enum Order {
    Less,
    Equal,
    Greater,
}

/// `a` comes strictly before `b` in lexicographic order of literal codes.
pub open spec fn lex_lt(a: Seq<Lit>, b: Seq<Lit>) -> bool
    decreases a.len(),
{
    if a.len() == 0 {
        b.len() > 0
    } else if b.len() == 0 {
        false
    } else if a[0].0 < b[0].0 {
        true
    } else if a[0].0 > b[0].0 {
        false
    } else {
        lex_lt(a.drop_first(), b.drop_first())
    }
}

/// Lexicographic order is a strict total order.
pub proof fn lemma_lex_order(a: Seq<Lit>, b: Seq<Lit>, c: Seq<Lit>)
    ensures
        !lex_lt(a, a),
        lex_lt(a, b) ==> !lex_lt(b, a),
        a != b ==> lex_lt(a, b) || lex_lt(b, a),
        lex_lt(a, b) && lex_lt(b, c) ==> lex_lt(a, c),
    decreases a.len(),
{
    if a.len() > 0 && b.len() > 0 && c.len() > 0 {
        lemma_lex_order(a.drop_first(), b.drop_first(), c.drop_first());
    }
    if a.len() > 0 && b.len() > 0 {
        if a[0] == b[0] && a.drop_first() == b.drop_first() {
            assert(a =~= seq![a[0]] + a.drop_first());
            assert(b =~= seq![b[0]] + b.drop_first());
        }
        if a.len() > 0 {
            lemma_lex_order(a.drop_first(), a.drop_first(), a.drop_first());
        }
    }
    if a.len() > 0 && b.len() == 0 {
        lemma_lex_order(a.drop_first(), a.drop_first(), a.drop_first());
    }
    if a.len() > 0 && b.len() > 0 && c.len() == 0 {
        lemma_lex_order(a.drop_first(), b.drop_first(), b.drop_first());
    }
    if a.len() == 0 && b.len() == 0 {
        assert(a =~= b);
    }
}

impl ProofObligation {
    /// The literals of the obligation's lemma.
    pub open spec fn lits(&self) -> Seq<Lit> {
        self.lemma.cube@
    }

    /// `self` comes before `other` in the queue's order: a later frame
    /// first, then a smaller depth, a longer lemma, a lexicographically
    /// greater lemma, and one that is not removed.
    pub open spec fn before(&self, other: &ProofObligation) -> bool {
        ||| self.frame > other.frame
        ||| self.frame == other.frame && self.depth < other.depth
        ||| self.frame == other.frame && self.depth == other.depth && self.lits().len() > other.lits().len()
        ||| self.frame == other.frame && self.depth == other.depth && self.lits().len() == other.lits().len()
            && lex_lt(other.lits(), self.lits())
        ||| self.frame == other.frame && self.depth == other.depth && self.lits() == other.lits()
            && !self.removed && other.removed
    }

    /// `self` and `other` are at the same place in the queue's order.
    pub open spec fn same_place(&self, other: &ProofObligation) -> bool {
        &&& self.frame == other.frame
        &&& self.depth == other.depth
        &&& self.lits() == other.lits()
        &&& self.removed == other.removed
    }

    /// An obligation of `frame` and `depth` for `lemma`, found with the
    /// input `input`, derived from the obligation `next`.
    pub fn new(frame: usize, lemma: Lemma, input: Vec<Lit>, depth: usize, next: Option<usize>) -> (p:
        ProofObligation)
        ensures
            p.frame == frame,
            p.lemma == lemma,
            p.input == input,
            p.depth == depth,
            p.next == next,
            !p.removed,
    {
        ProofObligation { frame, input, lemma, depth, next, removed: false }
    }

    /// Moves the obligation to frame `frame`.
    pub fn push_to(&mut self, frame: usize)
        ensures
            final(self).frame == frame,
            final(self).depth == old(self).depth,
            final(self).lemma == old(self).lemma,
            final(self).input == old(self).input,
            final(self).next == old(self).next,
            final(self).removed == old(self).removed,
    {
        self.frame = frame;
    }

    /// A copy of the obligation.
    pub fn clone_po(&self) -> (p: ProofObligation)
        ensures
            p.frame == self.frame,
            p.lits() == self.lits(),
            p.input@ == self.input@,
            p.depth == self.depth,
            p.next == self.next,
            p.removed == self.removed,
    {
        let lemma = self.lemma.clone_lemma();
        let mut input: Vec<Lit> = Vec::new();
        let mut i: usize = 0;
        while i < self.input.len()
            invariant
                0 <= i <= self.input.len(),
                input@ == self.input@.subrange(0, i as int),
            decreases self.input.len() - i,
        {
            input.push(self.input[i]);
            i = i + 1;
        }
        assert(input@ =~= self.input@);
        ProofObligation { frame: self.frame, input, lemma, depth: self.depth, next: self.next, removed: self.removed }
    }
}

/// Lexicographic comparison of two literal sequences by code.
pub fn compare_lits(a: &Vec<Lit>, b: &Vec<Lit>) -> (r: Order)
    ensures
        r == Order::Less <==> lex_lt(a@, b@),
        r == Order::Greater <==> lex_lt(b@, a@),
        r == Order::Equal <==> a@ == b@,
{
    let mut i: usize = 0;
    while i < a.len() && i < b.len()
        invariant
            0 <= i <= a.len(),
            i <= b.len(),
            a@.subrange(0, i as int) == b@.subrange(0, i as int),
        decreases a.len() - i,
    {
        if a[i].0 < b[i].0 {
            proof {
                lemma_lex_from(a@, b@, i as int);
                lemma_lex_from(b@, a@, i as int);
                lemma_lex_order(a@, b@, b@);
            }
            return Order::Less;
        }
        if a[i].0 > b[i].0 {
            proof {
                lemma_lex_from(a@, b@, i as int);
                lemma_lex_from(b@, a@, i as int);
                lemma_lex_order(a@, b@, b@);
            }
            return Order::Greater;
        }
        proof {
            assert(a[i as int] == b[i as int]);
            assert(a@.subrange(0, i + 1) =~= a@.subrange(0, i as int).push(a@[i as int]));
            assert(b@.subrange(0, i + 1) =~= b@.subrange(0, i as int).push(b@[i as int]));
        }
        i = i + 1;
    }
    proof {
        lemma_lex_from(a@, b@, i as int);
        lemma_lex_from(b@, a@, i as int);
        lemma_lex_order(a@, b@, b@);
        if a.len() == b.len() {
            assert(a@ =~= a@.subrange(0, i as int));
            assert(b@ =~= b@.subrange(0, i as int));
        }
    }
    if a.len() < b.len() {
        Order::Less
    } else if a.len() > b.len() {
        Order::Greater
    } else {
        Order::Equal
    }
}

/// Two sequences that agree on their first `i` elements compare as their
/// remainders from `i` do.
proof fn lemma_lex_from(a: Seq<Lit>, b: Seq<Lit>, i: int)
    requires
        0 <= i <= a.len(),
        i <= b.len(),
        a.subrange(0, i) == b.subrange(0, i),
    ensures
        lex_lt(a, b) == lex_lt(a.subrange(i, a.len() as int), b.subrange(i, b.len() as int)),
    decreases i,
{
    if i > 0 {
        assert(a[0] == a.subrange(0, i)[0]);
        assert(b[0] == b.subrange(0, i)[0]);
        assert(a.drop_first().subrange(0, i - 1) =~= a.subrange(0, i).drop_first());
        assert(b.drop_first().subrange(0, i - 1) =~= b.subrange(0, i).drop_first());
        lemma_lex_from(a.drop_first(), b.drop_first(), i - 1);
        assert(a.drop_first().subrange(i - 1, a.len() - 1) =~= a.subrange(i, a.len() as int));
        assert(b.drop_first().subrange(i - 1, b.len() - 1) =~= b.subrange(i, b.len() as int));
    } else {
        assert(a.subrange(0, a.len() as int) =~= a);
        assert(b.subrange(0, b.len() as int) =~= b);
    }
}


/// The queue's order on obligations is a strict total order, up to
/// obligations at the same place.
pub proof fn lemma_before_order(a: ProofObligation, b: ProofObligation, c: ProofObligation)
    ensures
        !a.before(&a),
        a.before(&b) ==> !b.before(&a),
        a.before(&b) ==> !a.same_place(&b),
        !a.same_place(&b) ==> a.before(&b) || b.before(&a),
        a.before(&b) && b.before(&c) ==> a.before(&c),
{
    lemma_lex_order(a.lits(), b.lits(), c.lits());
    lemma_lex_order(c.lits(), b.lits(), a.lits());
    lemma_lex_order(b.lits(), a.lits(), c.lits());
    lemma_lex_order(a.lits(), c.lits(), b.lits());
    lemma_lex_order(b.lits(), c.lits(), a.lits());
    lemma_lex_order(c.lits(), a.lits(), b.lits());
}

/// Within one frame, the obligation of smaller depth comes first in the
/// queue's order, whatever the lengths and literals of the two lemmas:
/// depth is weighed before the lemma.
pub proof fn lemma_depth_before_lemma(a: ProofObligation, b: ProofObligation)
    requires
        a.frame == b.frame,
        a.depth < b.depth,
    ensures
        a.before(&b),
        !b.before(&a),
{
}

/// An obligation of a later frame comes first in the queue's order,
/// whatever the depths and lemmas.
pub proof fn lemma_frame_before_depth(a: ProofObligation, b: ProofObligation)
    requires
        a.frame > b.frame,
    ensures
        a.before(&b),
        !b.before(&a),
{
}

/// What comes last in the queue's order, after every other obligation, is
/// in the lowest frame of them all and the deepest of that frame: each
/// obligation that comes before `p` is in a frame at least as high, and,
/// in the same frame, at most as deep.
pub proof fn lemma_last_lowest_deepest(p: ProofObligation, q: ProofObligation)
    requires
        q.before(&p),
    ensures
        p.frame <= q.frame,
        p.frame == q.frame ==> q.depth <= p.depth,
{
}

/// Compares two obligations in the queue's order.
pub fn compare_po(a: &ProofObligation, b: &ProofObligation) -> (r: Order)
    ensures
        r == Order::Less <==> a.before(b),
        r == Order::Greater <==> b.before(a),
        r == Order::Equal <==> a.same_place(b),
{
    proof {
        lemma_before_order(*a, *b, *b);
        lemma_before_order(*b, *a, *a);
    }
    if a.frame > b.frame {
        Order::Less
    } else if a.frame < b.frame {
        Order::Greater
    } else if a.depth < b.depth {
        Order::Less
    } else if a.depth > b.depth {
        Order::Greater
    } else if a.lemma.len() > b.lemma.len() {
        Order::Less
    } else if a.lemma.len() < b.lemma.len() {
        Order::Greater
    } else {
        let c = compare_lits(b.lemma.cube(), a.lemma.cube());
        if c == Order::Less {
            Order::Less
        } else if c == Order::Greater {
            Order::Greater
        } else if !a.removed && b.removed {
            Order::Less
        } else if a.removed && !b.removed {
            Order::Greater
        } else {
            Order::Equal
        }
    }
}

/// How many obligations of `s` are in frame `f`.
pub open spec fn count_frame(s: Seq<ProofObligation>, f: int) -> nat
    decreases s.len(),
{
    if s.len() == 0 {
        0
    } else {
        count_frame(s.drop_last(), f) + if s.last().frame == f {
            1nat
        } else {
            0nat
        }
    }
}

/// Removing an obligation takes it out of the count of its frame.
pub proof fn lemma_count_remove(s: Seq<ProofObligation>, i: int, f: int)
    requires
        0 <= i < s.len(),
    ensures
        count_frame(s.remove(i), f) + (if s[i].frame == f {
            1nat
        } else {
            0nat
        }) == count_frame(s, f),
    decreases s.len(),
{
    if i == s.len() - 1 {
        assert(s.remove(i) =~= s.drop_last());
    } else {
        lemma_count_remove(s.drop_last(), i, f);
        assert(s.remove(i).drop_last() =~= s.drop_last().remove(i));
        assert(s.remove(i).last() == s.last());
    }
}

/// No frame counts more obligations than there are.
pub proof fn lemma_count_le(s: Seq<ProofObligation>, f: int)
    ensures
        count_frame(s, f) <= s.len(),
    decreases s.len(),
{
    if s.len() > 0 {
        lemma_count_le(s.drop_last(), f);
    }
}

/// The queue of proof obligations, with the number of them in each frame.
pub struct ProofObligationQueue {
    pub obligations: Vec<ProofObligation>,
    pub num: Vec<usize>,
}

impl ProofObligationQueue {
    /// No two obligations at the same place, each in a counted frame, and
    /// the counts right.
    pub open spec fn wf(&self) -> bool {
        &&& forall|i: int, j: int|
            #![trigger self.obligations@[i], self.obligations@[j]]
            0 <= i < j < self.obligations@.len() ==> !self.obligations@[i].same_place(&self.obligations@[j])
        &&& forall|i: int|
            0 <= i < self.obligations@.len() ==> (#[trigger] self.obligations@[i]).frame < self.num@.len()
        &&& forall|f: int|
            0 <= f < self.num@.len() ==> #[trigger] self.num@[f] == count_frame(self.obligations@, f)
    }

    /// An empty queue.
    pub fn new() -> (q: ProofObligationQueue)
        ensures
            q.wf(),
            q.obligations@.len() == 0,
            q.num@.len() == 0,
    {
        ProofObligationQueue { obligations: Vec::new(), num: Vec::new() }
    }

    /// The position of the obligation that comes last in the queue's order.
    fn last_index(&self) -> (r: usize)
        requires
            self.wf(),
            self.obligations@.len() > 0,
        ensures
            r < self.obligations@.len(),
            forall|k: int|
                0 <= k < self.obligations@.len() && k != r ==> (#[trigger] self.obligations@[k]).before(
                    &self.obligations@[r as int],
                ),
    {
        let mut best: usize = 0;
        let mut j: usize = 1;
        while j < self.obligations.len()
            invariant
                self.wf(),
                best < j <= self.obligations@.len(),
                forall|k: int|
                    0 <= k < j && k != best ==> (#[trigger] self.obligations@[k]).before(
                        &self.obligations@[best as int],
                    ),
            decreases self.obligations@.len() - j,
        {
            let c = compare_po(&self.obligations[best], &self.obligations[j]);
            if c == Order::Less {
                proof {
                    assert forall|k: int| 0 <= k < j + 1 && k != j implies (#[trigger] self.obligations@[
                        k
                    ]).before(&self.obligations@[j as int]) by {
                        if k != best {
                            lemma_before_order(
                                self.obligations@[k],
                                self.obligations@[best as int],
                                self.obligations@[j as int],
                            );
                        }
                    }
                }
                best = j;
            } else {
                proof {
                    assert(!self.obligations@[best as int].same_place(&self.obligations@[j as int]));
                }
            }
            j = j + 1;
        }
        best
    }

    /// Adds the obligation `po`, which must not be at the place of one in
    /// the queue.
    pub fn add(&mut self, po: ProofObligation)
        requires
            old(self).wf(),
            forall|k: int| 0 <= k < old(self).obligations@.len() ==> !(#[trigger] old(self).obligations@[k]).same_place(&po),
            po.frame < usize::MAX,
            old(self).obligations@.len() < usize::MAX,
        ensures
            final(self).wf(),
            final(self).obligations@ == old(self).obligations@.push(po),
            final(self).num@.len() == if old(self).num@.len() <= po.frame {
                po.frame + 1
            } else {
                old(self).num@.len() as int
            },
            final(self).num@[po.frame as int] == if po.frame < old(self).num@.len() {
                old(self).num@[po.frame as int] + 1
            } else {
                1
            },
            forall|f: int| 0 <= f < final(self).num@.len() && f != po.frame ==> #[trigger] final(self).num@[f] == if f < old(self).num@.len() {
                old(self).num@[f] as int
            } else {
                0
            },
    {
        let ghost o = self.obligations@;
        while self.num.len() <= po.frame
            invariant
                self.obligations@ == o,
                forall|i: int| 0 <= i < o.len() ==> (#[trigger] o[i]).frame < self.num@.len(),
                forall|f: int| 0 <= f < self.num@.len() ==> #[trigger] self.num@[f] == count_frame(o, f),
                forall|f: int| 0 <= f < self.num@.len() ==> #[trigger] self.num@[f] == if f < old(self).num@.len() {
                    old(self).num@[f] as int
                } else {
                    0
                },
                old(self).num@.len() <= self.num@.len(),
                self.num@.len() <= old(self).num@.len() || self.num@.len() <= po.frame + 1,
            decreases po.frame + 1 - self.num@.len(),
        {
            proof {
                let f = self.num@.len() as int;
                if count_frame(o, f) > 0 {
                    lemma_count_pos(o, f);
                }
            }
            self.num.push(0);
        }
        proof {
            lemma_count_le(o, po.frame as int);
        }
        let n = self.num[po.frame] + 1;
        self.num.set(po.frame, n);
        self.obligations.push(po);
        proof {
            let s = self.obligations@;
            assert(s.drop_last() =~= o);
            assert forall|f: int| 0 <= f < self.num@.len() implies #[trigger] self.num@[f] == count_frame(s, f) by {}
            assert forall|i: int, j: int|
                #![trigger s[i], s[j]]
                0 <= i < j < s.len() implies !s[i].same_place(&s[j]) by {
                if j == s.len() - 1 {
                    assert(s[i] == o[i]);
                } else {
                    assert(s[i] == o[i] && s[j] == o[j]);
                }
            }
            assert forall|i: int| 0 <= i < s.len() implies (#[trigger] s[i]).frame < self.num@.len() by {
                if i < o.len() {
                    assert(s[i] == o[i]);
                }
            }
        }
    }

    /// Takes out the obligation that comes last in the queue's order, when
    /// its frame is at most `depth`.
    pub fn pop(&mut self, depth: usize) -> (r: Option<ProofObligation>)
        requires
            old(self).wf(),
        ensures
            final(self).wf(),
            final(self).num@.len() == old(self).num@.len(),
            match r {
                Some(p) => exists|i: int|
                    {
                        &&& 0 <= i < old(self).obligations@.len()
                        &&& p == old(self).obligations@[i]
                        &&& p.frame <= depth
                        &&& forall|k: int|
                            0 <= k < old(self).obligations@.len() && k != i ==> (#[trigger] old(
                                self,
                            ).obligations@[k]).before(&p)
                        &&& forall|k: int|
                            0 <= k < old(self).obligations@.len() ==> p.frame <= (#[trigger] old(self).obligations@[k]).frame
                                && (old(self).obligations@[k].frame == p.frame ==> old(self).obligations@[k].depth <= p.depth)
                        &&& final(self).obligations@ == old(self).obligations@.remove(i)
                        &&& final(self).num@ == old(self).num@.update(
                            p.frame as int,
                            (old(self).num@[p.frame as int] - 1) as usize,
                        )
                    },
                None => {
                    &&& final(self).obligations@ == old(self).obligations@
                    &&& final(self).num@ == old(self).num@
                    &&& forall|k: int|
                        0 <= k < old(self).obligations@.len() ==> (#[trigger] old(self).obligations@[k]).frame
                            > depth
                },
            },
    {
        if self.obligations.len() == 0 {
            return None;
        }
        let b = self.last_index();
        if self.obligations[b].frame > depth {
            proof {
                assert forall|k: int| 0 <= k < self.obligations@.len() implies (#[trigger] self.obligations@[
                    k
                ]).frame > depth by {
                    if k != b {
                        assert(self.obligations@[k].before(&self.obligations@[b as int]));
                    }
                }
            }
            return None;
        }
        let ghost o = self.obligations@;
        let f = self.obligations[b].frame;
        proof {
            lemma_count_remove(o, b as int, f as int);
            lemma_count_pos(o, f as int);
        }
        let n = self.num[f] - 1;
        self.num.set(f, n);
        let p = self.obligations.remove(b);
        proof {
            assert forall|k: int| 0 <= k < o.len() implies p.frame <= (#[trigger] o[k]).frame
                && (o[k].frame == p.frame ==> o[k].depth <= p.depth) by {
                if k != b {
                    lemma_last_lowest_deepest(p, o[k]);
                }
            }
            let s = self.obligations@;
            assert forall|g: int| 0 <= g < self.num@.len() implies #[trigger] self.num@[g] == count_frame(s, g) by {
                lemma_count_remove(o, b as int, g);
            }
            lemma_remove_keeps(o, b as int);
        }
        Some(p)
    }

    /// A copy of the obligation that comes last in the queue's order.
    pub fn peak(&self) -> (r: Option<ProofObligation>)
        requires
            self.wf(),
        ensures
            self.obligations@.len() == 0 <==> r is None,
            match r {
                Some(p) => exists|i: int|
                    {
                        &&& 0 <= i < self.obligations@.len()
                        &&& p.frame == self.obligations@[i].frame
                        &&& p.depth == self.obligations@[i].depth
                        &&& p.lits() == self.obligations@[i].lits()
                        &&& p.input@ == self.obligations@[i].input@
                        &&& p.next == self.obligations@[i].next
                        &&& p.removed == self.obligations@[i].removed
                        &&& forall|k: int|
                            0 <= k < self.obligations@.len() && k != i ==> (
                            #[trigger] self.obligations@[k]).before(&self.obligations@[i])
                    },
                None => true,
            },
    {
        if self.obligations.len() == 0 {
            return None;
        }
        let b = self.last_index();
        Some(self.obligations[b].clone_po())
    }

    /// Takes out the obligation at the place of `po`, if there is one.
    pub fn remove(&mut self, po: &ProofObligation) -> (r: bool)
        requires
            old(self).wf(),
        ensures
            final(self).wf(),
            final(self).num@.len() == old(self).num@.len(),
            r == exists|k: int|
                0 <= k < old(self).obligations@.len() && (#[trigger] old(self).obligations@[k]).same_place(po),
            !r ==> final(self).obligations@ == old(self).obligations@ && final(self).num@ == old(self).num@,
            r ==> exists|k: int|
                {
                    &&& 0 <= k < old(self).obligations@.len()
                    &&& (#[trigger] old(self).obligations@[k]).same_place(po)
                    &&& final(self).obligations@ == old(self).obligations@.remove(k)
                    &&& final(self).num@ == old(self).num@.update(
                        po.frame as int,
                        (old(self).num@[po.frame as int] - 1) as usize,
                    )
                },
    {
        let mut k: usize = 0;
        while k < self.obligations.len()
            invariant
                self.wf(),
                self == old(self),
                0 <= k <= self.obligations@.len(),
                forall|m: int| 0 <= m < k ==> !(#[trigger] self.obligations@[m]).same_place(po),
            decreases self.obligations@.len() - k,
        {
            if compare_po(&self.obligations[k], po) == Order::Equal {
                let ghost o = self.obligations@;
                let f = self.obligations[k].frame;
                proof {
                    lemma_count_remove(o, k as int, f as int);
                    lemma_count_pos(o, f as int);
                }
                let n = self.num[f] - 1;
                self.num.set(f, n);
                let _ = self.obligations.remove(k);
                proof {
                    let s = self.obligations@;
                    assert forall|g: int| 0 <= g < self.num@.len() implies #[trigger] self.num@[g] == count_frame(
                        s,
                        g,
                    ) by {
                        lemma_count_remove(o, k as int, g);
                    }
                    lemma_remove_keeps(o, k as int);
                }
                return true;
            }
            k = k + 1;
        }
        false
    }

    /// Empties the queue; every count becomes zero.
    pub fn clear(&mut self)
        requires
            old(self).wf(),
        ensures
            final(self).wf(),
            final(self).obligations@.len() == 0,
            final(self).num@.len() == old(self).num@.len(),
            forall|f: int| 0 <= f < final(self).num@.len() ==> #[trigger] final(self).num@[f] == 0,
    {
        self.obligations.clear();
        let mut f: usize = 0;
        while f < self.num.len()
            invariant
                0 <= f <= self.num@.len(),
                self.num@.len() == old(self).num@.len(),
                self.obligations@.len() == 0,
                forall|g: int| 0 <= g < f ==> #[trigger] self.num@[g] == 0,
            decreases self.num@.len() - f,
        {
            self.num.set(f, 0);
            f = f + 1;
        }
    }
}

/// A frame that counts an obligation holds one.
pub proof fn lemma_count_pos(s: Seq<ProofObligation>, f: int)
    ensures
        count_frame(s, f) > 0 ==> exists|i: int| 0 <= i < s.len() && (#[trigger] s[i]).frame == f,
    decreases s.len(),
{
    if s.len() > 0 {
        lemma_count_pos(s.drop_last(), f);
        if count_frame(s.drop_last(), f) > 0 {
            let i = choose|i: int| 0 <= i < s.drop_last().len() && (#[trigger] s.drop_last()[i]).frame == f;
            assert(s[i] == s.drop_last()[i]);
        }
    }
}

/// Removing an element keeps the others, shifted down past it.
pub proof fn lemma_remove_keeps(s: Seq<ProofObligation>, i: int)
    requires
        0 <= i < s.len(),
    ensures
        forall|k: int| 0 <= k < i ==> #[trigger] s.remove(i)[k] == s[k],
        forall|k: int| i <= k < s.len() - 1 ==> #[trigger] s.remove(i)[k] == s[k + 1],
        s.remove(i).len() == s.len() - 1,
{
}

/// The chain of obligations from `start`, following `next` through `all`,
/// where each obligation points only at an earlier one.
pub fn witness_chain(all: &Vec<ProofObligation>, start: usize) -> (r: Vec<usize>)
    requires
        start < all@.len(),
        forall|k: int| 0 <= k < all@.len() ==> match (#[trigger] all@[k]).next {
            Some(n) => n < k,
            None => true,
        },
    ensures
        r@.len() > 0,
        r@[0] == start,
        forall|m: int| 0 <= m < r@.len() ==> (#[trigger] r@[m]) < all@.len(),
        forall|m: int| 0 <= m < r@.len() - 1 ==> all@[#[trigger] r@[m] as int].next == Some(r@[m + 1]),
        all@[r@[r@.len() - 1] as int].next is None,
{
    let mut r: Vec<usize> = Vec::new();
    r.push(start);
    let mut cur: usize = start;
    while all[cur].next.is_some()
        invariant
            cur < all@.len(),
            forall|k: int| 0 <= k < all@.len() ==> match (#[trigger] all@[k]).next {
                Some(n) => n < k,
                None => true,
            },
            r@.len() > 0,
            r@[0] == start,
            r@[r@.len() - 1] == cur,
            forall|m: int| 0 <= m < r@.len() ==> (#[trigger] r@[m]) < all@.len(),
            forall|m: int| 0 <= m < r@.len() - 1 ==> all@[#[trigger] r@[m] as int].next == Some(r@[m + 1]),
        decreases cur,
    {
        let n = all[cur].next.unwrap();
        proof {
            assert(all@[cur as int].next == Some(n));
        }
        let ghost rb = r@;
        r.push(n);
        proof {
            assert forall|m: int| 0 <= m < r@.len() - 1 implies all@[#[trigger] r@[m] as int].next == Some(r@[m + 1]) by {
                if m < rb.len() - 1 {
                    assert(r@[m] == rb[m] && r@[m + 1] == rb[m + 1]);
                } else {
                    assert(r@[m] == cur);
                }
            }
        }
        cur = n;
    }
    r
}
} // verus!
