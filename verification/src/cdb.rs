//! The clause store of the SAT solver.
//!
//! Clauses live in one arena of 32-bit words. A clause starts with a header
//! word, followed by its literals and, for a learnt clause, one word that
//! holds its activity. The header packs five flags in its low bits (trans,
//! learnt, relocated, marked, removed, from bit 0 up) and the clause length
//! in the remaining 27 bits. A relocated clause keeps, in place of its first
//! literal, the reference of its copy in the new arena.
use crate::lit::Lit;
use vstd::prelude::*;

verus! {

/// A reference to a clause: the index of its header word.
#[derive(Clone, Copy, Debug, PartialEq, Eq, Structural, Hash)]
pub struct CRef(pub u32);

/// The reference that names no clause.
pub open spec fn spec_cref_none() -> CRef {
    CRef(u32::MAX)
}

impl CRef {
    /// The reference that names no clause.
    pub fn none() -> (c: CRef)
        ensures
            c == spec_cref_none(),
    {
        CRef(u32::MAX)
    }

    /// The reference of the clause whose header is at `value`.
    pub fn from_usize(value: usize) -> (c: CRef)
        requires
            value <= u32::MAX,
        ensures
            c.0 == value,
    {
        CRef(value as u32)
    }
}

/// The kind of a clause, which decides the list that holds it.
#[derive(Clone, Copy, Debug, PartialEq, Eq, Structural)]
pub enum ClauseKind {
    Trans,
    Lemma,
    Learnt,
    Temporary,
}

pub const MAX_CLAUSE_LEN: usize = 0x7ff_ffff;

pub open spec fn h_len(w: u32) -> int {
    (w / 32) as int
}

pub open spec fn h_trans(w: u32) -> bool {
    (w as int) % 2 == 1
}

pub open spec fn h_learnt(w: u32) -> bool {
    ((w as int) / 2) % 2 == 1
}

pub open spec fn h_reloced(w: u32) -> bool {
    ((w as int) / 4) % 2 == 1
}

pub open spec fn h_marked(w: u32) -> bool {
    ((w as int) / 8) % 2 == 1
}

pub open spec fn h_removed(w: u32) -> bool {
    ((w as int) / 16) % 2 == 1
}

/// The number of words a clause with header `w` takes.
pub open spec fn h_size(w: u32) -> int {
    1 + h_len(w) + if h_learnt(w) {
        1int
    } else {
        0int
    }
}

/// Two headers agree on everything but the flags that `mask` selects.
pub open spec fn h_same_except(a: u32, b: u32, trans: bool, learnt: bool, reloced: bool, marked: bool, removed: bool) -> bool {
    &&& h_len(a) == h_len(b)
    &&& (trans || h_trans(a) == h_trans(b))
    &&& (learnt || h_learnt(a) == h_learnt(b))
    &&& (reloced || h_reloced(a) == h_reloced(b))
    &&& (marked || h_marked(a) == h_marked(b))
    &&& (removed || h_removed(a) == h_removed(b))
}

fn make_header(len: u32, trans: bool, learnt: bool) -> (w: u32)
    requires
        len <= 0x7ff_ffff,
    ensures
        h_len(w) == len,
        h_trans(w) == trans,
        h_learnt(w) == learnt,
        !h_reloced(w),
        !h_marked(w),
        !h_removed(w),
{
    let t: u32 = if trans {
        1
    } else {
        0
    };
    let l: u32 = if learnt {
        2
    } else {
        0
    };
    let w = (len << 5) | t | l;
    assert(w / 32 == len && (w % 2 == 1) == (t == 1) && ((w / 2) % 2 == 1) == (l == 2) && (w / 4)
        % 2 == 0 && (w / 8) % 2 == 0 && (w / 16) % 2 == 0) by (bit_vector)
        requires
            len <= 0x7ff_ffff,
            t == 0 || t == 1,
            l == 0 || l == 2,
            w == (len << 5) | t | l,
    ;
    w
}

fn header_len(w: u32) -> (n: usize)
    ensures
        n == h_len(w),
{
    let n = w >> 5;
    assert(n == w / 32) by (bit_vector)
        requires
            n == w >> 5,
    ;
    n as usize
}

fn header_flag(w: u32, bit: u32) -> (b: bool)
    requires
        bit == 1 || bit == 2 || bit == 4 || bit == 8 || bit == 16,
    ensures
        bit == 1 ==> b == h_trans(w),
        bit == 2 ==> b == h_learnt(w),
        bit == 4 ==> b == h_reloced(w),
        bit == 8 ==> b == h_marked(w),
        bit == 16 ==> b == h_removed(w),
{
    let b = w & bit != 0;
    assert((bit == 1 ==> b == (w % 2 == 1)) && (bit == 2 ==> b == ((w / 2) % 2 == 1)) && (bit == 4
        ==> b == ((w / 4) % 2 == 1)) && (bit == 8 ==> b == ((w / 8) % 2 == 1)) && (bit == 16 ==> b
        == ((w / 16) % 2 == 1))) by (bit_vector)
        requires
            b == (w & bit != 0),
    ;
    b
}

fn header_set(w: u32, bit: u32, on: bool) -> (r: u32)
    requires
        bit == 4 || bit == 8 || bit == 16,
    ensures
        h_len(r) == h_len(w),
        h_trans(r) == h_trans(w),
        h_learnt(r) == h_learnt(w),
        bit == 4 ==> h_reloced(r) == on && h_marked(r) == h_marked(w) && h_removed(r) == h_removed(w),
        bit == 8 ==> h_marked(r) == on && h_reloced(r) == h_reloced(w) && h_removed(r) == h_removed(w),
        bit == 16 ==> h_removed(r) == on && h_reloced(r) == h_reloced(w) && h_marked(r) == h_marked(w),
{
    let r = if on {
        w | bit
    } else {
        w & !bit
    };
    assert(r / 32 == w / 32 && r % 2 == w % 2 && (r / 2) % 2 == (w / 2) % 2 && (bit == 4 ==> ((r
        / 4) % 2 == 1) == on && (r / 8) % 2 == (w / 8) % 2 && (r / 16) % 2 == (w / 16) % 2) && (bit
        == 8 ==> ((r / 8) % 2 == 1) == on && (r / 4) % 2 == (w / 4) % 2 && (r / 16) % 2 == (w / 16)
        % 2) && (bit == 16 ==> ((r / 16) % 2 == 1) == on && (r / 4) % 2 == (w / 4) % 2 && (r / 8)
        % 2 == (w / 8) % 2)) by (bit_vector)
        requires
            bit == 4 || bit == 8 || bit == 16,
            r == if on {
                w | bit
            } else {
                w & !bit
            },
    ;
    r
}

fn header_with_len(w: u32, len: u32) -> (r: u32)
    requires
        len <= 0x7ff_ffff,
    ensures
        h_len(r) == len,
        h_trans(r) == h_trans(w),
        h_learnt(r) == h_learnt(w),
        h_reloced(r) == h_reloced(w),
        h_marked(r) == h_marked(w),
        h_removed(r) == h_removed(w),
{
    let r = (w & 31) | (len << 5);
    assert(r / 32 == len && r % 2 == w % 2 && (r / 2) % 2 == (w / 2) % 2 && (r / 4) % 2 == (w / 4)
        % 2 && (r / 8) % 2 == (w / 8) % 2 && (r / 16) % 2 == (w / 16) % 2) by (bit_vector)
        requires
            len <= 0x7ff_ffff,
            r == (w & 31) | (len << 5),
    ;
    r
}

/// The clause arena.
pub struct Allocator {
    pub data: Vec<u32>,
    pub wasted: usize,
}

impl Allocator {
    pub open spec fn words(&self) -> Seq<u32> {
        self.data@
    }

    /// `c` is the header of a clause that lies wholly in the arena.
    pub open spec fn valid(&self, c: CRef) -> bool {
        &&& (c.0 as int) < self.data.len()
        &&& c.0 as int + h_size(self.data@[c.0 as int]) <= self.data.len()
    }

    pub open spec fn header(&self, c: CRef) -> u32 {
        self.data@[c.0 as int]
    }

    pub open spec fn clause_len(&self, c: CRef) -> int {
        h_len(self.header(c))
    }

    /// The literals of the clause at `c`.
    pub open spec fn lits(&self, c: CRef) -> Seq<Lit> {
        Seq::new(
            h_len(self.header(c)) as nat,
            |i: int| Lit(self.data@[c.0 as int + 1 + i]),
        )
    }

    /// The activity word of the learnt clause at `c`.
    pub open spec fn act_word(&self, c: CRef) -> u32 {
        self.data@[c.0 as int + 1 + h_len(self.header(c))]
    }

    /// An arena with no clauses.
    pub fn new() -> (a: Allocator)
        ensures
            a.data.len() == 0,
            a.wasted == 0,
    {
        Allocator { data: Vec::new(), wasted: 0 }
    }

    /// An empty arena that will hold at least `capacity` words before it
    /// grows, and never fewer than a million.
    pub fn with_capacity(capacity: usize) -> (a: Allocator)
        ensures
            a.data.len() == 0,
            a.wasted == 0,
    {
        let capacity = if capacity > 1024 * 1024 {
            capacity
        } else {
            1024 * 1024
        };
        Allocator { data: Vec::with_capacity(capacity), wasted: 0 }
    }

    /// The number of words in the arena.
    pub fn len(&self) -> (n: usize)
        ensures
            n == self.data.len(),
    {
        self.data.len()
    }

    /// Appends a clause with the given literals and flags; a learnt clause
    /// gets an activity word of zero.
    pub fn alloc_clause(&mut self, clause: &[Lit], trans: bool, learnt: bool) -> (c: CRef)
        requires
            clause@.len() <= MAX_CLAUSE_LEN,
            old(self).data.len() + clause@.len() + 2 < u32::MAX,
        ensures
            c.0 == old(self).data.len(),
            final(self).valid(c),
            final(self).lits(c) == clause@,
            h_trans(final(self).header(c)) == trans,
            h_learnt(final(self).header(c)) == learnt,
            !h_reloced(final(self).header(c)),
            !h_marked(final(self).header(c)),
            !h_removed(final(self).header(c)),
            learnt ==> final(self).act_word(c) == 0,
            final(self).data.len() == old(self).data.len() + h_size(final(self).header(c)),
            final(self).data@.subrange(0, old(self).data.len() as int) == old(self).data@,
            final(self).wasted == old(self).wasted,
    {
        let cid = self.data.len();
        let hdr = make_header(clause.len() as u32, trans, learnt);
        self.data.push(hdr);
        let mut i: usize = 0;
        while i < clause.len()
            invariant
                0 <= i <= clause.len(),
                self.data.len() == cid + 1 + i,
                self.data@[cid as int] == hdr,
                self.data@.subrange(0, cid as int) == old(self).data@,
                forall|k: int| 0 <= k < i ==> self.data@[cid + 1 + k] == (#[trigger] clause@[k]).0,
                self.wasted == old(self).wasted,
            decreases clause.len() - i,
        {
            self.data.push(clause[i].0);
            proof {
                assert(self.data@.subrange(0, cid as int) =~= old(self).data@) by {
                    assert forall|k: int| 0 <= k < cid implies self.data@[k] == old(self).data@[k] by {
                        assert(self.data@.subrange(0, cid as int)[k] == self.data@[k]);
                    }
                }
            }
            i = i + 1;
        }
        if learnt {
            self.data.push(0);
        }
        let c = CRef(cid as u32);
        proof {
            assert(self.data@.subrange(0, cid as int) =~= old(self).data@) by {
                assert forall|k: int| 0 <= k < cid implies self.data@[k] == old(self).data@[k] by {
                    assert(self.data@.subrange(0, cid as int)[k] == self.data@[k]) by {
                        if !learnt {
                        } else {
                        }
                    }
                }
            }
            assert(self.header(c) == hdr);
            assert(self.lits(c) =~= clause@) by {
                assert forall|k: int| 0 <= k < clause@.len() implies self.lits(c)[k] == clause@[k] by {
                    assert(self.data@[cid + 1 + k] == clause@[k].0);
                }
            }
        }
        c
    }

    /// The number of literals of the clause at `c`.
    pub fn clause_len_of(&self, c: CRef) -> (n: usize)
        requires
            self.valid(c),
        ensures
            n == self.clause_len(c),
    {
        header_len(self.data[c.0 as usize])
    }

    /// The literal at position `i` of the clause at `c`.
    pub fn lit(&self, c: CRef, i: usize) -> (l: Lit)
        requires
            self.valid(c),
            i < self.clause_len(c),
        ensures
            l == self.lits(c)[i as int],
    {
        Lit(self.data[c.0 as usize + 1 + i])
    }

    /// Whether the clause at `c` belongs to the transition relation.
    pub fn is_trans(&self, c: CRef) -> (b: bool)
        requires
            self.valid(c),
        ensures
            b == h_trans(self.header(c)),
    {
        header_flag(self.data[c.0 as usize], 1)
    }

    /// Whether the clause at `c` was learnt.
    pub fn is_learnt(&self, c: CRef) -> (b: bool)
        requires
            self.valid(c),
        ensures
            b == h_learnt(self.header(c)),
    {
        header_flag(self.data[c.0 as usize], 2)
    }

    /// Whether the clause at `c` was removed.
    pub fn is_removed(&self, c: CRef) -> (b: bool)
        requires
            self.valid(c),
        ensures
            b == h_removed(self.header(c)),
    {
        header_flag(self.data[c.0 as usize], 16)
    }

    /// Whether the clause at `c` is marked.
    pub fn is_marked(&self, c: CRef) -> (b: bool)
        requires
            self.valid(c),
        ensures
            b == h_marked(self.header(c)),
    {
        header_flag(self.data[c.0 as usize], 8)
    }

    /// Sets or clears one of the relocated, marked and removed flags.
    fn set_flag(&mut self, c: CRef, bit: u32, on: bool)
        requires
            old(self).valid(c),
            bit == 4 || bit == 8 || bit == 16,
        ensures
            final(self).data.len() == old(self).data.len(),
            final(self).wasted == old(self).wasted,
            final(self).data@ == old(self).data@.update(c.0 as int, final(self).header(c)),
            h_len(final(self).header(c)) == h_len(old(self).header(c)),
            h_trans(final(self).header(c)) == h_trans(old(self).header(c)),
            h_learnt(final(self).header(c)) == h_learnt(old(self).header(c)),
            bit == 4 ==> h_reloced(final(self).header(c)) == on && h_marked(final(self).header(c))
                == h_marked(old(self).header(c)) && h_removed(final(self).header(c)) == h_removed(
                old(self).header(c),
            ),
            bit == 8 ==> h_marked(final(self).header(c)) == on && h_reloced(final(self).header(c))
                == h_reloced(old(self).header(c)) && h_removed(final(self).header(c)) == h_removed(
                old(self).header(c),
            ),
            bit == 16 ==> h_removed(final(self).header(c)) == on && h_reloced(final(self).header(c))
                == h_reloced(old(self).header(c)) && h_marked(final(self).header(c)) == h_marked(
                old(self).header(c),
            ),
    {
        let w = self.data[c.0 as usize];
        let r = header_set(w, bit, on);
        self.data.set(c.0 as usize, r);
    }

    /// Marks the clause at `c` as removed.
    pub fn remove(&mut self, c: CRef)
        requires
            old(self).valid(c),
        ensures
            final(self).valid(c),
            final(self).lits(c) == old(self).lits(c),
            h_removed(final(self).header(c)),
            h_same_except(final(self).header(c), old(self).header(c), false, false, false, false, true),
            forall|d: int| 0 <= d < old(self).data.len() && d != c.0 ==> final(self).data@[d] == old(self).data@[d],
            final(self).data.len() == old(self).data.len(),
            final(self).wasted == old(self).wasted,
    {
        self.set_flag(c, 16, true);
        assert(self.lits(c) =~= old(self).lits(c));
    }

    /// Marks the clause at `c`.
    pub fn mark(&mut self, c: CRef)
        requires
            old(self).valid(c),
        ensures
            final(self).valid(c),
            final(self).lits(c) == old(self).lits(c),
            h_marked(final(self).header(c)),
            h_same_except(final(self).header(c), old(self).header(c), false, false, false, true, false),
            forall|d: int| 0 <= d < old(self).data.len() && d != c.0 ==> final(self).data@[d] == old(self).data@[d],
            final(self).data.len() == old(self).data.len(),
    {
        self.set_flag(c, 8, true);
        assert(self.lits(c) =~= old(self).lits(c));
    }

    /// Clears the mark of the clause at `c`.
    pub fn unmark(&mut self, c: CRef)
        requires
            old(self).valid(c),
        ensures
            final(self).valid(c),
            final(self).lits(c) == old(self).lits(c),
            !h_marked(final(self).header(c)),
            h_same_except(final(self).header(c), old(self).header(c), false, false, false, true, false),
            forall|d: int| 0 <= d < old(self).data.len() && d != c.0 ==> final(self).data@[d] == old(self).data@[d],
            final(self).data.len() == old(self).data.len(),
    {
        self.set_flag(c, 8, false);
        assert(self.lits(c) =~= old(self).lits(c));
    }

    /// Exchanges the literals at positions `a` and `b` of the clause at `c`.
    pub fn swap(&mut self, c: CRef, a: usize, b: usize)
        requires
            old(self).valid(c),
            a < old(self).clause_len(c),
            b < old(self).clause_len(c),
        ensures
            final(self).valid(c),
            final(self).header(c) == old(self).header(c),
            final(self).lits(c) == old(self).lits(c).update(a as int, old(self).lits(c)[b as int]).update(
                b as int,
                old(self).lits(c)[a as int],
            ),
            forall|d: int|
                0 <= d < old(self).data.len() && d != c.0 + 1 + a && d != c.0 + 1 + b ==> final(
                    self).data@[d] == old(self).data@[d],
            final(self).data.len() == old(self).data.len(),
            final(self).wasted == old(self).wasted,
    {
        let base = c.0 as usize + 1;
        let x = self.data[base + a];
        let y = self.data[base + b];
        self.data.set(base + a, y);
        self.data.set(base + b, x);
        assert(self.lits(c) =~= old(self).lits(c).update(a as int, old(self).lits(c)[b as int]).update(
            b as int,
            old(self).lits(c)[a as int],
        ));
    }

    /// Removes the literal at `index` of the clause at `c` by moving the
    /// last literal into its place and shortening the clause.
    pub fn swap_remove(&mut self, c: CRef, index: usize)
        requires
            old(self).valid(c),
            index < old(self).clause_len(c),
        ensures
            final(self).valid(c),
            final(self).clause_len(c) == old(self).clause_len(c) - 1,
            final(self).lits(c) == old(self).lits(c).update(
                index as int,
                old(self).lits(c).last(),
            ).drop_last(),
            h_trans(final(self).header(c)) == h_trans(old(self).header(c)),
            h_learnt(final(self).header(c)) == h_learnt(old(self).header(c)),
            h_reloced(final(self).header(c)) == h_reloced(old(self).header(c)),
            h_marked(final(self).header(c)) == h_marked(old(self).header(c)),
            h_removed(final(self).header(c)) == h_removed(old(self).header(c)),
            forall|d: int|
                0 <= d < old(self).data.len() && (d < c.0 || d > c.0 + old(self).clause_len(c)) ==> final(
                    self).data@[d] == old(self).data@[d],
            final(self).data.len() == old(self).data.len(),
            final(self).wasted == old(self).wasted,
    {
        let ci = c.0 as usize;
        let len = header_len(self.data[ci]);
        let last = self.data[ci + len];
        self.data.set(ci + 1 + index, last);
        let w = self.data[ci];
        let r = header_with_len(w, (len - 1) as u32);
        self.data.set(ci, r);
        assert(self.lits(c) =~= old(self).lits(c).update(index as int, old(self).lits(c).last()).drop_last());
    }

    /// The activity word of the learnt clause at `c`.
    pub fn act_bits(&self, c: CRef) -> (w: u32)
        requires
            self.valid(c),
            h_learnt(self.header(c)),
        ensures
            w == self.act_word(c),
    {
        let len = header_len(self.data[c.0 as usize]);
        self.data[c.0 as usize + 1 + len]
    }

    /// Overwrites the activity word of the learnt clause at `c`.
    pub fn set_act_bits(&mut self, c: CRef, w: u32)
        requires
            old(self).valid(c),
            h_learnt(old(self).header(c)),
        ensures
            final(self).valid(c),
            final(self).act_word(c) == w,
            final(self).header(c) == old(self).header(c),
            final(self).lits(c) == old(self).lits(c),
            final(self).data@ == old(self).data@.update(c.0 + 1 + old(self).clause_len(c), w),
            final(self).wasted == old(self).wasted,
    {
        let len = header_len(self.data[c.0 as usize]);
        self.data.set(c.0 as usize + 1 + len, w);
        assert(self.lits(c) =~= old(self).lits(c));
    }

    /// Marks the clause at `c` as removed and counts its words as wasted.
    pub fn free(&mut self, c: CRef)
        requires
            old(self).valid(c),
            old(self).wasted + h_size(old(self).header(c)) < usize::MAX,
        ensures
            final(self).valid(c),
            final(self).lits(c) == old(self).lits(c),
            h_removed(final(self).header(c)),
            h_same_except(final(self).header(c), old(self).header(c), false, false, false, false, true),
            forall|d: int| 0 <= d < old(self).data.len() && d != c.0 ==> final(self).data@[d] == old(self).data@[d],
            final(self).data.len() == old(self).data.len(),
            final(self).wasted == old(self).wasted + h_size(old(self).header(c)),
    {
        self.remove(c);
        let ci = c.0 as usize;
        let mut len = header_len(self.data[ci]) + 1;
        if header_flag(self.data[ci], 2) {
            len = len + 1;
        }
        self.wasted = self.wasted + len;
    }

    /// Appends the `len` words of `from` that start at `start` to the arena
    /// and returns where they start.
    fn alloc_from(&mut self, from: &Vec<u32>, start: usize, len: usize) -> (c: CRef)
        requires
            start + len <= from.len(),
            old(self).data.len() + len < u32::MAX,
        ensures
            c.0 == old(self).data.len(),
            final(self).data@ == old(self).data@ + from@.subrange(start as int, start + len),
            final(self).wasted == old(self).wasted,
    {
        let cid = self.data.len();
        let mut i: usize = 0;
        while i < len
            invariant
                0 <= i <= len,
                start + len <= from.len(),
                self.data@ == old(self).data@ + from@.subrange(start as int, start + i),
                self.wasted == old(self).wasted,
            decreases len - i,
        {
            self.data.push(from[start + i]);
            assert(from@.subrange(start as int, start + i + 1) =~= from@.subrange(start as int, start + i).push(from@[start + i]));
            i = i + 1;
        }
        CRef(cid as u32)
    }

    /// Copies the clause at `cid` into `to`, unless it was copied already,
    /// and returns the reference of the copy. The source clause is flagged
    /// relocated and the copy's reference replaces its first word.
    pub fn reloc(&mut self, cid: CRef, to: &mut Allocator) -> (r: CRef)
        requires
            old(self).valid(cid),
            h_len(old(self).header(cid)) > 0,
            !h_reloced(old(self).header(cid)) ==> old(to).data.len() + h_size(old(self).header(cid)) < u32::MAX,
        ensures
            h_reloced(old(self).header(cid)) ==> {
                &&& r.0 == old(self).data@[cid.0 + 1]
                &&& *final(self) == *old(self)
                &&& *final(to) == *old(to)
            },
            !h_reloced(old(self).header(cid)) ==> {
                &&& r.0 == old(to).data.len()
                &&& final(to).data@ == old(to).data@ + old(self).data@.subrange(
                    cid.0 as int,
                    cid.0 + h_size(old(self).header(cid)),
                )
                &&& final(to).wasted == old(to).wasted
                &&& final(to).valid(r)
                &&& final(to).header(r) == old(self).header(cid)
                &&& final(to).lits(r) == old(self).lits(cid)
                &&& h_learnt(old(self).header(cid)) ==> final(to).act_word(r) == old(self).act_word(cid)
                &&& h_reloced(final(self).header(cid))
                &&& h_same_except(final(self).header(cid), old(self).header(cid), false, false, true, false, false)
                &&& final(self).data@[cid.0 + 1] == r.0
                &&& forall|d: int|
                    0 <= d < old(self).data.len() && d != cid.0 && d != cid.0 + 1 ==> final(
                        self).data@[d] == old(self).data@[d]
                &&& final(self).data.len() == old(self).data.len()
                &&& final(self).wasted == old(self).wasted
            },
    {
        let ci = cid.0 as usize;
        if header_flag(self.data[ci], 4) {
            return CRef(self.data[ci + 1]);
        }
        let mut len = header_len(self.data[ci]) + 1;
        if header_flag(self.data[ci], 2) {
            len = len + 1;
        }
        let rcid = to.alloc_from(&self.data, ci, len);
        proof {
            let words = old(self).data@.subrange(ci as int, ci + len);
            assert(to.data@ == old(to).data@ + words);
            assert(to.data@[rcid.0 as int] == old(self).data@[ci as int]);
            assert(to.lits(rcid) =~= old(self).lits(cid)) by {
                assert forall|k: int| 0 <= k < old(self).clause_len(cid) implies #[trigger] to.lits(rcid)[k]
                    == old(self).lits(cid)[k] by {
                    assert(to.data@[rcid.0 + 1 + k] == words[1 + k]);
                }
            }
            if h_learnt(old(self).header(cid)) {
                assert(to.data@[rcid.0 + 1 + old(self).clause_len(cid)] == words[1 + old(self).clause_len(cid)]);
            }
        }
        self.set_flag(cid, 4, true);
        self.data.set(ci + 1, rcid.0);
        rcid
    }
}


/// Appending words to an arena keeps every clause it held.
pub proof fn lemma_extend_keeps(a: &Allocator, b: &Allocator, c: CRef)
    requires
        a.valid(c),
        a.data.len() <= b.data.len(),
        b.data@.subrange(0, a.data.len() as int) == a.data@,
    ensures
        b.valid(c),
        b.header(c) == a.header(c),
        b.lits(c) == a.lits(c),
        h_learnt(a.header(c)) ==> b.act_word(c) == a.act_word(c),
{
    assert forall|k: int| 0 <= k < a.data.len() implies b.data@[k] == a.data@[k] by {
        assert(b.data@.subrange(0, a.data.len() as int)[k] == b.data@[k]);
    }
    assert(b.lits(c) =~= a.lits(c));
}

/// The clause store: the arena and the lists of clauses of each kind.
pub struct ClauseDB {
    pub allocator: Allocator,
    pub lemmas: Vec<CRef>,
    pub trans: Vec<CRef>,
    pub learnt: Vec<CRef>,
    pub temporary: Vec<CRef>,
}

impl ClauseDB {
    /// Every listed clause lies in the arena, and the trans and learnt
    /// lists hold exactly the clauses flagged so.
    pub open spec fn wf(&self) -> bool {
        &&& forall|i: int| 0 <= i < self.lemmas.len() ==> self.allocator.valid(#[trigger] self.lemmas@[i])
        &&& forall|i: int| 0 <= i < self.trans.len() ==> self.allocator.valid(#[trigger] self.trans@[i])
        &&& forall|i: int| 0 <= i < self.learnt.len() ==> self.allocator.valid(#[trigger] self.learnt@[i])
        &&& forall|i: int|
            0 <= i < self.temporary.len() ==> self.allocator.valid(#[trigger] self.temporary@[i])
        &&& forall|i: int| 0 <= i < self.trans.len() ==> h_trans(self.allocator.header(#[trigger] self.trans@[i]))
        &&& forall|i: int| 0 <= i < self.learnt.len() ==> h_learnt(self.allocator.header(#[trigger] self.learnt@[i]))
    }

    /// The list that holds clauses of `kind`.
    pub open spec fn list(&self, kind: ClauseKind) -> Seq<CRef> {
        match kind {
            ClauseKind::Trans => self.trans@,
            ClauseKind::Lemma => self.lemmas@,
            ClauseKind::Learnt => self.learnt@,
            ClauseKind::Temporary => self.temporary@,
        }
    }

    /// An empty store.
    pub fn new() -> (db: ClauseDB)
        ensures
            db.wf(),
            db.allocator.data.len() == 0,
            db.allocator.wasted == 0,
            db.lemmas.len() == 0,
            db.trans.len() == 0,
            db.learnt.len() == 0,
            db.temporary.len() == 0,
    {
        ClauseDB {
            allocator: Allocator::with_capacity(1024 * 1024),
            lemmas: Vec::new(),
            trans: Vec::new(),
            learnt: Vec::new(),
            temporary: Vec::new(),
        }
    }

    /// Stores a clause of the given kind and appends it to its list.
    pub fn alloc_clause(&mut self, clause: &[Lit], kind: ClauseKind) -> (c: CRef)
        requires
            clause@.len() <= MAX_CLAUSE_LEN,
            old(self).allocator.data.len() + clause@.len() + 2 < u32::MAX,
        ensures
            old(self).wf() ==> final(self).wf(),
            c.0 == old(self).allocator.data.len(),
            final(self).allocator.valid(c),
            final(self).allocator.lits(c) == clause@,
            h_trans(final(self).allocator.header(c)) == (kind == ClauseKind::Trans),
            h_learnt(final(self).allocator.header(c)) == (kind == ClauseKind::Learnt),
            !h_removed(final(self).allocator.header(c)),
            !h_marked(final(self).allocator.header(c)),
            !h_reloced(final(self).allocator.header(c)),
            final(self).list(kind) == old(self).list(kind).push(c),
            forall|k: ClauseKind| k != kind ==> final(self).list(k) == old(self).list(k),
            final(self).allocator.data@.subrange(0, old(self).allocator.data.len() as int) == old(self).allocator.data@,
            final(self).allocator.data.len() > old(self).allocator.data.len(),
            final(self).allocator.data.len() <= old(self).allocator.data.len() + clause@.len() + 2,
            final(self).allocator.wasted == old(self).allocator.wasted,
    {
        let trans = match kind {
            ClauseKind::Trans => true,
            _ => false,
        };
        let learnt = match kind {
            ClauseKind::Learnt => true,
            _ => false,
        };
        let cid = self.allocator.alloc_clause(clause, trans, learnt);
        proof {
            let old_a = &old(self).allocator;
            assert forall|d: CRef| old_a.valid(d) implies self.allocator.valid(d) && self.allocator.header(d) == old_a.header(d) by {
                lemma_extend_keeps(old_a, &self.allocator, d);
            }
        }
        match kind {
            ClauseKind::Trans => self.trans.push(cid),
            ClauseKind::Lemma => self.lemmas.push(cid),
            ClauseKind::Learnt => self.learnt.push(cid),
            ClauseKind::Temporary => self.temporary.push(cid),
        }
        cid
    }

    /// Frees the clause at `c` in the arena.
    pub fn free(&mut self, c: CRef)
        requires
            old(self).allocator.valid(c),
            old(self).allocator.wasted + h_size(old(self).allocator.header(c)) < usize::MAX,
        ensures
            old(self).wf() ==> final(self).wf(),
            final(self).allocator.valid(c),
            h_removed(final(self).allocator.header(c)),
            h_same_except(final(self).allocator.header(c), old(self).allocator.header(c), false, false, false, false, true),
            final(self).allocator.lits(c) == old(self).allocator.lits(c),
            forall|d: int| 0 <= d < old(self).allocator.data.len() && d != c.0 ==> final(self).allocator.data@[d] == old(self).allocator.data@[d],
            final(self).allocator.data.len() == old(self).allocator.data.len(),
            final(self).allocator.wasted == old(self).allocator.wasted + h_size(old(self).allocator.header(c)),
            final(self).lemmas == old(self).lemmas,
            final(self).trans == old(self).trans,
            final(self).learnt == old(self).learnt,
            final(self).temporary == old(self).temporary,
    {
        self.allocator.free(c);
        proof {
            assert forall|d: CRef| old(self).allocator.valid(d) implies self.allocator.valid(d) && h_same_except(self.allocator.header(d), old(self).allocator.header(d), false, false, false, false, true) by {
                if d != c {
                    assert(self.allocator.header(d) == old(self).allocator.header(d));
                }
            }
        }
    }

    /// The number of learnt clauses.
    pub fn num_leanrt(&self) -> (n: usize)
        ensures
            n == self.learnt.len(),
    {
        self.learnt.len()
    }

    /// The number of lemmas.
    pub fn num_lemma(&self) -> (n: usize)
        ensures
            n == self.lemmas.len(),
    {
        self.lemmas.len()
    }
}

} // verus!
