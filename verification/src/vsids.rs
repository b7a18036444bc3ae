//! Decision order of the solver: the activity heap and the bucket queue.
//!
//! The bucket queue is a coarse priority queue: a variable goes to the
//! bucket given by the bit length of its position in an activity heap, and
//! the lowest non-empty bucket is served first.
use crate::heap::{key, BinaryHeap};
use crate::lit::Var;
use vstd::prelude::*;
use vstd::std_specs::bits::{axiom_u32_leading_zeros, u32_leading_zeros};

verus! {

/// The bucket of heap position `i`: its bit length.
pub open spec fn bit_len(i: int) -> int {
    32 - u32_leading_zeros(i as u32) as int
}

/// The buckets of the positions of an activity heap.
pub struct BucketOrder {
    pub heap: BinaryHeap,
    pub table: Vec<u32>,
}

impl BucketOrder {
    /// One table entry per heap slot, giving the slot's bucket, and a last
    /// entry for variables not in the heap, one past the largest bucket.
    pub open spec fn wf(&self) -> bool {
        &&& self.heap.wf()
        &&& self.table.len() == self.heap.heap.len() + 1
        &&& forall|i: int|
            0 <= i < self.heap.heap.len() ==> (#[trigger] self.table@[i]) as int == bit_len(i)
        &&& self.table@[self.heap.heap.len() as int] as int == if self.heap.heap.len() == 0 {
            0
        } else {
            bit_len(self.heap.heap.len() - 1) + 1
        }
    }

    /// The bucket of `v` in this order.
    pub open spec fn spec_bucket(&self, v: Var) -> int {
        match self.heap.pos@[v.0 as int] {
            Some(p) => self.table@[p as int] as int,
            None => self.table@[self.table.len() - 1] as int,
        }
    }

    /// An order with no variable in its heap.
    pub fn new() -> (b: BucketOrder)
        ensures
            b.wf(),
            b.heap.capacity() == 0,
    {
        let mut table = Vec::new();
        table.push(0u32);
        BucketOrder { heap: BinaryHeap::new(), table }
    }

    /// Makes room for `var` in the heap's position table.
    pub fn reserve(&mut self, var: Var)
        requires
            old(self).wf(),
            var.0 < u32::MAX,
        ensures
            final(self).wf(),
            final(self).heap.members() == old(self).heap.members(),
            final(self).heap.capacity() >= var.0 + 1,
            final(self).heap.capacity() >= old(self).heap.capacity(),
    {
        self.heap.reserve(var);
    }

    /// Puts `var` into the heap, if it is not there, and extends the table.
    pub fn check(&mut self, var: Var, act: &Vec<u64>)
        requires
            old(self).wf(),
            act.len() >= old(self).heap.capacity(),
            (var.0 as int) < old(self).heap.capacity(),
            old(self).heap.heap.len() + 2 < u32::MAX,
        ensures
            final(self).wf(),
            final(self).heap.members() == old(self).heap.members().insert(var.0),
            final(self).heap.capacity() == old(self).heap.capacity(),
            old(self).heap.ordered(act@) ==> final(self).heap.ordered(act@),
    {
        if self.heap.pos[var.0 as usize].is_none() {
            let n = self.heap.heap.len();
            self.heap.push(var, act);
            proof {
                assert(self.heap.members().contains(var.0));
                assert(!old(self).heap.members().contains(var.0));
                assert(self.heap.heap.len() == n + 1) by {
                    self.heap_len_is_members();
                    old(self).heap_len_is_members();
                }
                axiom_u32_leading_zeros((self.table.len() - 1) as u32);
            }
            let last = self.table.len() - 1;
            let b = 32 - (last as u32).leading_zeros();
            self.table.set(last, b);
            self.table.push(b + 1);
        } else {
            proof {
                assert(old(self).heap.members().insert(var.0) =~= old(self).heap.members());
            }
        }
    }

    /// A heap's length is the number of its members.
    proof fn heap_len_is_members(&self)
        requires
            self.heap.wf(),
        ensures
            self.heap.members().len() == self.heap.heap.len(),
            self.heap.members().finite(),
    {
        let h = self.heap.heap@;
        let s = self.heap.members();
        let m = h.map_values(|v: Var| v.0);
        assert(s =~= m.to_set()) by {
            assert forall|v: u32| s.contains(v) implies m.contains(v) by {
                let k = self.heap.pos@[v as int]->0 as int;
                assert(m[k] == v);
            }
            assert forall|v: u32| m.contains(v) implies s.contains(v) by {
                let k = choose|k: int| 0 <= k < m.len() && #[trigger] m[k] == v;
                assert(h[k].0 == v);
            }
        }
        assert(m.no_duplicates()) by {
            assert forall|i: int, j: int|
                0 <= i < m.len() && 0 <= j < m.len() && i != j implies #[trigger] m[i] != #[trigger] m[j] by {
                assert(self.heap.pos@[h[i].0 as int] == Some(i as u32));
                assert(self.heap.pos@[h[j].0 as int] == Some(j as u32));
            }
        }
        m.unique_seq_to_set();
    }

    /// The bucket of `var`.
    pub fn bucket(&self, var: Var) -> (b: u32)
        requires
            self.wf(),
            (var.0 as int) < self.heap.capacity(),
        ensures
            b as int == self.spec_bucket(var),
            b <= 33,
    {
        proof {
            if self.heap.heap.len() > 0 {
                axiom_u32_leading_zeros((self.heap.heap.len() - 1) as u32);
            }
        }
        match self.heap.pos[var.0 as usize] {
            None => self.table[self.table.len() - 1],
            Some(b) => {
                proof {
                    axiom_u32_leading_zeros(b);
                }
                self.table[b as usize]
            },
        }
    }
}

/// A queue of variables kept in numbered buckets and served lowest bucket
/// first, last in first out within a bucket.
pub struct Bucket {
    pub buckets: Vec<Vec<Var>>,
    pub in_bucket: Vec<bool>,
    pub head: u32,
}

pub open spec fn in_some_bucket(b: Seq<Vec<Var>>, v: u32) -> bool {
    exists|i: int, k: int| 0 <= i < b.len() && 0 <= k < b[i].len() && (#[trigger] b[i]@[k]) == Var(v)
}

impl Bucket {
    /// Buckets below the head are empty, every queued variable is marked and
    /// queued once, and every marked variable is queued.
    pub open spec fn wf(&self) -> bool {
        &&& self.buckets.len() < u32::MAX
        &&& self.head <= self.buckets.len()
        &&& forall|j: int| 0 <= j < self.head ==> (#[trigger] self.buckets@[j]).len() == 0
        &&& forall|i: int, k: int|
            0 <= i < self.buckets.len() && 0 <= k < self.buckets@[i].len() ==> {
                &&& (#[trigger] self.buckets@[i]@[k]).0 < self.in_bucket.len()
                &&& self.in_bucket@[self.buckets@[i]@[k].0 as int]
            }
        &&& forall|i1: int, k1: int, i2: int, k2: int|
            0 <= i1 < self.buckets.len() && 0 <= k1 < self.buckets@[i1].len() && 0 <= i2
                < self.buckets.len() && 0 <= k2 < self.buckets@[i2].len() && (
            #[trigger] self.buckets@[i1]@[k1]) == (#[trigger] self.buckets@[i2]@[k2]) ==> i1 == i2
                && k1 == k2
        &&& forall|v: int|
            0 <= v < self.in_bucket.len() && #[trigger] self.in_bucket@[v] ==> in_some_bucket(
                self.buckets@,
                v as u32,
            )
        &&& self.in_bucket.len() <= u32::MAX
    }

    /// The queued variables.
    pub open spec fn members(&self) -> Set<u32> {
        Set::new(|v: u32| (v as int) < self.in_bucket.len() && self.in_bucket@[v as int])
    }

    pub open spec fn capacity(&self) -> nat {
        self.in_bucket@.len()
    }

    /// An empty queue.
    pub fn new() -> (b: Bucket)
        ensures
            b.wf(),
            b.members() == Set::<u32>::empty(),
            b.capacity() == 0,
            b.buckets@.len() == 0,
            b.head == 0,
    {
        let b = Bucket { buckets: Vec::new(), in_bucket: Vec::new(), head: 0 };
        assert(b.members() =~= Set::<u32>::empty());
        b
    }

    /// Makes room in the membership table for `var`.
    pub fn reserve(&mut self, var: Var)
        requires
            old(self).wf(),
            var.0 < u32::MAX,
        ensures
            final(self).wf(),
            final(self).members() == old(self).members(),
            final(self).capacity() >= var.0 + 1,
            final(self).capacity() >= old(self).capacity(),
            final(self).buckets == old(self).buckets,
    {
        let len = var.0 as usize + 1;
        while self.in_bucket.len() < len
            invariant
                self.buckets == old(self).buckets,
                self.head == old(self).head,
                old(self).wf(),
                len <= u32::MAX,
                old(self).in_bucket.len() <= self.in_bucket.len(),
                self.in_bucket.len() <= len || self.in_bucket.len() == old(self).in_bucket.len(),
                forall|v: int|
                    0 <= v < old(self).in_bucket.len() ==> self.in_bucket@[v] == old(self).in_bucket@[v],
                forall|v: int|
                    old(self).in_bucket.len() <= v < self.in_bucket.len() ==> !self.in_bucket@[v],
            decreases len - self.in_bucket.len(),
        {
            self.in_bucket.push(false);
        }
        proof {
            assert forall|i: int, k: int|
                0 <= i < self.buckets.len() && 0 <= k < self.buckets@[i].len() implies {
                &&& (#[trigger] self.buckets@[i]@[k]).0 < self.in_bucket.len()
                &&& self.in_bucket@[self.buckets@[i]@[k].0 as int]
            } by {
                assert(old(self).in_bucket@[self.buckets@[i]@[k].0 as int]);
            }
            assert forall|v: int|
                0 <= v < self.in_bucket.len() && #[trigger] self.in_bucket@[v] implies in_some_bucket(
                self.buckets@,
                v as u32,
            ) by {
                assert(old(self).in_bucket@[v]);
            }
            assert(self.members() =~= old(self).members());
        }
    }

    /// Queues `var` in bucket `bucket`, unless it is already queued.
    pub fn push(&mut self, var: Var, bucket: u32)
        requires
            old(self).wf(),
            (var.0 as int) < old(self).capacity(),
            bucket < u32::MAX - 1,
        ensures
            final(self).wf(),
            final(self).members() == old(self).members().insert(var.0),
            final(self).capacity() == old(self).capacity(),
            !old(self).members().contains(var.0) ==> final(self).buckets@[bucket as int]@ == (
            if (bucket as int) < old(self).buckets.len() {
                old(self).buckets@[bucket as int]@
            } else {
                Seq::<Var>::empty()
            }).push(var),
            old(self).members().contains(var.0) ==> *final(self) == *old(self),
    {
        if self.in_bucket[var.0 as usize] {
            proof {
                assert(old(self).members().insert(var.0) =~= old(self).members());
            }
            return ;
        }
        if self.head > bucket {
            self.head = bucket;
        }
        let ghost old_b = self.buckets@;
        let ghost head1 = self.head;
        assert(head1 <= old(self).head && head1 <= bucket);
        let want = bucket as usize + 1;
        if self.buckets.len() <= want {
            while self.buckets.len() < want
                invariant
                    self.in_bucket == old(self).in_bucket,
                    self.head == head1,
                    old_b == old(self).buckets@,
                    old_b.len() <= self.buckets.len() <= want,
                    want < u32::MAX,
                    forall|i: int| 0 <= i < old_b.len() ==> self.buckets@[i] == old_b[i],
                    forall|i: int|
                        old_b.len() <= i < self.buckets.len() ==> self.buckets@[i]@.len() == 0,
                decreases want - self.buckets.len(),
            {
                self.buckets.push(Vec::new());
            }
        }
        let ghost mid_b = self.buckets@;
        self.buckets[bucket as usize].push(var);
        self.in_bucket.set(var.0 as usize, true);
        proof {
            let b = self.buckets@;
            assert(forall|i: int| 0 <= i < b.len() && i != bucket ==> b[i] == mid_b[i]);
            assert(forall|i: int|
                0 <= i < mid_b.len() ==> mid_b[i]@ == if i < old_b.len() {
                    old_b[i]@
                } else {
                    Seq::<Var>::empty()
                });
            assert(b[bucket as int]@ == mid_b[bucket as int]@.push(var));
            assert forall|i: int, k: int| 0 <= i < b.len() && 0 <= k < b[i].len() implies {
                &&& (#[trigger] b[i]@[k]).0 < self.in_bucket.len()
                &&& self.in_bucket@[b[i]@[k].0 as int]
            } by {
                if i == bucket && k == b[i].len() - 1 {
                } else {
                    assert(b[i]@[k] == old_b[i]@[k]);
                    assert(old(self).in_bucket@[b[i]@[k].0 as int]);
                }
            }
            assert forall|i1: int, k1: int, i2: int, k2: int|
                0 <= i1 < b.len() && 0 <= k1 < b[i1].len() && 0 <= i2 < b.len() && 0 <= k2
                    < b[i2].len() && (#[trigger] b[i1]@[k1]) == (#[trigger] b[i2]@[k2]) implies i1
                == i2 && k1 == k2 by {
                let new1 = i1 == bucket && k1 == b[i1].len() - 1;
                let new2 = i2 == bucket && k2 == b[i2].len() - 1;
                if !new1 {
                    assert(b[i1]@[k1] == old_b[i1]@[k1]);
                    assert(old(self).in_bucket@[old_b[i1]@[k1].0 as int]);
                }
                if !new2 {
                    assert(b[i2]@[k2] == old_b[i2]@[k2]);
                    assert(old(self).in_bucket@[old_b[i2]@[k2].0 as int]);
                }
            }
            assert forall|v: int|
                0 <= v < self.in_bucket.len() && #[trigger] self.in_bucket@[v] implies in_some_bucket(
                b,
                v as u32,
            ) by {
                if v == var.0 as int {
                    assert(b[bucket as int]@[b[bucket as int].len() - 1] == var);
                } else {
                    assert(old(self).in_bucket@[v]);
                    let (i, k) = choose|i: int, k: int|
                        0 <= i < old_b.len() && 0 <= k < old_b[i].len() && (#[trigger] old_b[i]@[k])
                            == Var(v as u32);
                    assert(b[i]@[k] == old_b[i]@[k]);
                }
            }
            assert(self.head <= old(self).head && self.head <= bucket);
            assert forall|j: int| 0 <= j < self.head implies (#[trigger] b[j]).len() == 0 by {
                assert(j < old(self).head);
                assert(j != bucket);
                assert(b[j] == mid_b[j]);
                assert(mid_b[j] == old_b[j]);
                assert(old(self).buckets@[j].len() == 0);
            }
            assert(self.members() =~= old(self).members().insert(var.0));
        }
    }

    /// Removes the last variable of the bucket at the head.
    fn take_last(&mut self) -> (v: Var)
        requires
            old(self).wf(),
            (old(self).head as int) < old(self).buckets.len(),
            old(self).buckets@[old(self).head as int].len() > 0,
        ensures
            final(self).wf(),
            final(self).head == old(self).head,
            final(self).capacity() == old(self).capacity(),
            final(self).buckets.len() == old(self).buckets.len(),
            v == old(self).buckets@[old(self).head as int]@.last(),
            old(self).members().contains(v.0),
            final(self).members() == old(self).members().remove(v.0),
            final(self).buckets@[old(self).head as int]@ == old(self).buckets@[old(self).head as int]@.drop_last(),
            forall|j: int|
                0 <= j < old(self).buckets.len() && j != old(self).head ==> (
                #[trigger] final(self).buckets@[j]) == old(self).buckets@[j],
    {
        let h = self.head as usize;
        let ghost old_b = self.buckets@;
        let var = self.buckets[h].pop().unwrap();
        proof {
            let b = self.buckets@;
            let kk = old_b[h as int].len() - 1;
            assert(old_b[h as int]@[kk] == var);
            assert(old(self).in_bucket@[var.0 as int]);
            assert forall|i: int, k: int| 0 <= i < b.len() && 0 <= k < b[i].len() implies (
            #[trigger] b[i]@[k]) != var by {
                assert(b[i]@[k] == old_b[i]@[k]);
            }
        }
        self.in_bucket.set(var.0 as usize, false);
        proof {
            let b = self.buckets@;
            let kk = old_b[h as int].len() - 1;
            assert forall|i: int, k: int| 0 <= i < b.len() && 0 <= k < b[i].len() implies {
                &&& (#[trigger] b[i]@[k]).0 < self.in_bucket.len()
                &&& self.in_bucket@[b[i]@[k].0 as int]
            } by {
                assert(b[i]@[k] == old_b[i]@[k]);
                assert(b[i]@[k] != var);
            }
            assert forall|i1: int, k1: int, i2: int, k2: int|
                0 <= i1 < b.len() && 0 <= k1 < b[i1].len() && 0 <= i2 < b.len() && 0 <= k2
                    < b[i2].len() && (#[trigger] b[i1]@[k1]) == (#[trigger] b[i2]@[k2]) implies i1
                == i2 && k1 == k2 by {
                assert(b[i1]@[k1] == old_b[i1]@[k1]);
                assert(b[i2]@[k2] == old_b[i2]@[k2]);
            }
            assert forall|v: int|
                0 <= v < self.in_bucket.len() && #[trigger] self.in_bucket@[v] implies in_some_bucket(
                b,
                v as u32,
            ) by {
                let (i, k) = choose|i: int, k: int|
                    0 <= i < old_b.len() && 0 <= k < old_b[i].len() && (#[trigger] old_b[i]@[k])
                        == Var(v as u32);
                if i == h as int && k == kk {
                    assert(v == var.0 as int);
                } else {
                    assert(b[i]@[k] == old_b[i]@[k]);
                }
            }
            assert forall|j: int| 0 <= j < self.head implies (#[trigger] b[j]).len() == 0 by {
                assert(b[j] == old_b[j]);
            }
            assert(old(self).members().contains(var.0));
            assert(self.members() =~= old(self).members().remove(var.0));
        }
        var
    }

    /// Removes every queued variable and drops all buckets.
    pub fn clear(&mut self)
        requires
            old(self).wf(),
        ensures
            final(self).wf(),
            final(self).members() == Set::<u32>::empty(),
            final(self).capacity() == old(self).capacity(),
            final(self).buckets.len() == 0,
            final(self).head == 0,
    {
        while self.head < self.buckets.len() as u32
            invariant
                self.wf(),
                self.capacity() == old(self).capacity(),
            decreases self.buckets.len() - self.head,
        {
            let ghost h0 = self.head;
            let ghost n0 = self.buckets.len();
            loop
                invariant
                    self.wf(),
                    self.capacity() == old(self).capacity(),
                    self.head == h0,
                    self.buckets.len() == n0,
                    (self.head as int) < self.buckets.len(),
                ensures
                    self.wf(),
                    self.capacity() == old(self).capacity(),
                    self.head == h0,
                    self.buckets.len() == n0,
                    self.buckets@[self.head as int].len() == 0,
                decreases self.buckets@[self.head as int].len(),
            {
                if self.buckets[self.head as usize].len() == 0 {
                    break ;
                }
                self.take_last();
            }
            self.head = self.head + 1;
        }
        proof {
            assert(self.members() =~= Set::<u32>::empty()) by {
                assert forall|v: u32| !self.members().contains(v) by {
                    if self.members().contains(v) {
                        let (i, k) = choose|i: int, k: int|
                            0 <= i < self.buckets.len() && 0 <= k < self.buckets@[i].len() && (
                            #[trigger] self.buckets@[i]@[k]) == Var(v);
                        assert(self.buckets@[i].len() == 0);
                    }
                }
            }
        }
        self.buckets.clear();
        self.head = 0;
        proof {
            assert(self.members() =~= Set::<u32>::empty());
            assert forall|v: int|
                0 <= v < self.in_bucket.len() implies !(#[trigger] self.in_bucket@[v]) by {
                assert(!self.members().contains(v as u32));
            }
        }
    }

    /// Removes and returns the last variable of the lowest non-empty bucket.
    pub fn pop(&mut self) -> (r: Option<Var>)
        requires
            old(self).wf(),
        ensures
            final(self).wf(),
            final(self).capacity() == old(self).capacity(),
            r is None <==> old(self).members() == Set::<u32>::empty(),
            r is None ==> final(self).members() == Set::<u32>::empty(),
            final(self).buckets.len() == old(self).buckets.len(),
            r is None ==> final(self).buckets == old(self).buckets,
            r matches Some(v) ==> {
                &&& old(self).members().contains(v.0)
                &&& final(self).members() == old(self).members().remove(v.0)
                &&& exists|b: int|
                    0 <= b < old(self).buckets.len() && old(self).buckets@[b]@.last() == v
                        && old(self).buckets@[b].len() > 0 && (forall|j: int|
                        0 <= j < b ==> (#[trigger] old(self).buckets@[j]).len() == 0)
                        && final(self).buckets@[b]@ == old(self).buckets@[b]@.drop_last()
                        && (forall|j: int| 0 <= j < old(self).buckets.len() && j != b
                            ==> (#[trigger] final(self).buckets@[j]) == old(self).buckets@[j])
            },
    {
        while self.head < self.buckets.len() as u32
            invariant
                self.wf(),
                self.buckets == old(self).buckets,
                self.in_bucket == old(self).in_bucket,
                old(self).head <= self.head,
            decreases self.buckets.len() - self.head,
        {
            let h = self.head as usize;
            if self.buckets[h].len() > 0 {
                let ghost mid = self.buckets@;
                let var = self.take_last();
                proof {
                    assert forall|j: int| 0 <= j < h implies (#[trigger] old(self).buckets@[j]).len()
                        == 0 by {
                        assert(mid[j] == old(self).buckets@[j]);
                    }
                    assert(old(self).members().contains(var.0));
                }
                return Some(var);
            }
            self.head = self.head + 1;
        }
        proof {
            assert(self.members() =~= Set::<u32>::empty()) by {
                assert forall|v: u32| !self.members().contains(v) by {
                    if self.members().contains(v) {
                        let (i, k) = choose|i: int, k: int|
                            0 <= i < self.buckets.len() && 0 <= k < self.buckets@[i].len() && (
                            #[trigger] self.buckets@[i]@[k]) == Var(v);
                        assert(self.buckets@[i].len() == 0);
                    }
                }
            }
        }
        None
    }
}


/// The decision queue: an activity heap, or a bucket queue when buckets are
/// enabled, with the bucket order of the activities.
pub struct Vsids {
    pub order: BucketOrder,
    pub heap: BinaryHeap,
    pub bucket: Bucket,
    pub enable_bucket: bool,
}

impl Vsids {
    pub open spec fn wf(&self) -> bool {
        &&& self.order.wf()
        &&& self.heap.wf()
        &&& self.bucket.wf()
    }

    /// Every table covers the variables below `n`.
    pub open spec fn covers(&self, n: nat) -> bool {
        &&& self.order.heap.capacity() >= n
        &&& self.heap.capacity() >= n
        &&& self.bucket.capacity() >= n
    }

    /// The queued variables of the queue in use.
    pub open spec fn members(&self) -> Set<u32> {
        if self.enable_bucket {
            self.bucket.members()
        } else {
            self.heap.members()
        }
    }

    /// An empty queue, with buckets enabled.
    pub fn new() -> (v: Vsids)
        ensures
            v.wf(),
            v.enable_bucket,
            v.members() == Set::<u32>::empty(),
    {
        Vsids {
            order: BucketOrder::new(),
            heap: BinaryHeap::new(),
            bucket: Bucket::new(),
            enable_bucket: true,
        }
    }

    /// Makes room for `var` in every table.
    pub fn reserve(&mut self, var: Var)
        requires
            old(self).wf(),
            var.0 < u32::MAX,
        ensures
            final(self).wf(),
            final(self).covers(var.0 as nat + 1),
            forall|n: nat| old(self).covers(n) ==> final(self).covers(n),
            final(self).members() == old(self).members(),
            final(self).enable_bucket == old(self).enable_bucket,
            final(self).heap.heap@ == old(self).heap.heap@,
    {
        self.heap.reserve(var);
        self.bucket.reserve(var);
        self.order.reserve(var);
    }

    /// Queues `var` in the queue in use.
    pub fn push(&mut self, var: Var, act: &Vec<u64>)
        requires
            old(self).wf(),
            old(self).covers(var.0 as nat + 1),
            act.len() >= old(self).heap.capacity(),
            old(self).heap.heap.len() + 1 < u32::MAX,
        ensures
            final(self).wf(),
            final(self).members() == old(self).members().insert(var.0),
            final(self).enable_bucket == old(self).enable_bucket,
            final(self).order == old(self).order,
            forall|n: nat| old(self).covers(n) ==> final(self).covers(n),
            !old(self).enable_bucket && old(self).heap.ordered(act@) ==> final(self).heap.ordered(act@),
            final(self).heap.heap@.len() <= old(self).heap.heap@.len() + 1,
            final(self).heap.capacity() == old(self).heap.capacity(),
    {
        if self.enable_bucket {
            let b = self.order.bucket(var);
            return self.bucket.push(var, b);
        }
        self.heap.push(var, act)
    }

    /// Removes and returns the next variable of the queue in use.
    pub fn pop(&mut self, act: &Vec<u64>) -> (r: Option<Var>)
        requires
            old(self).wf(),
            act.len() >= old(self).heap.capacity(),
        ensures
            final(self).wf(),
            final(self).enable_bucket == old(self).enable_bucket,
            final(self).order == old(self).order,
            final(self).heap.capacity() == old(self).heap.capacity(),
            forall|n: nat| old(self).covers(n) ==> final(self).covers(n),
            r is None ==> final(self).members() == Set::<u32>::empty(),
            r is None ==> old(self).members() == Set::<u32>::empty(),
            r matches Some(v) ==> old(self).members().contains(v.0) && final(self).members()
                == old(self).members().remove(v.0),
            old(self).enable_bucket ==> final(self).bucket.buckets.len() == old(self).bucket.buckets.len(),
            old(self).enable_bucket && r is None ==> final(self).bucket.buckets == old(self).bucket.buckets,
            old(self).enable_bucket && r is Some ==> exists|b: int|
                0 <= b < old(self).bucket.buckets.len() && old(self).bucket.buckets@[b]@.last() == r->0
                    && old(self).bucket.buckets@[b].len() > 0 && (forall|j: int|
                    0 <= j < b ==> (#[trigger] old(self).bucket.buckets@[j]).len() == 0)
                    && final(self).bucket.buckets@[b]@ == old(self).bucket.buckets@[b]@.drop_last()
                    && (forall|j: int| 0 <= j < old(self).bucket.buckets.len() && j != b
                        ==> (#[trigger] final(self).bucket.buckets@[j]) == old(self).bucket.buckets@[j]),
            !old(self).enable_bucket && old(self).heap.ordered(act@) ==> final(self).heap.ordered(act@),
            r is Some && !old(self).enable_bucket && old(self).heap.ordered(act@) ==> forall|u: u32|
                #[trigger] old(self).members().contains(u) ==> key(act@, Var(u)) <= key(
                    act@,
                    r->0,
                ),
    {
        if self.enable_bucket {
            return self.bucket.pop();
        }
        proof {
            if self.heap.heap.len() == 0 {
                assert(self.heap.members() =~= Set::<u32>::empty()) by {
                    assert forall|u: u32| !self.heap.members().contains(u) by {
                        if self.heap.members().contains(u) {
                            assert(self.heap.pos@[u as int] is Some);
                        }
                    }
                }
            }
        }
        self.heap.pop(act)
    }

    /// Reorders `var` after its activity was raised: `act` already holds
    /// the raised activity. The variable enters the bucket order's heap if it
    /// was not there, and moves up in both heaps.
    pub fn bump(&mut self, var: Var, act: &Vec<u64>)
        requires
            old(self).wf(),
            old(self).covers(var.0 as nat + 1),
            act.len() >= old(self).heap.capacity(),
            act.len() >= old(self).order.heap.capacity(),
            old(self).order.heap.heap.len() + 2 < u32::MAX,
        ensures
            final(self).wf(),
            final(self).members() == old(self).members(),
            final(self).enable_bucket == old(self).enable_bucket,
            final(self).order.heap.members() == old(self).order.heap.members().insert(var.0),
            forall|n: nat| old(self).covers(n) ==> final(self).covers(n),
    {
        self.order.check(var, act);
        self.order.heap.up(var, act);
        if !self.enable_bucket {
            self.heap.up(var, act);
        }
    }
}

} // verus!
