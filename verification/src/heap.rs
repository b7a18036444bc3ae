//! The decision heap: a binary max-heap of variables ordered by activity.
//!
//! Activities are given as a table of `u64` keys indexed by variable. The
//! solver keeps its activities as non-negative floating-point numbers, whose
//! bit patterns order exactly as the numbers do, so the keys are those bit
//! patterns.
use crate::lit::Var;
use vstd::prelude::*;

verus! {

pub open spec fn parent(i: int) -> int {
    (i - 1) / 2
}

pub open spec fn key(act: Seq<u64>, v: Var) -> int {
    if (v.0 as int) < act.len() {
        act[v.0 as int] as int
    } else {
        0
    }
}

/// Slots and positions agree: each slot's variable points back to the slot,
/// and each position entry points to a slot that holds its variable.
pub open spec fn wf_seq(h: Seq<Var>, p: Seq<Option<u32>>) -> bool {
    &&& h.len() < u32::MAX
    &&& p.len() <= u32::MAX
    &&& forall|i: int|
        0 <= i < h.len() ==> {
            &&& (#[trigger] h[i]).0 < p.len()
            &&& p[h[i].0 as int] == Some(i as u32)
        }
    &&& forall|v: int|
        0 <= v < p.len() && (#[trigger] p[v]) is Some ==> {
            &&& (p[v]->0 as int) < h.len()
            &&& h[p[v]->0 as int] == Var(v as u32)
        }
}

/// Every element is at least as active as each of its children.
pub open spec fn ordered_seq(h: Seq<Var>, act: Seq<u64>) -> bool {
    forall|i: int| 0 < i < h.len() ==> key(act, #[trigger] h[i]) <= key(act, h[parent(i)])
}

/// The heap is ordered except that the element at `idx` may be more active
/// than its parent; its children are no more active than it or its parent.
pub open spec fn up_ready(h: Seq<Var>, act: Seq<u64>, idx: int) -> bool {
    &&& forall|i: int|
        0 < i < h.len() && i != idx ==> key(act, #[trigger] h[i]) <= key(act, h[parent(i)])
    &&& idx > 0 ==> forall|c: int|
        0 < c < h.len() && parent(c) == idx ==> key(act, #[trigger] h[c]) <= key(
            act,
            h[parent(idx)],
        )
    &&& forall|c: int|
        0 < c < h.len() && parent(c) == idx ==> key(act, #[trigger] h[c]) <= key(act, h[idx])
}

/// The heap is ordered except that the element at `idx` may be less active
/// than its children; the children are no more active than its parent.
pub open spec fn down_ready(h: Seq<Var>, act: Seq<u64>, idx: int) -> bool {
    &&& forall|i: int|
        0 < i < h.len() && parent(i) != idx ==> key(act, #[trigger] h[i]) <= key(
            act,
            h[parent(i)],
        )
    &&& idx > 0 ==> forall|c: int|
        0 < c < h.len() && parent(c) == idx ==> key(act, #[trigger] h[c]) <= key(
            act,
            h[parent(idx)],
        )
    &&& idx > 0 ==> key(act, h[idx]) <= key(act, h[parent(idx)])
}

pub open spec fn swap_seq<A>(s: Seq<A>, i: int, j: int) -> Seq<A> {
    s.update(i, s[j]).update(j, s[i])
}

proof fn lemma_up_step(h: Seq<Var>, act: Seq<u64>, idx: int)
    requires
        0 < idx < h.len(),
        up_ready(h, act, idx),
        key(act, h[parent(idx)]) < key(act, h[idx]),
    ensures
        up_ready(swap_seq(h, idx, parent(idx)), act, parent(idx)),
{
    let p = parent(idx);
    let g = swap_seq(h, idx, p);
    assert(g[idx] == h[p] && g[p] == h[idx]);
    assert forall|i: int| 0 < i < g.len() && i != p implies key(act, #[trigger] g[i]) <= key(
        act,
        g[parent(i)],
    ) by {
        if i == idx {
        } else if parent(i) == idx {
            assert(g[i] == h[i]);
        } else if parent(i) == p {
            assert(g[i] == h[i]);
            assert(key(act, h[i]) <= key(act, h[p]));
        } else {
            assert(g[i] == h[i]);
            assert(g[parent(i)] == h[parent(i)]);
        }
    }
    if p > 0 {
        assert forall|c: int| 0 < c < g.len() && parent(c) == p implies key(
            act,
            #[trigger] g[c],
        ) <= key(act, g[parent(p)]) by {
            assert(g[parent(p)] == h[parent(p)]);
            assert(key(act, h[p]) <= key(act, h[parent(p)]));
            if c != idx {
                assert(g[c] == h[c]);
                assert(key(act, h[c]) <= key(act, h[p]));
            }
        }
    }
    assert forall|c: int| 0 < c < g.len() && parent(c) == p implies key(act, #[trigger] g[c])
        <= key(act, g[p]) by {
        if c != idx {
            assert(g[c] == h[c]);
            assert(key(act, h[c]) <= key(act, h[p]));
        }
    }
}

proof fn lemma_up_done(h: Seq<Var>, act: Seq<u64>, idx: int)
    requires
        0 <= idx < h.len(),
        up_ready(h, act, idx),
        idx > 0 ==> key(act, h[idx]) <= key(act, h[parent(idx)]),
    ensures
        ordered_seq(h, act),
{
}

proof fn lemma_down_step(h: Seq<Var>, act: Seq<u64>, idx: int, ch: int)
    requires
        0 <= idx < ch < h.len(),
        parent(ch) == idx,
        down_ready(h, act, idx),
        key(act, h[idx]) < key(act, h[ch]),
        forall|c: int| 0 < c < h.len() && parent(c) == idx ==> key(act, #[trigger] h[c]) <= key(act, h[ch]),
    ensures
        down_ready(swap_seq(h, idx, ch), act, ch),
{
    let g = swap_seq(h, idx, ch);
    assert(g[idx] == h[ch] && g[ch] == h[idx]);
    assert forall|i: int| 0 < i < g.len() && parent(i) != ch implies key(act, #[trigger] g[i])
        <= key(act, g[parent(i)]) by {
        if i == ch {
        } else if parent(i) == idx {
            assert(g[i] == h[i]);
        } else if i == idx {
            assert(g[parent(i)] == h[parent(i)]);
        } else {
            assert(g[i] == h[i]);
            assert(g[parent(i)] == h[parent(i)]);
        }
    }
    assert forall|c: int| 0 < c < g.len() && parent(c) == ch implies key(act, #[trigger] g[c])
        <= key(act, g[parent(ch)]) by {
        assert(g[c] == h[c]);
        assert(key(act, h[c]) <= key(act, h[ch]));
    }
}

proof fn lemma_down_done(h: Seq<Var>, act: Seq<u64>, idx: int)
    requires
        0 <= idx < h.len(),
        down_ready(h, act, idx),
        forall|c: int| 0 < c < h.len() && parent(c) == idx ==> key(act, #[trigger] h[c]) <= key(act, h[idx]),
    ensures
        ordered_seq(h, act),
{
}

/// The root of an ordered heap is at least as active as every element.
proof fn lemma_root_max(h: Seq<Var>, act: Seq<u64>, i: int)
    requires
        ordered_seq(h, act),
        0 <= i < h.len(),
    ensures
        key(act, h[i]) <= key(act, h[0]),
    decreases i,
{
    if i > 0 {
        assert(key(act, h[i]) <= key(act, h[parent(i)]));
        lemma_root_max(h, act, parent(i));
    }
}

/// Swapping two slots, and pointing their variables at their new slots,
/// keeps slots and positions in agreement.
proof fn lemma_swap_wf(h: Seq<Var>, p: Seq<Option<u32>>, i: int, j: int)
    requires
        wf_seq(h, p),
        0 <= i < h.len(),
        0 <= j < h.len(),
    ensures
        wf_seq(
            swap_seq(h, i, j),
            p.update(h[j].0 as int, Some(i as u32)).update(h[i].0 as int, Some(j as u32)),
        ),
{
    let g = swap_seq(h, i, j);
    let q = p.update(h[j].0 as int, Some(i as u32)).update(h[i].0 as int, Some(j as u32));
    assert forall|k: int| 0 <= k < g.len() implies {
        &&& (#[trigger] g[k]).0 < q.len()
        &&& q[g[k].0 as int] == Some(k as u32)
    } by {
        if k != i && k != j {
            assert(g[k] == h[k]);
            assert(h[k] != h[i] && h[k] != h[j]);
        }
    }
    assert forall|v: int| 0 <= v < q.len() && (#[trigger] q[v]) is Some implies {
        &&& (q[v]->0 as int) < g.len()
        &&& g[q[v]->0 as int] == Var(v as u32)
    } by {
        if v != h[i].0 as int && v != h[j].0 as int {
            assert(q[v] == p[v]);
            let k = p[v]->0 as int;
            assert(k != i && k != j);
        }
    }
}

/// Appending a variable that is not in the heap, with its position, keeps
/// slots and positions in agreement and leaves it ready to move up.
proof fn lemma_push_slot(h: Seq<Var>, p: Seq<Option<u32>>, var: Var, act: Seq<u64>)
    requires
        wf_seq(h, p),
        (var.0 as int) < p.len(),
        p[var.0 as int] is None,
        h.len() + 1 < u32::MAX,
    ensures
        wf_seq(h.push(var), p.update(var.0 as int, Some(h.len() as u32))),
        ordered_seq(h, act) ==> up_ready(h.push(var), act, h.len() as int),
{
    let g = h.push(var);
    let q = p.update(var.0 as int, Some(h.len() as u32));
    assert forall|i: int| 0 <= i < g.len() implies {
        &&& (#[trigger] g[i]).0 < q.len()
        &&& q[g[i].0 as int] == Some(i as u32)
    } by {
        if i < h.len() {
            assert(g[i] == h[i]);
            assert(p[h[i].0 as int] == Some(i as u32));
        }
    }
    assert forall|v: int| 0 <= v < q.len() && (#[trigger] q[v]) is Some implies {
        &&& (q[v]->0 as int) < g.len()
        &&& g[q[v]->0 as int] == Var(v as u32)
    } by {
        if v != var.0 as int {
            assert(q[v] == p[v]);
        }
    }
    if ordered_seq(h, act) {
        assert forall|i: int|
            0 < i < g.len() && i != h.len() implies key(act, #[trigger] g[i]) <= key(
            act,
            g[parent(i)],
        ) by {
            assert(g[i] == h[i]);
            assert(g[parent(i)] == h[parent(i)]);
        }
    }
}

/// Moving the last slot to the root and dropping the root's variable keeps
/// slots and positions in agreement, and leaves the new root ready to move
/// down.
proof fn lemma_pop_slot(h: Seq<Var>, p: Seq<Option<u32>>, act: Seq<u64>)
    requires
        wf_seq(h, p),
        h.len() > 0,
    ensures
        ({
            let last = h.len() - 1;
            let g = h.update(0, h[last]).drop_last();
            let q = p.update(h[last].0 as int, Some(0u32)).update(h[0].0 as int, None);
            &&& wf_seq(g, q)
            &&& ordered_seq(h, act) && g.len() > 0 ==> down_ready(g, act, 0)
        }),
{
    let last = h.len() - 1;
    let value = h[0];
    let lv = h[last];
    let g = h.update(0, lv).drop_last();
    let q = p.update(lv.0 as int, Some(0u32)).update(value.0 as int, None);
    assert(p[value.0 as int] == Some(0u32));
    assert(p[lv.0 as int] == Some(last as u32));
    assert forall|i: int| 0 <= i < g.len() implies {
        &&& (#[trigger] g[i]).0 < q.len()
        &&& q[g[i].0 as int] == Some(i as u32)
    } by {
        if i > 0 {
            assert(g[i] == h[i]);
            assert(p[h[i].0 as int] == Some(i as u32));
        } else {
            assert(g[0] == lv);
        }
    }
    assert forall|v: int| 0 <= v < q.len() && (#[trigger] q[v]) is Some implies {
        &&& (q[v]->0 as int) < g.len()
        &&& g[q[v]->0 as int] == Var(v as u32)
    } by {
        if v != value.0 as int && v != lv.0 as int {
            assert(q[v] == p[v]);
            let k = p[v]->0 as int;
            assert(h[k] == Var(v as u32));
            assert(k != 0 && k != last);
        }
    }
    if ordered_seq(h, act) && g.len() > 0 {
        assert forall|i: int|
            0 < i < g.len() && parent(i) != 0 implies key(act, #[trigger] g[i]) <= key(
            act,
            g[parent(i)],
        ) by {
            assert(g[i] == h[i]);
            assert(g[parent(i)] == h[parent(i)]);
        }
    }
}

/// A max-heap of variables with a position table.
pub struct BinaryHeap {
    pub heap: Vec<Var>,
    pub pos: Vec<Option<u32>>,
}

impl BinaryHeap {
    /// Every heap slot names a variable whose position entry points back to
    /// it, and every position entry points to a slot holding its variable.
    pub open spec fn wf(&self) -> bool {
        wf_seq(self.heap@, self.pos@)
    }

    /// The variables held by the heap.
    pub open spec fn members(&self) -> Set<u32> {
        Set::new(|v: u32| (v as int) < self.pos.len() && self.pos@[v as int] is Some)
    }

    /// Every element is at least as active as each of its children.
    pub open spec fn ordered(&self, act: Seq<u64>) -> bool {
        ordered_seq(self.heap@, act)
    }

    /// The number of variables the position table covers.
    pub open spec fn capacity(&self) -> nat {
        self.pos@.len()
    }

    /// An empty heap.
    pub fn new() -> (h: BinaryHeap)
        ensures
            h.wf(),
            h.members() == Set::<u32>::empty(),
            h.heap.len() == 0,
            h.capacity() == 0,
    {
        let h = BinaryHeap { heap: Vec::new(), pos: Vec::new() };
        assert(h.members() =~= Set::<u32>::empty());
        h
    }

    /// Makes room in the position table for `var`.
    pub fn reserve(&mut self, var: Var)
        requires
            old(self).wf(),
            var.0 < u32::MAX,
        ensures
            final(self).wf(),
            final(self).members() == old(self).members(),
            final(self).heap@ == old(self).heap@,
            final(self).capacity() == if old(self).capacity() > var.0 as nat + 1 {
                old(self).capacity()
            } else {
                var.0 as nat + 1
            },
    {
        let len = var.0 as usize + 1;
        if self.pos.len() < len {
            let ghost old_pos = self.pos@;
            while self.pos.len() < len
                invariant
                    old_pos == old(self).pos@,
                    old(self).wf(),
                    self.heap@ == old(self).heap@,
                    len <= u32::MAX,
                    old_pos.len() <= self.pos.len() <= len,
                    forall|v: int| 0 <= v < old_pos.len() ==> self.pos@[v] == old_pos[v],
                    forall|v: int| old_pos.len() <= v < self.pos.len() ==> self.pos@[v] is None,
                decreases len - self.pos.len(),
            {
                self.pos.push(None);
            }
            assert forall|v: int|
                0 <= v < self.pos.len() && (#[trigger] self.pos@[v]) is Some implies {
                &&& (self.pos@[v]->0 as int) < self.heap.len()
                &&& self.heap@[self.pos@[v]->0 as int] == Var(v as u32)
            } by {
                assert(v < old_pos.len());
                assert(self.pos@[v] == old_pos[v]);
            }
            assert(self.members() =~= old(self).members());
        }
    }

    /// Whether `var` is in the heap.
    pub fn contains(&self, var: Var) -> (b: bool)
        requires
            self.wf(),
            (var.0 as int) < self.capacity(),
        ensures
            b == self.members().contains(var.0),
    {
        self.pos[var.0 as usize].is_some()
    }

    /// Whether the heap is empty.
    pub fn is_empty(&self) -> (b: bool)
        requires
            self.wf(),
        ensures
            b == (self.members() == Set::<u32>::empty()),
            b == (self.heap.len() == 0),
    {
        proof {
            if self.heap.len() > 0 {
                assert(self.members().contains(self.heap@[0].0));
            } else {
                assert(self.members() =~= Set::<u32>::empty()) by {
                    assert forall|v: u32| !self.members().contains(v) by {
                        if self.members().contains(v) {
                            assert(self.pos@[v as int] is Some);
                        }
                    }
                }
            }
        }
        self.heap.len() == 0
    }

    /// Removes every variable from the heap.
    pub fn clear(&mut self)
        requires
            old(self).wf(),
        ensures
            final(self).wf(),
            final(self).members() == Set::<u32>::empty(),
            final(self).heap.len() == 0,
            final(self).capacity() == old(self).capacity(),
    {
        let n = self.heap.len();
        let mut i: usize = 0;
        while i < n
            invariant
                0 <= i <= n,
                n == self.heap.len(),
                self.heap@ == old(self).heap@,
                self.pos.len() <= u32::MAX,
                self.pos.len() == old(self).pos.len(),
                old(self).wf(),
                forall|k: int| 0 <= k < n ==> (#[trigger] self.heap@[k]).0 < self.pos.len(),
                forall|k: int| 0 <= k < i ==> self.pos@[(#[trigger] self.heap@[k]).0 as int] is None,
                forall|v: int|
                    0 <= v < self.pos.len() && (#[trigger] self.pos@[v]) is Some ==> {
                        &&& self.pos@[v] == old(self).pos@[v]
                        &&& (self.pos@[v]->0 as int) >= i
                    },
            decreases n - i,
        {
            let v = self.heap[i];
            self.pos.set(v.0 as usize, None);
            proof {
                assert forall|v2: int|
                    0 <= v2 < self.pos.len() && (#[trigger] self.pos@[v2]) is Some implies {
                    &&& self.pos@[v2] == old(self).pos@[v2]
                    &&& (self.pos@[v2]->0 as int) >= i + 1
                } by {
                    if (self.pos@[v2]->0 as int) == i {
                        assert(old(self).heap@[i as int] == Var(v2 as u32));
                    }
                }
            }
            i = i + 1;
        }
        self.heap.clear();
        proof {
            assert forall|v: int|
                0 <= v < self.pos.len() implies (#[trigger] self.pos@[v]) is None by {
                if self.pos@[v] is Some {
                    let k = self.pos@[v]->0 as int;
                    assert(old(self).heap@[k] == Var(v as u32));
                    assert(self.pos@[old(self).heap@[k].0 as int] is None);
                }
            }
            assert(self.members() =~= Set::<u32>::empty());
        }
    }
}


impl BinaryHeap {
    /// Moves `v` towards the root while it is more active than its parent.
    pub fn up(&mut self, v: Var, act: &Vec<u64>)
        requires
            old(self).wf(),
            act.len() >= old(self).capacity(),
            (v.0 as int) < old(self).capacity(),
        ensures
            final(self).wf(),
            final(self).members() == old(self).members(),
            final(self).capacity() == old(self).capacity(),
            final(self).heap.len() == old(self).heap.len(),
            old(self).pos@[v.0 as int] is Some && up_ready(
                old(self).heap@,
                act@,
                old(self).pos@[v.0 as int]->0 as int,
            ) ==> final(self).ordered(act@),
            old(self).pos@[v.0 as int] is None ==> *final(self) == *old(self),
    {
        let mut idx: usize = match self.pos[v.0 as usize] {
            None => return ,
            Some(i) => i as usize,
        };
        let ghost ready = up_ready(self.heap@, act@, idx as int);
        proof {
            assert(self.heap@.update(idx as int, v) =~= self.heap@);
            assert(self.pos@.update(v.0 as int, Some(idx as u32)) =~= self.pos@);
        }
        while idx != 0
            invariant
                0 <= idx < self.heap.len(),
                self.heap.len() == old(self).heap.len(),
                self.pos.len() == old(self).pos.len(),
                act.len() >= self.pos.len(),
                (v.0 as int) < self.pos.len(),
                old(self).pos@[v.0 as int] is Some,
                wf_seq(
                    self.heap@.update(idx as int, v),
                    self.pos@.update(v.0 as int, Some(idx as u32)),
                ),
                forall|u: int|
                    0 <= u < self.pos.len() ==> ((#[trigger] self.pos@[u]) is Some
                        <==> old(self).pos@[u] is Some),
                ready ==> up_ready(self.heap@.update(idx as int, v), act@, idx as int),
            ensures
                0 <= idx < self.heap.len(),
                idx > 0 ==> key(act@, self.heap@[parent(idx as int)]) >= key(act@, v),
            decreases idx,
        {
            let pidx = (idx - 1) / 2;
            let ghost vh = self.heap@.update(idx as int, v);
            let ghost vp = self.pos@.update(v.0 as int, Some(idx as u32));
            assert(vh[pidx as int] == self.heap@[pidx as int]);
            let pv = self.heap[pidx];
            if act[pv.0 as usize] >= act[v.0 as usize] {
                break ;
            }
            self.heap.set(idx, pv);
            self.pos.set(pv.0 as usize, Some(idx as u32));
            proof {
                assert(vh[idx as int] == v);
                lemma_swap_wf(vh, vp, idx as int, pidx as int);
                assert(self.heap@.update(pidx as int, v) =~= swap_seq(vh, idx as int, pidx as int));
                assert(self.pos@.update(v.0 as int, Some(pidx as u32)) =~= vp.update(
                    vh[pidx as int].0 as int,
                    Some(idx as u32),
                ).update(vh[idx as int].0 as int, Some(pidx as u32)));
                if ready {
                    lemma_up_step(vh, act@, idx as int);
                }
            }
            idx = pidx;
        }
        self.heap.set(idx, v);
        self.pos.set(v.0 as usize, Some(idx as u32));
        proof {
            if ready {
                lemma_up_done(self.heap@, act@, idx as int);
            }
            assert(self.members() =~= old(self).members());
        }
    }

    /// Moves the element at `idx` towards the leaves while a child is more
    /// active than it.
    fn down(&mut self, idx: usize, act: &Vec<u64>)
        requires
            old(self).wf(),
            act.len() >= old(self).capacity(),
            idx < old(self).heap.len(),
        ensures
            final(self).wf(),
            final(self).members() == old(self).members(),
            final(self).capacity() == old(self).capacity(),
            final(self).heap.len() == old(self).heap.len(),
            down_ready(old(self).heap@, act@, idx as int) ==> final(self).ordered(act@),
    {
        let mut idx = idx;
        let v = self.heap[idx];
        let ghost ready = down_ready(self.heap@, act@, idx as int);
        proof {
            assert(self.heap@.update(idx as int, v) =~= self.heap@);
            assert(self.pos@.update(v.0 as int, Some(idx as u32)) =~= self.pos@);
        }
        let len = self.heap.len();
        loop
            invariant
                0 <= idx < self.heap.len(),
                len == self.heap.len(),
                self.heap.len() == old(self).heap.len(),
                self.pos.len() == old(self).pos.len(),
                act.len() >= self.pos.len(),
                (v.0 as int) < self.pos.len(),
                old(self).pos@[v.0 as int] is Some,
                wf_seq(
                    self.heap@.update(idx as int, v),
                    self.pos@.update(v.0 as int, Some(idx as u32)),
                ),
                forall|u: int|
                    0 <= u < self.pos.len() ==> ((#[trigger] self.pos@[u]) is Some
                        <==> old(self).pos@[u] is Some),
                ready ==> down_ready(self.heap@.update(idx as int, v), act@, idx as int),
            ensures
                0 <= idx < self.heap.len(),
                forall|c: int|
                    0 < c < len && parent(c) == idx ==> key(act@, #[trigger] self.heap@[c])
                        <= key(act@, v),
            decreases len - idx,
        {
            let ghost vh = self.heap@.update(idx as int, v);
            let ghost vp = self.pos@.update(v.0 as int, Some(idx as u32));
            let left64 = idx as u64 * 2 + 1;
            if left64 >= len as u64 {
                assert forall|c: int|
                    0 < c < len && parent(c) == idx implies key(act@, #[trigger] self.heap@[c])
                    <= key(act@, v) by {
                    assert(c >= 2 * idx + 1);
                }
                break ;
            }
            let left = left64 as usize;
            let right = left + 1;
            assert(vh[left as int] == self.heap@[left as int]);
            assert(right < len ==> vh[right as int] == self.heap@[right as int]);
            let child = if right < len && act[self.heap[right].0 as usize]
                > act[self.heap[left].0 as usize] {
                right
            } else {
                left
            };
            assert(vh[child as int] == self.heap@[child as int]);
            assert(forall|c: int|
                0 < c < len && parent(c) == idx ==> c == left || c == right);
            if act[v.0 as usize] >= act[self.heap[child].0 as usize] {
                break ;
            }
            let cv = self.heap[child];
            self.heap.set(idx, cv);
            self.pos.set(cv.0 as usize, Some(idx as u32));
            proof {
                assert(vh[idx as int] == v);
                lemma_swap_wf(vh, vp, idx as int, child as int);
                assert(self.heap@.update(child as int, v) =~= swap_seq(
                    vh,
                    idx as int,
                    child as int,
                ));
                assert(self.pos@.update(v.0 as int, Some(child as u32)) =~= vp.update(
                    vh[child as int].0 as int,
                    Some(idx as u32),
                ).update(vh[idx as int].0 as int, Some(child as u32)));
                if ready {
                    assert forall|c: int|
                        0 < c < vh.len() && parent(c) == idx implies key(act@, #[trigger] vh[c])
                        <= key(act@, vh[child as int]) by {
                        assert(c == left || c == right);
                    }
                    lemma_down_step(vh, act@, idx as int, child as int);
                }
            }
            idx = child;
        }
        self.heap.set(idx, v);
        self.pos.set(v.0 as usize, Some(idx as u32));
        proof {
            if ready {
                assert forall|c: int|
                    0 < c < self.heap.len() && parent(c) == idx implies key(
                    act@,
                    #[trigger] self.heap@[c],
                ) <= key(act@, self.heap@[idx as int]) by {
                    assert(self.heap@[c] == self.heap@.update(idx as int, v)[c]);
                }
                lemma_down_done(self.heap@, act@, idx as int);
            }
            assert(self.members() =~= old(self).members());
        }
    }

    /// Adds `var` to the heap unless it is already there.
    pub fn push(&mut self, var: Var, act: &Vec<u64>)
        requires
            old(self).wf(),
            act.len() >= old(self).capacity(),
            (var.0 as int) < old(self).capacity(),
            old(self).heap.len() + 1 < u32::MAX,
        ensures
            final(self).wf(),
            final(self).members() == old(self).members().insert(var.0),
            final(self).capacity() == old(self).capacity(),
            final(self).heap@.len() <= old(self).heap@.len() + 1,
            old(self).ordered(act@) ==> final(self).ordered(act@),
    {
        if self.pos[var.0 as usize].is_some() {
            proof {
                assert(old(self).members().insert(var.0) =~= old(self).members());
            }
            return ;
        }
        let idx = self.heap.len();
        proof {
            lemma_push_slot(self.heap@, self.pos@, var, act@);
        }
        self.heap.push(var);
        self.pos.set(var.0 as usize, Some(idx as u32));
        proof {
            assert(self.heap@ =~= old(self).heap@.push(var));
            assert(self.members() =~= old(self).members().insert(var.0));
        }
        self.up(var, act);
    }

    /// Removes and returns a most active variable, if the heap is not empty.
    pub fn pop(&mut self, act: &Vec<u64>) -> (r: Option<Var>)
        requires
            old(self).wf(),
            act.len() >= old(self).capacity(),
        ensures
            final(self).wf(),
            final(self).capacity() == old(self).capacity(),
            r is None <==> old(self).heap.len() == 0,
            r is None ==> final(self).members() == old(self).members(),
            r matches Some(v) ==> {
                &&& old(self).members().contains(v.0)
                &&& final(self).members() == old(self).members().remove(v.0)
                &&& old(self).ordered(act@) ==> forall|u: u32|
                    #[trigger] old(self).members().contains(u) ==> key(act@, Var(u)) <= key(
                        act@,
                        v,
                    )
            },
            old(self).ordered(act@) ==> final(self).ordered(act@),
    {
        if self.heap.len() == 0 {
            return None;
        }
        let value = self.heap[0];
        let last = self.heap.len() - 1;
        let lv = self.heap[last];
        proof {
            if old(self).ordered(act@) {
                assert forall|u: u32| #[trigger] old(self).members().contains(u) implies key(
                    act@,
                    Var(u),
                ) <= key(act@, value) by {
                    let k = old(self).pos@[u as int]->0 as int;
                    assert(old(self).heap@[k] == Var(u));
                    lemma_root_max(old(self).heap@, act@, k);
                }
            }
        }
        proof {
            lemma_pop_slot(self.heap@, self.pos@, act@);
        }
        self.heap.set(0, lv);
        self.pos.set(lv.0 as usize, Some(0));
        self.pos.set(value.0 as usize, None);
        self.heap.pop();
        proof {
            assert(self.heap@ =~= old(self).heap@.update(0, lv).drop_last());
            assert(self.members() =~= old(self).members().remove(value.0));
        }
        if self.heap.len() > 1 {
            self.down(0, act);
        }
        Some(value)
    }
}

} // verus!
