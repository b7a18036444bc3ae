//! How often each variable took part in a blocked cube; cubes are sorted by
//! it before generalization, so that the least active literals are tried
//! first.
use crate::lit::Lit;
use vstd::prelude::*;

verus! {

/// A counter for each variable, by index.
pub struct Activity {
    pub activity: Vec<u32>,
}

/// The counter of the variable of `l`.
pub open spec fn key_of(act: Seq<u32>, l: Lit) -> u32 {
    act[l.var().0 as int]
}

/// Each literal of `s` has a counter in `act`.
pub open spec fn in_range(act: Seq<u32>, s: Seq<Lit>) -> bool {
    forall|i: int| 0 <= i < s.len() ==> (#[trigger] s[i]).var().0 < act.len()
}

/// `s` is sorted by the counters of its variables, least first.
pub open spec fn sorted_by_key(act: Seq<u32>, s: Seq<Lit>) -> bool {
    forall|i: int, j: int| 0 <= i <= j < s.len() ==> key_of(act, #[trigger] s[i]) <= key_of(act, #[trigger] s[j])
}

/// The literals of `s` whose counter is `k`, in the order of `s`.
pub open spec fn with_key(act: Seq<u32>, s: Seq<Lit>, k: u32) -> Seq<Lit> {
    s.filter(|l: Lit| key_of(act, l) == k)
}

/// Swapping two neighbours with different counters keeps, for every
/// counter value, the order of the literals that have it.
proof fn lemma_swap_keeps_with_key(act: Seq<u32>, s: Seq<Lit>, i: int, k: u32)
    requires
        0 <= i,
        i + 1 < s.len(),
        key_of(act, s[i]) != key_of(act, s[i + 1]),
    ensures
        with_key(act, s.update(i, s[i + 1]).update(i + 1, s[i]), k) == with_key(act, s, k),
{
    let t = s.update(i, s[i + 1]).update(i + 1, s[i]);
    let pred = |l: Lit| key_of(act, l) == k;
    let a = s.subrange(0, i);
    let b = s.subrange(i + 2, s.len() as int);
    let m1 = seq![s[i], s[i + 1]];
    let m2 = seq![s[i + 1], s[i]];
    assert(s =~= a + m1 + b);
    assert(t =~= a + m2 + b);
    Seq::filter_distributes_over_add(a + m1, b, pred);
    Seq::filter_distributes_over_add(a, m1, pred);
    Seq::filter_distributes_over_add(a + m2, b, pred);
    Seq::filter_distributes_over_add(a, m2, pred);
    reveal_with_fuel(Seq::filter, 3);
    assert(m1.drop_last() =~= seq![s[i]]);
    assert(m2.drop_last() =~= seq![s[i + 1]]);
    assert(seq![s[i]].drop_last() =~= Seq::<Lit>::empty());
    assert(seq![s[i + 1]].drop_last() =~= Seq::<Lit>::empty());
    assert(m1.filter(pred) =~= m2.filter(pred));
}

impl Activity {
    /// Every counter zero, for `num_nodes` variables.
    pub fn new(num_nodes: usize) -> (a: Activity)
        ensures
            a.activity@.len() == num_nodes,
            forall|i: int| 0 <= i < num_nodes ==> a.activity@[i] == 0,
    {
        let mut activity: Vec<u32> = Vec::new();
        let mut i: usize = 0;
        while i < num_nodes
            invariant
                0 <= i <= num_nodes,
                activity@.len() == i,
                forall|j: int| 0 <= j < i ==> activity@[j] == 0,
            decreases num_nodes - i,
        {
            activity.push(0);
            i = i + 1;
        }
        Activity { activity }
    }

    /// Counts one more use of the variable of `lit`.
    pub fn pump_activity(&mut self, lit: &Lit)
        requires
            lit.var().0 < old(self).activity@.len(),
            old(self).activity@[lit.var().0 as int] < u32::MAX,
        ensures
            final(self).activity@ == old(self).activity@.update(
                lit.var().0 as int,
                (old(self).activity@[lit.var().0 as int] + 1) as u32,
            ),
    {
        let v = lit.var_of().0 as usize;
        let a = self.activity[v] + 1;
        self.activity.set(v, a);
    }

    /// The counter of the variable of `var`.
    pub fn var_activity(&self, var: &Lit) -> (r: u32)
        requires
            var.var().0 < self.activity@.len(),
        ensures
            r == key_of(self.activity@, *var),
    {
        self.activity[var.var_of().0 as usize]
    }

    /// `cube` sorted by the counters of its variables, least first; literals
    /// with the same counter keep their order.
    pub fn sort_by_activity_ascending(&self, cube: Vec<Lit>) -> (r: Vec<Lit>)
        requires
            in_range(self.activity@, cube@),
        ensures
            sorted_by_key(self.activity@, r@),
            r@.to_multiset() == cube@.to_multiset(),
            r@.len() == cube@.len(),
            forall|k: u32| #[trigger] with_key(self.activity@, r@, k) == with_key(self.activity@, cube@, k),
    {
        let act = &self.activity;
        let mut v = cube;
        let ghost c0 = v@;
        let n = v.len();
        if n == 0 {
            return v;
        }
        let mut i: usize = 1;
        while i < n
            invariant
                n == v@.len(),
                n == c0.len(),
                1 <= i <= n,
                *act == self.activity,
                in_range(act@, v@),
                sorted_by_key(act@, v@.subrange(0, i as int)),
                v@.to_multiset() == c0.to_multiset(),
                forall|k: u32| #[trigger] with_key(act@, v@, k) == with_key(act@, c0, k),
            decreases n - i,
        {
            let mut j = i;
            proof {
                let sub = v@.subrange(0, i as int);
                assert forall|a: int, b: int| 0 <= a <= b <= i && a != j && b != j implies key_of(act@, v@[a])
                    <= key_of(act@, v@[b]) by {
                    assert(sub[a] == v@[a]);
                    assert(sub[b] == v@[b]);
                }
            }
            while j > 0 && act[v[j - 1].var_of().0 as usize] > act[v[j].var_of().0 as usize]
                invariant
                    n == v@.len(),
                    0 <= j <= i < n,
                    *act == self.activity,
                    in_range(act@, v@),
                    v@.to_multiset() == c0.to_multiset(),
                    forall|k: u32| #[trigger] with_key(act@, v@, k) == with_key(act@, c0, k),
                    forall|a: int, b: int|
                        0 <= a <= b <= i && a != j && b != j ==> key_of(act@, v@[a]) <= key_of(act@, v@[b]),
                    forall|b: int| j < b <= i ==> key_of(act@, v@[j as int]) <= key_of(act@, v@[b]),
                decreases j,
            {
                let x = v[j - 1];
                let y = v[j];
                let ghost before = v@;
                proof {
                    assert(before[j as int].var().0 < act@.len());
                    assert(before[j - 1].var().0 < act@.len());
                }
                v.set(j - 1, y);
                v.set(j, x);
                proof {
                    assert(v@ =~= before.update(j - 1, before[j as int]).update(j as int, before[j - 1]));
                    assert(v@.to_multiset() =~= before.to_multiset()) by {
                        crate::cube::lemma_swap_multiset(before, j - 1, j as int);
                    }
                    assert forall|k: u32| #[trigger] with_key(act@, v@, k) == with_key(act@, c0, k) by {
                        lemma_swap_keeps_with_key(act@, before, j - 1, k);
                    }
                    assert forall|t: int| 0 <= t < v@.len() implies (#[trigger] v@[t]).var().0 < act@.len() by {
                        assert(v@[t] == before[t] || v@[t] == before[j as int] || v@[t] == before[j - 1]);
                    }
                }
                j = j - 1;
            }
            proof {
                let sub = v@.subrange(0, i + 1);
                assert forall|a: int, b: int| 0 <= a <= b < sub.len() implies key_of(act@, #[trigger] sub[a]) <= key_of(
                    act@,
                    #[trigger] sub[b],
                ) by {
                    assert(sub[a] == v@[a] && sub[b] == v@[b]);
                    if a == j && b != j {
                    } else if b == j && a != j {
                        if j > 0 {
                            assert(key_of(act@, v@[a]) <= key_of(act@, v@[j as int - 1]));
                        }
                    }
                }
            }
            i = i + 1;
        }
        proof {
            assert(v@.subrange(0, n as int) =~= v@);
        }
        v
    }
}

} // verus!
