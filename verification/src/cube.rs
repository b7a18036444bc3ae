//! Cubes and lemmas.
//!
//! A cube is a conjunction of literals, kept as a vector. A lemma is a cube
//! whose literals are sorted by code; a lemma `a` subsumes a lemma `b` when
//! every literal of `a` is in `b`, so that `b` implies `a`.
use crate::lit::{var_of, Lit};
use vstd::prelude::*;

verus! {

/// No literal of `a` occurs in it negated as well.
pub open spec fn no_taut(a: Seq<Lit>) -> bool {
    forall|i: int, j: int| 0 <= i < a.len() && 0 <= j < a.len() ==> #[trigger] a[i] != (#[trigger] a[j]).negated()
}

/// `a` is sorted by literal code.
pub open spec fn sorted(a: Seq<Lit>) -> bool {
    forall|i: int, j: int| 0 <= i <= j < a.len() ==> a[i].0 <= a[j].0
}

/// Every literal of `a` is a literal of `b`.
pub open spec fn subsumes(a: Seq<Lit>, b: Seq<Lit>) -> bool {
    forall|i: int| 0 <= i < a.len() ==> b.contains(#[trigger] a[i])
}

/// `a` subsumes `b` as a lemma: it is no longer than `b` and each of its
/// literals is in `b`.
pub open spec fn covers(a: Seq<Lit>, b: Seq<Lit>) -> bool {
    a.len() <= b.len() && subsumes(a, b)
}

/// Whether one cube covers another depends only on how many literals
/// each has and which: two cubes with the same multiset of literals are
/// interchangeable on either side.
pub proof fn lemma_covers_same_lits(a: Seq<Lit>, b: Seq<Lit>, c: Seq<Lit>)
    requires
        b.to_multiset() == c.to_multiset(),
    ensures
        covers(a, b) == covers(a, c),
        covers(b, a) == covers(c, a),
        b.len() == c.len(),
        forall|x: Lit| b.contains(x) == c.contains(x),
{
    broadcast use vstd::seq_lib::group_to_multiset_ensures;
    assert(b.len() == b.to_multiset().len());
    assert(c.len() == c.to_multiset().len());
    assert forall|x: Lit| b.contains(x) == c.contains(x) by {
        assert(b.contains(x) == (b.to_multiset().count(x) > 0));
        assert(c.contains(x) == (c.to_multiset().count(x) > 0));
    }
    if covers(a, b) {
        assert forall|i: int| 0 <= i < a.len() implies c.contains(#[trigger] a[i]) by {
            assert(b.contains(a[i]));
        }
    }
    if covers(a, c) {
        assert forall|i: int| 0 <= i < a.len() implies b.contains(#[trigger] a[i]) by {
            assert(c.contains(a[i]));
        }
    }
    if covers(b, a) {
        assert forall|i: int| 0 <= i < c.len() implies a.contains(#[trigger] c[i]) by {
            assert(c.contains(c[i]));
            let k = choose|k: int| 0 <= k < b.len() && b[k] == c[i];
            assert(a.contains(b[k]));
        }
    }
    if covers(c, a) {
        assert forall|i: int| 0 <= i < b.len() implies a.contains(#[trigger] b[i]) by {
            assert(b.contains(b[i]));
            let k = choose|k: int| 0 <= k < c.len() && c[k] == b[i];
            assert(a.contains(c[k]));
        }
    }
}

/// Subsumption of lemmas is a preorder: every lemma subsumes itself, and
/// a lemma that subsumes one that subsumes a third subsumes the third.
pub proof fn lemma_covers_preorder(a: Seq<Lit>, b: Seq<Lit>, c: Seq<Lit>)
    ensures
        covers(a, a),
        covers(a, b) && covers(b, c) ==> covers(a, c),
{
    assert forall|i: int| 0 <= i < a.len() implies a.contains(#[trigger] a[i]) by {}
    if covers(a, b) && covers(b, c) {
        assert forall|i: int| 0 <= i < a.len() implies c.contains(#[trigger] a[i]) by {
            assert(b.contains(a[i]));
            let k = choose|k: int| 0 <= k < b.len() && b[k] == a[i];
            assert(c.contains(b[k]));
        }
    }
}

/// Two sorted cubes with the same literals, counted with repetition, are
/// the same cube.
pub proof fn lemma_sorted_unique(a: Seq<Lit>, b: Seq<Lit>)
    requires
        sorted(a),
        sorted(b),
        a.to_multiset() == b.to_multiset(),
    ensures
        a == b,
    decreases a.len(),
{
    broadcast use vstd::seq_lib::group_to_multiset_ensures;
    assert(a.len() == a.to_multiset().len());
    assert(b.len() == b.to_multiset().len());
    if a.len() == 0 {
        assert(a =~= b);
    } else {
        let n = a.len() - 1;
        let x = a[n];
        let y = b[n];
        assert(a.to_multiset().count(y) > 0) by {
            assert(b.contains(y));
        }
        assert(a.contains(y));
        let i = choose|i: int| 0 <= i < a.len() && a[i] == y;
        assert(y.0 <= x.0);
        assert(b.to_multiset().count(x) > 0) by {
            assert(a.contains(x));
        }
        assert(b.contains(x));
        let j = choose|j: int| 0 <= j < b.len() && b[j] == x;
        assert(x.0 <= y.0);
        assert(x == y);
        assert(a.remove(n) =~= a.drop_last());
        assert(b.remove(n) =~= b.drop_last());
        assert(a.drop_last().to_multiset() =~= a.to_multiset().remove(x));
        assert(b.drop_last().to_multiset() =~= b.to_multiset().remove(y));
        lemma_sorted_unique(a.drop_last(), b.drop_last());
        assert(a =~= a.drop_last().push(x));
        assert(b =~= b.drop_last().push(y));
    }
}

/// Sorts `cube` by literal code.
pub fn sort_cube(cube: &mut Vec<Lit>)
    ensures
        sorted(final(cube)@),
        final(cube)@.to_multiset() == old(cube)@.to_multiset(),
        final(cube)@.len() == old(cube)@.len(),
{
    let n = cube.len();
    let mut i: usize = 1;
    proof {
        assert(cube@.to_multiset() == old(cube)@.to_multiset());
    }
    while i < n
        invariant
            n == cube.len(),
            1 <= i <= n || n == 0,
            sorted(cube@.subrange(0, i as int)) || n == 0,
            cube@.to_multiset() == old(cube)@.to_multiset(),
            cube@.len() == old(cube)@.len(),
        decreases n - i,
    {
        let mut j = i;
        proof {
            if n > 0 {
                let sub = cube@.subrange(0, i as int);
                assert forall|a: int, b: int| 0 <= a <= b <= i && a != j && b != j implies cube@[a].0 <= cube@[b].0 by {
                    assert(sub[a] == cube@[a]);
                    assert(sub[b] == cube@[b]);
                }
            }
        }
        while j > 0 && cube[j - 1].0 > cube[j].0
            invariant
                n == cube.len(),
                0 <= j <= i < n,
                cube@.to_multiset() == old(cube)@.to_multiset(),
                cube@.len() == old(cube)@.len(),
                // the prefix without position j is sorted
                forall|a: int, b: int| 0 <= a <= b <= i && a != j && b != j ==> cube@[a].0 <= cube@[b].0,
                // the element at j is below everything after it up to i
                forall|b: int| j < b <= i ==> cube@[j as int].0 <= cube@[b].0,
            decreases j,
        {
            let x = cube[j - 1];
            let y = cube[j];
            let ghost before = cube@;
            cube.set(j - 1, y);
            cube.set(j, x);
            proof {
                assert(cube@ =~= before.update(j - 1, y).update(j as int, x));
                assert(cube@.to_multiset() =~= before.to_multiset()) by {
                    lemma_swap_multiset(before, j - 1, j as int);
                }
            }
            j = j - 1;
        }
        proof {
            let sub = cube@.subrange(0, i + 1);
            assert(sorted(sub)) by {
                assert forall|a: int, b: int| 0 <= a <= b < i + 1 implies (#[trigger] sub[a]).0 <= (#[trigger] sub[b]).0 by {
                    if a == j && b != j {
                    } else if b == j && a != j {
                        if j > 0 {
                            assert(cube@[a].0 <= cube@[j as int - 1].0);
                        }
                    }
                }
            }
        }
        i = i + 1;
    }
    proof {
        if n > 0 {
            assert(cube@.subrange(0, n as int) =~= cube@);
        }
    }
}

/// Swapping two positions keeps the multiset of a sequence.
pub proof fn lemma_swap_multiset(s: Seq<Lit>, i: int, j: int)
    requires
        0 <= i < s.len(),
        0 <= j < s.len(),
    ensures
        s.update(i, s[j]).update(j, s[i]).to_multiset() == s.to_multiset(),
{
    broadcast use vstd::multiset::group_multiset_axioms;
    let t = s.update(i, s[j]);
    vstd::seq_lib::to_multiset_update(s, i, s[j]);
    vstd::seq_lib::to_multiset_update(t, j, s[i]);
    if i == j {
        assert(t.update(j, s[i]) =~= s);
    } else {
        assert(t[j] == s[j]);
        let m = s.to_multiset();
        assert(m.count(s[i]) > 0) by {
            vstd::seq_lib::to_multiset_contains(s, s[i]);
        }
        let r = m.insert(s[j]).remove(s[i]).insert(s[i]).remove(s[j]);
        assert forall|v: Lit| r.count(v) == m.count(v) by {
        }
        assert(r =~= m);
    }
}

/// Whether every literal of the sorted `a` is in the sorted `b`, and `a` is
/// no longer than `b`.
pub fn ordered_subsume(a: &Vec<Lit>, b: &Vec<Lit>) -> (r: bool)
    requires
        sorted(a@),
        sorted(b@),
    ensures
        r == (a@.len() <= b@.len() && subsumes(a@, b@)),
{
    if a.len() > b.len() {
        return false;
    }
    let mut j: usize = 0;
    let mut i: usize = 0;
    while i < a.len()
        invariant
            0 <= i <= a.len(),
            0 <= j <= b.len(),
            a.len() <= b.len(),
            sorted(a@),
            sorted(b@),
            forall|k: int| 0 <= k < i ==> b@.contains(#[trigger] a@[k]),
            i < a.len() ==> forall|k: int| 0 <= k < j ==> (#[trigger] b@[k]).0 < a@[i as int].0,
        decreases a.len() - i,
    {
        while j < b.len() && a[i].0 > b[j].0
            invariant
                0 <= i < a.len(),
                0 <= j <= b.len(),
                sorted(b@),
                forall|k: int| 0 <= k < j ==> (#[trigger] b@[k]).0 < a@[i as int].0,
            decreases b.len() - j,
        {
            j = j + 1;
        }
        if j == b.len() || a[i] != b[j] {
            proof {
                assert(!b@.contains(a@[i as int])) by {
                    if b@.contains(a@[i as int]) {
                        let k = choose|k: int| 0 <= k < b@.len() && b@[k] == a@[i as int];
                        if k >= j {
                            assert(b@[j as int].0 <= b@[k].0);
                        }
                    }
                }
            }
            return false;
        }
        proof {
            assert(b@[j as int] == a@[i as int]);
            if i + 1 < a.len() {
                assert(a@[i as int].0 <= a@[i + 1].0);
            }
        }
        i = i + 1;
    }
    true
}

/// A lemma: a cube whose literals are sorted by code.
pub struct Lemma {
    pub cube: Vec<Lit>,
}

impl Lemma {
    pub open spec fn wf(&self) -> bool {
        sorted(self.cube@)
    }

    pub open spec fn lits(&self) -> Seq<Lit> {
        self.cube@
    }

    /// The lemma of `cube`: its literals sorted by code.
    pub fn new(cube: Vec<Lit>) -> (l: Lemma)
        ensures
            l.wf(),
            l.lits().to_multiset() == cube@.to_multiset(),
            l.lits().len() == cube@.len(),
    {
        let mut cube = cube;
        sort_cube(&mut cube);
        Lemma { cube }
    }

    /// The literals of the lemma.
    pub fn cube(&self) -> (c: &Vec<Lit>)
        ensures
            c@ == self.lits(),
    {
        &self.cube
    }

    /// The number of literals.
    pub fn len(&self) -> (n: usize)
        ensures
            n == self.lits().len(),
    {
        self.cube.len()
    }

    /// Whether every literal of this lemma is in `other`, which is at least
    /// as long.
    pub fn subsume(&self, other: &Lemma) -> (r: bool)
        requires
            self.wf(),
            other.wf(),
        ensures
            r == (self.lits().len() <= other.lits().len() && subsumes(self.lits(), other.lits())),
    {
        ordered_subsume(&self.cube, &other.cube)
    }

    /// Whether this lemma subsumes `other`, and else, where all of its
    /// literals but one are in `other` and that one is there negated, that
    /// literal.
    pub fn subsume_execpt_one(&self, other: &Lemma) -> (r: (bool, Option<Lit>))
        requires
            self.wf(),
            other.wf(),
        ensures
            r.0 ==> r.1 is None && covers(self.lits(), other.lits()),
            r.1 is Some ==> {
                let d = r.1->0;
                &&& !r.0
                &&& self.lits().len() <= other.lits().len()
                &&& self.lits().contains(d)
                &&& other.lits().contains(d.negated())
                &&& forall|k: int| 0 <= k < self.lits().len() && self.lits()[k] != d ==> other.lits().contains(#[trigger] self.lits()[k])
            },
            no_taut(other.lits()) && covers(self.lits(), other.lits()) ==> r.0,
    {
        let a = &self.cube;
        let b = &other.cube;
        if a.len() > b.len() {
            return (false, None);
        }
        let mut diff: Option<Lit> = None;
        let mut j: usize = 0;
        let mut i: usize = 0;
        while i < a.len()
            invariant
                0 <= i <= a@.len(),
                0 <= j <= b@.len(),
                a@.len() <= b@.len(),
                sorted(a@),
                sorted(b@),
                a@ == self.lits(),
                b@ == other.lits(),
                i < a@.len() ==> forall|k: int| 0 <= k < j ==> var_of((#[trigger] b@[k]).0) < var_of(a@[i as int].0),
                diff is None ==> forall|k: int| 0 <= k < i ==> b@.contains(#[trigger] a@[k]),
                diff is Some ==> {
                    let d = diff->0;
                    &&& a@.subrange(0, i as int).contains(d)
                    &&& b@.contains(d.negated())
                    &&& forall|k: int| 0 <= k < i && a@[k] != d ==> b@.contains(#[trigger] a@[k])
                },
                no_taut(b@) && covers(a@, b@) ==> diff is None,
            decreases a@.len() - i,
        {
            let ai = a[i];
            let vi = ai.var_of();
            while j < b.len() && vi.0 > b[j].var_of().0
                invariant
                    0 <= i < a@.len(),
                    0 <= j <= b@.len(),
                    sorted(b@),
                    ai == a@[i as int],
                    vi == ai.var(),
                    forall|k: int| 0 <= k < j ==> var_of((#[trigger] b@[k]).0) < var_of(a@[i as int].0),
                decreases b@.len() - j,
            {
                j = j + 1;
            }
            if j == b.len() {
                proof {
                    assert(!b@.contains(ai)) by {
                        if b@.contains(ai) {
                            let k = choose|k: int| 0 <= k < b@.len() && b@[k] == ai;
                        }
                    }
                }
                return (false, None);
            }
            let bj = b[j];
            if ai.0 != bj.0 {
                if diff.is_none() && vi.0 == bj.var_of().0 {
                    proof {
                        crate::lit::lemma_same_var(ai, bj);
                        assert(bj == ai.negated());
                        assert(a@.subrange(0, i + 1)[i as int] == ai);
                        if no_taut(b@) && covers(a@, b@) {
                            assert(b@.contains(ai));
                            let k = choose|k: int| 0 <= k < b@.len() && b@[k] == ai;
                            if k < j {
                                assert(var_of(b@[k].0) < var_of(ai.0));
                            } else if k > j {
                                assert(b@[j as int].0 <= b@[k].0);
                            }
                            crate::lit::lemma_negated(ai);
                            assert(b@[k] == b@[j as int].negated());
                        }
                    }
                    diff = Some(ai);
                } else {
                    proof {
                        if diff.is_none() {
                            assert(!b@.contains(ai)) by {
                                if b@.contains(ai) {
                                    let k = choose|k: int| 0 <= k < b@.len() && b@[k] == ai;
                                    if k < j {
                                        assert(var_of(b@[k].0) < var_of(ai.0));
                                    } else {
                                        assert(b@[j as int].0 <= b@[k].0);
                                    }
                                }
                            }
                        }
                    }
                    return (false, None);
                }
            }
            proof {
                if i + 1 < a@.len() {
                    assert(a@[i as int].0 <= a@[i + 1].0);
                    assert forall|k: int| 0 <= k < j implies var_of((#[trigger] b@[k]).0) < var_of(a@[i + 1].0) by {}
                }
                match diff {
                    Some(d) => {
                        assert forall|k: int| 0 <= k < i + 1 && a@[k] != d implies b@.contains(#[trigger] a@[k]) by {
                            if k == i {
                                assert(b@[j as int] == ai);
                            }
                        }
                        if a@.subrange(0, i as int).contains(d) {
                            let k = choose|k: int| 0 <= k < i && a@.subrange(0, i as int)[k] == d;
                            assert(a@.subrange(0, i + 1)[k] == d);
                        } else {
                            assert(a@.subrange(0, i + 1)[i as int] == d);
                        }
                    },
                    None => {
                        assert forall|k: int| 0 <= k < i + 1 implies b@.contains(#[trigger] a@[k]) by {
                            if k == i {
                                assert(b@[j as int] == ai);
                            }
                        }
                    },
                }
            }
            i = i + 1;
        }
        proof {
            match diff {
                Some(d) => {
                    assert(a@.subrange(0, a@.len() as int) =~= a@);
                },
                None => {},
            }
        }
        (diff.is_none(), diff)
    }

    /// Whether the two lemmas have the same literals in the same order.
    pub fn eq(&self, other: &Lemma) -> (r: bool)
        ensures
            r == (self.lits() == other.lits()),
    {
        if self.cube.len() != other.cube.len() {
            return false;
        }
        let mut i: usize = 0;
        while i < self.cube.len()
            invariant
                0 <= i <= self.cube.len(),
                self.cube.len() == other.cube.len(),
                forall|k: int| 0 <= k < i ==> self.cube@[k] == other.cube@[k],
            decreases self.cube.len() - i,
        {
            if self.cube[i] != other.cube[i] {
                return false;
            }
            i = i + 1;
        }
        assert(self.cube@ =~= other.cube@);
        true
    }

    /// A copy of the lemma.
    pub fn clone_lemma(&self) -> (l: Lemma)
        ensures
            l.lits() == self.lits(),
    {
        let mut v: Vec<Lit> = Vec::new();
        let mut i: usize = 0;
        while i < self.cube.len()
            invariant
                0 <= i <= self.cube.len(),
                v@ == self.cube@.subrange(0, i as int),
            decreases self.cube.len() - i,
        {
            v.push(self.cube[i]);
            i = i + 1;
        }
        assert(v@ =~= self.cube@);
        Lemma { cube: v }
    }
}

} // verus!
