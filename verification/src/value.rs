//! The current partial assignment, one truth value per literal.
use crate::lit::{lemma_negated, Lbool, Lit, Var, MAX_VAR};
use vstd::prelude::*;

verus! {

/// The two literals of variable `k` hold complementary values, or are both
/// unassigned.
pub open spec fn pair_ok(d: Seq<Lbool>, k: int) -> bool {
    ||| (d[2 * k].0 == 1 && d[2 * k + 1].0 == 0)
    ||| (d[2 * k].0 == 0 && d[2 * k + 1].0 == 1)
    ||| (d[2 * k].0 == 2 && d[2 * k + 1].0 == 2)
}

/// Truth values indexed by literal; a literal and its negation always hold
/// complementary values, or are both unassigned.
pub struct Value {
    pub data: Vec<Lbool>,
}

impl Value {
    pub open spec fn wf(&self) -> bool {
        &&& self.data.len() % 2 == 0
        &&& self.data.len() <= 2 * (MAX_VAR as int + 1)
        &&& forall|i: int|
            0 <= i < self.data.len() ==> (#[trigger] self.data@[i]).wf()
        &&& forall|k: int| 0 <= k < self.data.len() / 2 ==> #[trigger] pair_ok(self.data@, k)
    }

    /// The number of variables covered.
    pub open spec fn num_var(&self) -> nat {
        self.data@.len() / 2
    }

    pub open spec fn covers(&self, l: Lit) -> bool {
        (l.0 as int) < self.data.len()
    }

    pub open spec fn val(&self, l: Lit) -> Lbool {
        self.data@[l.0 as int]
    }

    pub open spec fn is_true(&self, l: Lit) -> bool {
        self.val(l).0 == 1
    }

    pub open spec fn is_false(&self, l: Lit) -> bool {
        self.val(l).0 == 0
    }

    pub open spec fn is_unassigned(&self, l: Lit) -> bool {
        self.val(l).0 == 2
    }

    /// An assignment over no variables.
    pub fn new() -> (v: Value)
        ensures
            v.wf(),
            v.num_var() == 0,
    {
        Value { data: Vec::new() }
    }

    /// Extends the assignment, unassigned, to cover `var`.
    pub fn reserve(&mut self, var: Var)
        requires
            old(self).wf(),
            var.0 < MAX_VAR,
        ensures
            final(self).wf(),
            final(self).num_var() == if old(self).num_var() > var.0 + 1 {
                old(self).num_var()
            } else {
                var.0 as nat + 1
            },
            forall|i: int| 0 <= i < old(self).data.len() ==> final(self).data@[i] == old(self).data@[i],
            forall|i: int| old(self).data.len() <= i < final(self).data.len() ==> final(self).data@[i].0 == 2,
    {
        let len = (var.0 as usize + 1) * 2;
        while self.data.len() < len
            invariant
                old(self).wf(),
                len == (var.0 as int + 1) * 2,
                old(self).data.len() <= self.data.len(),
                self.data.len() <= len || self.data.len() == old(self).data.len(),
                self.data.len() % 2 == 0 || self.data.len() < len,
                forall|i: int| 0 <= i < old(self).data.len() ==> self.data@[i] == old(self).data@[i],
                forall|i: int| old(self).data.len() <= i < self.data.len() ==> self.data@[i].0 == 2,
            decreases len - self.data.len(),
        {
            self.data.push(Lbool(2));
        }
        proof {
            assert forall|k: int| 0 <= k < self.data.len() / 2 implies #[trigger] pair_ok(self.data@, k) by {
                if 2 * k < old(self).data.len() {
                    assert(pair_ok(old(self).data@, k));
                    assert(self.data@[2 * k] == old(self).data@[2 * k]);
                    assert(self.data@[2 * k + 1] == old(self).data@[2 * k + 1]);
                }
            }
        }
    }

    /// The value of `lit`.
    pub fn v(&self, lit: Lit) -> (b: Lbool)
        requires
            self.covers(lit),
        ensures
            b == self.val(lit),
    {
        self.data[lit.0 as usize]
    }

    /// Makes `lit` true and its negation false.
    pub fn set(&mut self, lit: Lit)
        requires
            old(self).wf(),
            old(self).covers(lit),
        ensures
            final(self).wf(),
            final(self).data.len() == old(self).data.len(),
            final(self).is_true(lit),
            final(self).is_false(lit.negated()),
            forall|l: Lit| old(self).covers(l) && l.var() != lit.var() ==> #[trigger] final(self).val(l) == old(self).val(l),
    {
        let n = lit.not();
        proof {
            lemma_negated(lit);
        }
        self.data.set(lit.0 as usize, Lbool(1));
        self.data.set(n.0 as usize, Lbool(0));
        proof {
            let k0 = lit.0 as int / 2;
            assert forall|k: int| 0 <= k < self.data.len() / 2 implies #[trigger] pair_ok(self.data@, k) by {
                if k != k0 {
                    assert(pair_ok(old(self).data@, k));
                    assert(self.data@[2 * k] == old(self).data@[2 * k]);
                    assert(self.data@[2 * k + 1] == old(self).data@[2 * k + 1]);
                }
            }
            assert forall|i: int| 0 <= i < self.data.len() implies (#[trigger] self.data@[i]).wf() by {
                if i != lit.0 && i != n.0 {
                    assert(self.data@[i] == old(self).data@[i]);
                }
            }
            assert forall|l: Lit| old(self).covers(l) && l.var() != lit.var() implies #[trigger] self.val(l) == old(self).val(l) by {
                assert(l.0 != lit.0 && l.0 != n.0);
            }
        }
    }

    /// Makes `var` unassigned.
    pub fn set_none(&mut self, var: Var)
        requires
            old(self).wf(),
            (var.0 as int) < old(self).num_var(),
        ensures
            final(self).wf(),
            final(self).data.len() == old(self).data.len(),
            final(self).data@[2 * var.0].0 == 2,
            final(self).data@[2 * var.0 + 1].0 == 2,
            forall|l: Lit| old(self).covers(l) && l.var() != var ==> #[trigger] final(self).val(l) == old(self).val(l),
    {
        let i = var.0 as usize * 2;
        self.data.set(i, Lbool(2));
        self.data.set(i + 1, Lbool(2));
        proof {
            assert forall|k: int| 0 <= k < self.data.len() / 2 implies #[trigger] pair_ok(self.data@, k) by {
                if k != var.0 {
                    assert(pair_ok(old(self).data@, k));
                    assert(self.data@[2 * k] == old(self).data@[2 * k]);
                    assert(self.data@[2 * k + 1] == old(self).data@[2 * k + 1]);
                }
            }
            assert forall|j: int| 0 <= j < self.data.len() implies (#[trigger] self.data@[j]).wf() by {
                if j != i && j != i + 1 {
                    assert(self.data@[j] == old(self).data@[j]);
                }
            }
            assert forall|l: Lit| old(self).covers(l) && l.var() != var implies #[trigger] self.val(l) == old(self).val(l) by {
                assert(l.0 != i && l.0 != i + 1);
            }
        }
    }
}

/// In a well-formed assignment, a literal is true exactly when its negation
/// is false, and unassigned exactly when its negation is.
pub proof fn lemma_value_negated(v: &Value, l: Lit)
    requires
        v.wf(),
        v.covers(l),
    ensures
        v.covers(l.negated()),
        v.is_true(l) <==> v.is_false(l.negated()),
        v.is_false(l) <==> v.is_true(l.negated()),
        v.is_unassigned(l) <==> v.is_unassigned(l.negated()),
        v.val(l).wf(),
{
    let k = l.0 as int / 2;
    assert(pair_ok(v.data@, k));
    assert(v.data@[l.0 as int].wf());
}

} // verus!
