//! Variables, literals and three-valued assignments.
//!
//! A literal packs a variable and a polarity into one word: the variable is
//! the word shifted right by one, and the low bit is set for the negative
//! literal.
use vstd::prelude::*;

verus! {

/// A propositional variable, identified by its index.
#[derive(Clone, Copy, Debug, PartialEq, Eq, Structural, Hash)]
pub struct Var(pub u32);

/// A literal: a variable together with a polarity.
#[derive(Clone, Copy, Debug, PartialEq, Eq, Structural, Hash)]
pub struct Lit(pub u32);

/// The largest variable index whose literals fit in a word.
pub const MAX_VAR: u32 = 0x7fff_ffff;

pub open spec fn var_of(x: u32) -> u32 {
    x / 2
}

pub open spec fn pos_of(x: u32) -> bool {
    x % 2 == 0
}

pub open spec fn neg_code(x: u32) -> u32 {
    if x % 2 == 0 {
        (x + 1) as u32
    } else {
        (x - 1) as u32
    }
}

impl Var {
    pub open spec fn idx(self) -> int {
        self.0 as int
    }

    /// The positive literal of this variable.
    pub open spec fn spec_lit(self) -> Lit {
        Lit((2 * self.0) as u32)
    }

    /// The variable with the given index.
    pub fn new(x: u32) -> (v: Var)
        ensures
            v.0 == x,
    {
        Var(x)
    }

    /// The positive literal of this variable.
    pub fn lit(&self) -> (l: Lit)
        requires
            self.0 <= MAX_VAR,
        ensures
            l.var() == *self,
            l.polarity(),
            l.0 == 2 * self.0,
            l == self.spec_lit(),
    {
        let x = self.0;
        let r = x << 1;
        assert(r == 2 * x) by (bit_vector)
            requires
                x <= 0x7fff_ffffu32,
                r == x << 1,
        ;
        Lit(r)
    }
}

impl Lit {
    pub open spec fn var(self) -> Var {
        Var(var_of(self.0))
    }

    pub open spec fn polarity(self) -> bool {
        pos_of(self.0)
    }

    pub open spec fn negated(self) -> Lit {
        Lit(neg_code(self.0))
    }

    pub open spec fn idx(self) -> int {
        self.0 as int
    }

    /// The literal of `var` with the given polarity.
    pub fn new(var: Var, polarity: bool) -> (l: Lit)
        requires
            var.0 <= MAX_VAR,
        ensures
            l.var() == var,
            l.polarity() == polarity,
    {
        let b: u32 = if polarity {
            0
        } else {
            1
        };
        Lit(var.0 + var.0 + b)
    }

    /// The variable of this literal.
    pub fn var_of(&self) -> (v: Var)
        ensures
            v == self.var(),
    {
        let x = self.0;
        let r = x >> 1;
        assert(r == x / 2) by (bit_vector)
            requires
                r == x >> 1,
        ;
        Var(r)
    }

    /// Whether this literal is the positive literal of its variable.
    pub fn is_positive(&self) -> (b: bool)
        ensures
            b == self.polarity(),
    {
        let x = self.0;
        let b = x & 1 == 0;
        assert(b == (x % 2 == 0)) by (bit_vector)
            requires
                b == (x & 1 == 0),
        ;
        b
    }

    /// The literal of the same variable with the opposite polarity.
    pub fn not(&self) -> (l: Lit)
        ensures
            l == self.negated(),
            l.var() == self.var(),
            l.polarity() == !self.polarity(),
            l != *self,
    {
        let x = self.0;
        let r = x ^ 1;
        assert(r == neg_code(x)) by (bit_vector)
            requires
                r == x ^ 1,
        ;
        Lit(r)
    }

    /// The negation of this literal when `c` holds, else the literal itself.
    pub fn not_if(&self, c: bool) -> (l: Lit)
        ensures
            l == (if c {
                self.negated()
            } else {
                *self
            }),
            l.var() == self.var(),
            l.polarity() == (self.polarity() != c),
    {
        if c {
            self.not()
        } else {
            *self
        }
    }
}

/// Negation flips the polarity and keeps the variable, and is its own inverse.
pub proof fn lemma_negated(l: Lit)
    ensures
        l.negated().var() == l.var(),
        l.negated().polarity() == !l.polarity(),
        l.negated().negated() == l,
        l.negated() != l,
{
}

/// A literal is fixed by its variable and its polarity.
pub proof fn lemma_lit_determined(a: Lit, b: Lit)
    requires
        a.var() == b.var(),
        a.polarity() == b.polarity(),
    ensures
        a == b,
{
}

/// Two literals of one variable are equal or each the negation of the other.
pub proof fn lemma_same_var(a: Lit, b: Lit)
    requires
        a.var() == b.var(),
    ensures
        a == b || a == b.negated(),
{
}

/// A three-valued truth value: false, true or unassigned.
#[derive(Clone, Copy, Debug, PartialEq, Eq, Structural)]
pub struct Lbool(pub u8);

impl Lbool {
    /// The false value.
    pub fn new_false() -> (r: Lbool)
        ensures
            r.0 == 0,
    {
        Lbool(0)
    }

    /// The true value.
    pub fn new_true() -> (r: Lbool)
        ensures
            r.0 == 1,
    {
        Lbool(1)
    }

    /// The unassigned value.
    pub fn new_none() -> (r: Lbool)
        ensures
            r.0 == 2,
    {
        Lbool(2)
    }

    pub open spec fn spec_is_true(self) -> bool {
        self.0 == 1
    }

    pub open spec fn spec_is_false(self) -> bool {
        self.0 == 0
    }

    /// An unassigned value has its second bit set.
    pub open spec fn spec_is_none(self) -> bool {
        (self.0 as int) % 4 >= 2
    }

    /// The value is one of the three canonical values.
    pub open spec fn wf(self) -> bool {
        self.0 <= 2
    }

    pub fn is_true(self) -> (b: bool)
        ensures
            b == self.spec_is_true(),
    {
        self.0 == 1
    }

    pub fn is_false(self) -> (b: bool)
        ensures
            b == self.spec_is_false(),
    {
        self.0 == 0
    }

    pub fn is_none(self) -> (b: bool)
        ensures
            b == self.spec_is_none(),
    {
        let x = self.0;
        let b = x & 2 != 0;
        assert(b == ((x as int) % 4 >= 2)) by (bit_vector)
            requires
                b == (x & 2 != 0),
        ;
        b
    }

    /// The value of a Boolean.
    pub fn from_bool(v: bool) -> (r: Lbool)
        ensures
            r.wf(),
            v ==> r.spec_is_true(),
            !v ==> r.spec_is_false(),
    {
        if v {
            Lbool(1)
        } else {
            Lbool(0)
        }
    }

    /// The complemented value: true and false swap, unassigned stays unassigned.
    pub fn not(self) -> (r: Lbool)
        ensures
            r.spec_is_true() == self.spec_is_false(),
            r.spec_is_false() == self.spec_is_true(),
            r.spec_is_none() == self.spec_is_none(),
            self.wf() && !self.spec_is_none() ==> r.wf(),
    {
        let x = self.0;
        let y = x ^ 1;
        assert((y == 1) == (x == 0) && (y == 0) == (x == 1) && (((y as int) % 4 >= 2) == ((x as int) % 4 >= 2))) by (bit_vector)
            requires
                y == x ^ 1,
        ;
        Lbool(y)
    }

    /// The value as an optional Boolean.
    pub fn to_option(self) -> (r: Option<bool>)
        ensures
            r == (if self.spec_is_true() {
                Some(true)
            } else if self.spec_is_false() {
                Some(false)
            } else {
                None::<bool>
            }),
    {
        if self.0 == 1 {
            Some(true)
        } else if self.0 == 0 {
            Some(false)
        } else {
            None
        }
    }
}

} // verus!
