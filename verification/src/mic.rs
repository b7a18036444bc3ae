//! Parameters of inductive generalization, and the bookkeeping after a
//! literal was dropped from a cube.
use crate::lit::Lit;
use crate::options::Options;
use vstd::prelude::*;

verus! {

/// Limits of counterexample-guided generalization.
#[derive(Clone, Copy, Debug, PartialEq, Eq, Structural)]
pub struct DropVarParameter {
    pub limit: usize,
    pub max: usize,
    pub level: usize,
}

impl DropVarParameter {
    /// The parameter with the given limit, maximum and level.
    pub fn new(limit: usize, max: usize, level: usize) -> (p: DropVarParameter)
        ensures
            p.limit == limit,
            p.max == max,
            p.level == level,
    {
        DropVarParameter { limit, max, level }
    }

    /// The parameter one level down.
    pub fn sub_level(self) -> (p: DropVarParameter)
        requires
            self.level > 0,
        ensures
            p.limit == self.limit,
            p.max == self.max,
            p.level == self.level - 1,
    {
        DropVarParameter { limit: self.limit, max: self.max, level: self.level - 1 }
    }

    /// All limits zero.
    pub fn default_parameter() -> (p: DropVarParameter)
        ensures
            p.limit == 0 && p.max == 0 && p.level == 0,
    {
        DropVarParameter { limit: 0, max: 0, level: 0 }
    }
}

/// The kind of generalization.
#[derive(Clone, Copy, Debug, PartialEq, Eq, Structural)]
pub enum MicType {
    NoMic,
    DropVar(DropVarParameter),
}

impl MicType {
    /// Dropping variables, with counterexamples to generalization when the
    /// options ask for them (at level one, with their limit and maximum),
    /// else with all limits zero.
    pub fn from_options(options: &Options) -> (m: MicType)
        ensures
            options.ic3.ctg ==> m == MicType::DropVar(
                DropVarParameter { limit: options.ic3.ctg_limit, max: options.ic3.ctg_max, level: 1 },
            ),
            !options.ic3.ctg ==> m == MicType::DropVar(DropVarParameter { limit: 0, max: 0, level: 0 }),
    {
        let p = if options.ic3.ctg {
            DropVarParameter { limit: options.ic3.ctg_limit, max: options.ic3.ctg_max, level: 1 }
        } else {
            DropVarParameter::default_parameter()
        };
        MicType::DropVar(p)
    }
}

/// The literals of `cube` that are in `keep`, in the order of `cube`.
pub open spec fn filter_in(cube: Seq<Lit>, keep: Seq<Lit>) -> Seq<Lit>
    decreases cube.len(),
{
    if cube.len() == 0 {
        Seq::empty()
    } else {
        let rest = filter_in(cube.drop_last(), keep);
        if keep.contains(cube.last()) {
            rest.push(cube.last())
        } else {
            rest
        }
    }
}

/// Whether `l` is in `v`.
pub fn contains_lit(v: &Vec<Lit>, l: Lit) -> (b: bool)
    ensures
        b == v@.contains(l),
{
    let mut i: usize = 0;
    while i < v.len()
        invariant
            0 <= i <= v.len(),
            forall|k: int| 0 <= k < i ==> v@[k] != l,
        decreases v.len() - i,
    {
        if v[i] == l {
            return true;
        }
        i = i + 1;
    }
    false
}

/// After dropping the literal at `i` of `cube` succeeded with the smaller
/// cube `new_cube`: keeps the literals of `cube` that are in `new_cube`, in
/// the order of `cube`, and finds the position from which to go on, the
/// first literal that is not among the first `i` of `cube`.
pub fn handle_down_success(cube: Vec<Lit>, i: usize, new_cube: Vec<Lit>) -> (r: (Vec<Lit>, usize))
    requires
        i < cube@.len(),
        !new_cube@.contains(cube@[i as int]),
    ensures
        r.0@ == filter_in(cube@, new_cube@),
        r.1 <= r.0@.len(),
        forall|m: int| 0 <= m < r.1 ==> cube@.subrange(0, i as int).contains(#[trigger] r.0@[m]),
        r.1 < r.0@.len() ==> !cube@.subrange(0, i as int + 1).contains(r.0@[r.1 as int]),
{
    let mut kept: Vec<Lit> = Vec::new();
    let mut k: usize = 0;
    while k < cube.len()
        invariant
            0 <= k <= cube.len(),
            kept@ == filter_in(cube@.subrange(0, k as int), new_cube@),
        decreases cube.len() - k,
    {
        let l = cube[k];
        if contains_lit(&new_cube, l) {
            kept.push(l);
        }
        proof {
            assert(cube@.subrange(0, k + 1).drop_last() =~= cube@.subrange(0, k as int));
        }
        k = k + 1;
    }
    proof {
        assert(cube@.subrange(0, cube.len() as int) =~= cube@);
    }
    let mut head: Vec<Lit> = Vec::new();
    let mut h: usize = 0;
    while h < i
        invariant
            0 <= h <= i < cube.len(),
            head@ == cube@.subrange(0, h as int),
        decreases i - h,
    {
        head.push(cube[h]);
        h = h + 1;
    }
    let mut new_i: usize = 0;
    while new_i < kept.len()
        invariant
            0 <= new_i <= kept.len(),
            head@ == cube@.subrange(0, i as int),
            forall|m: int| 0 <= m < new_i ==> cube@.subrange(0, i as int).contains(#[trigger] kept@[m]),
        ensures
            0 <= new_i <= kept.len(),
            forall|m: int| 0 <= m < new_i ==> cube@.subrange(0, i as int).contains(#[trigger] kept@[m]),
            new_i < kept.len() ==> !cube@.subrange(0, i as int).contains(kept@[new_i as int]),
        decreases kept.len() - new_i,
    {
        if !contains_lit(&head, kept[new_i]) {
            break;
        }
        new_i = new_i + 1;
    }
    proof {
        if new_i < kept.len() {
            lemma_filter_in(cube@, new_cube@);
            let x = kept@[new_i as int];
            assert(new_cube@.contains(x));
            assert(x != cube@[i as int]);
            let pre = cube@.subrange(0, i as int + 1);
            assert(!pre.contains(x)) by {
                if pre.contains(x) {
                    let m = choose|m: int| 0 <= m < pre.len() && #[trigger] pre[m] == x;
                    assert(m != i);
                    assert(cube@.subrange(0, i as int)[m] == x);
                }
            }
        }
    }
    (kept, new_i)
}

/// Every literal kept by `filter_in` is in `keep`.
pub proof fn lemma_filter_in(cube: Seq<Lit>, keep: Seq<Lit>)
    ensures
        forall|k: int| 0 <= k < filter_in(cube, keep).len() ==> keep.contains(#[trigger] filter_in(cube, keep)[k]),
        filter_in(cube, keep).len() <= cube.len(),
    decreases cube.len(),
{
    if cube.len() > 0 {
        lemma_filter_in(cube.drop_last(), keep);
    }
}

} // verus!
