use crate::geom::{all_indices, random_below};
use vstd::prelude::*;
use vstd::seq_lib::{to_multiset_contains, to_multiset_update};

verus! {

/// Number of lattice values along each axis of the noise.
pub const PERLIN_POINT: usize = 256;

/// `s` is an ordering of `0 .. 256`.
pub open spec fn is_perm(s: Seq<usize>) -> bool {
    &&& s.len() == PERLIN_POINT
    &&& s.to_multiset() == all_indices(PERLIN_POINT as nat).to_multiset()
    &&& forall|i: int| 0 <= i < s.len() ==> #[trigger] s[i] < PERLIN_POINT
}

/// Shuffles the first `n` entries of `p` in place of each other (Fisher-Yates,
/// from the back), leaving the rest where they are.
pub fn permute(p: Vec<usize>, n: usize) -> (r: Vec<usize>)
    requires
        n <= p@.len(),
    ensures
        r@.len() == p@.len(),
        r@.to_multiset() == p@.to_multiset(),
        forall|i: int| n <= i < p@.len() ==> #[trigger] r@[i] == p@[i],
{
    broadcast use vstd::multiset::group_multiset_axioms;

    let mut p = p;
    let ghost orig = p@;
    let mut i: usize = n;
    while i > 1
        invariant
            i <= n <= p@.len(),
            p@.len() == orig.len(),
            p@.to_multiset() == orig.to_multiset(),
            forall|k: int| n <= k < p@.len() ==> #[trigger] p@[k] == orig[k],
        decreases i,
    {
        i = i - 1;
        let target = random_below(i + 1);
        let a = p[i];
        let b = p[target];
        let ghost s0 = p@;
        p.set(i, b);
        let ghost s1 = p@;
        p.set(target, a);
        proof {
            to_multiset_update(s0, i as int, b);
            to_multiset_update(s1, target as int, a);
            assert(s1[target as int] == b);
            assert(s0.contains(a) && s0.contains(b));
            to_multiset_contains(s0, a);
            to_multiset_contains(s0, b);
            assert(p@.to_multiset() =~= s0.to_multiset());
        }
    }
    p
}

/// A random ordering of `0 .. 256`.
pub fn generate_perm() -> (r: Vec<usize>)
    ensures
        is_perm(r@),
{
    let mut p: Vec<usize> = Vec::new();
    let mut i: usize = 0;
    while i < PERLIN_POINT
        invariant
            i <= PERLIN_POINT,
            p@ == all_indices(i as nat),
        decreases PERLIN_POINT - i,
    {
        p.push(i);
        proof {
            assert(p@ =~= all_indices((i + 1) as nat));
        }
        i = i + 1;
    }
    let r = permute(p, PERLIN_POINT);
    proof {
        assert forall|k: int| 0 <= k < r@.len() implies #[trigger] r@[k] < PERLIN_POINT by {
            let x = r@[k];
            assert(r@.contains(x));
            to_multiset_contains(r@, x);
            to_multiset_contains(all_indices(PERLIN_POINT as nat), x);
        }
    }
    r
}

/// The integer lattice of Perlin noise: three independent random orderings
/// of `0 .. 256` that hash a lattice corner to one of 256 gradient slots.
pub struct LatticeHash {
    perm_x: Vec<usize>,
    perm_y: Vec<usize>,
    perm_z: Vec<usize>,
}

impl LatticeHash {
    pub closed spec fn perm_x(&self) -> Seq<usize> {
        self.perm_x@
    }

    pub closed spec fn perm_y(&self) -> Seq<usize> {
        self.perm_y@
    }

    pub closed spec fn perm_z(&self) -> Seq<usize> {
        self.perm_z@
    }

    pub open spec fn wf(&self) -> bool {
        is_perm(self.perm_x()) && is_perm(self.perm_y()) && is_perm(self.perm_z())
    }

    /// Three fresh random orderings.
    pub fn new() -> (r: LatticeHash)
        ensures
            r.wf(),
    {
        LatticeHash { perm_x: generate_perm(), perm_y: generate_perm(), perm_z: generate_perm() }
    }

    /// The gradient slot of lattice corner `(i, j, k)`: the exclusive or of
    /// the three orderings at the coordinates taken modulo 256.
    pub fn hash(&self, i: i32, j: i32, k: i32) -> (r: usize)
        requires
            self.wf(),
        ensures
            r < PERLIN_POINT,
            r == self.perm_x()[(i as int) % 256] ^ self.perm_y()[(j as int) % 256] ^ self.perm_z()[(k
                as int) % 256],
    {
        let a = self.perm_x[wrap_lattice(i)];
        let b = self.perm_y[wrap_lattice(j)];
        let c = self.perm_z[wrap_lattice(k)];
        assert(a ^ b ^ c < 256) by (bit_vector)
            requires a < 256, b < 256, c < 256;
        a ^ b ^ c
    }
}

/// A lattice coordinate taken modulo 256, in `0 .. 256`.
fn wrap_lattice(i: i32) -> (r: usize)
    ensures
        r == (i as int) % 256,
        r < 256,
{
    match i.checked_rem_euclid(256) {
        Some(m) => m as usize,
        None => 0,
    }
}

} // verus!
