use rand::Rng;
use vstd::prelude::*;

verus! {

/// A coordinate axis, along which the scene's primitives are ordered when the
/// bounding volume hierarchy is built.
#[derive(Clone, Copy, Debug, PartialEq, Eq, Structural)]
pub enum Axis {
    X,
    Y,
    Z,
}

/// The indices `0 .. n`.
pub open spec fn all_indices(n: nat) -> Seq<usize> {
    Seq::new(n, |i: int| i as usize)
}

/// Relies on rand::Rng::gen_range on rand::thread_rng: a number in `[0, n)`.
#[verifier::external_body]
pub(crate) fn random_below(n: usize) -> (r: usize)
    requires
        n > 0,
    ensures
        r < n,
{
    rand::thread_rng().gen_range(0, n)
}

impl Axis {
    /// The axis's position in `(x, y, z)`.
    pub open spec fn index(self) -> int {
        match self {
            Axis::X => 0,
            Axis::Y => 1,
            Axis::Z => 2,
        }
    }

    /// The axis at position `i` of `(x, y, z)`.
    pub fn from_index(i: usize) -> (r: Axis)
        requires
            i < 3,
        ensures
            r.index() == i,
    {
        if i == 0 {
            Axis::X
        } else if i == 1 {
            Axis::Y
        } else {
            Axis::Z
        }
    }

    /// One of the three axes, drawn uniformly at random.
    pub fn rand() -> Axis {
        Axis::from_index(random_below(3))
    }
}

/// Picks which of `count` light sources to sample, uniformly at random;
/// `None` when there is none to pick.
pub fn pick_child(count: usize) -> (r: Option<usize>)
    ensures
        count == 0 <==> r is None,
        r matches Some(i) ==> i < count,
{
    if count == 0 {
        None
    } else {
        Some(random_below(count))
    }
}

} // verus!
