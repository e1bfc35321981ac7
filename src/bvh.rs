use crate::geom::{all_indices, Axis};
use vstd::prelude::*;
use vstd::seq_lib::{lemma_multiset_commutative, to_multiset_contains, to_multiset_insert};

verus! {

/// The shape of a bounding volume hierarchy over the scene's primitives, each
/// named by its index. Every variant is an inner node with two children.
#[derive(Debug, PartialEq, Eq)]
pub enum BvhTree {
    /// A node over one primitive: both children are that primitive.
    Single(usize),
    /// A node over two primitives, ordered along the axis.
    Pair(Axis, usize, usize),
    /// A node over three or more primitives, sorted along the axis and cut
    /// at the median into two sub-hierarchies.
    Split(Axis, Box<BvhTree>, Box<BvhTree>),
}

/// The ordering key of a minimum corner `k` along axis `ax`.
pub open spec fn axis_key(k: (u32, u32, u32), ax: Axis) -> u32 {
    match ax {
        Axis::X => k.0,
        Axis::Y => k.1,
        Axis::Z => k.2,
    }
}

impl BvhTree {
    /// The primitives under the node, left to right.
    pub open spec fn prims(self) -> Seq<usize>
        decreases self,
    {
        match self {
            BvhTree::Single(a) => seq![a],
            BvhTree::Pair(_, a, b) => seq![a, b],
            BvhTree::Split(_, l, r) => l.prims() + r.prims(),
        }
    }

    /// Each node orders its children along its axis by the keys of their
    /// primitives' minimum corners (`keys[i]` for primitive `i`), and a split
    /// node holds at least three primitives, the lower half on the left.
    pub open spec fn well_split(self, keys: Seq<(u32, u32, u32)>) -> bool
        decreases self,
    {
        match self {
            BvhTree::Single(_) => true,
            BvhTree::Pair(ax, a, b) => axis_key(keys[a as int], ax) <= axis_key(keys[b as int], ax),
            BvhTree::Split(ax, l, r) => {
                &&& l.well_split(keys)
                &&& r.well_split(keys)
                &&& l.prims().len() + r.prims().len() >= 3
                &&& l.prims().len() == (l.prims().len() + r.prims().len()) / 2
                &&& forall|a: usize, b: usize|
                    #[trigger] l.prims().contains(a) && #[trigger] r.prims().contains(b) ==> axis_key(
                        keys[a as int],
                        ax,
                    ) <= axis_key(keys[b as int], ax)
            },
        }
    }
}

fn key_of(keys: &Vec<(u32, u32, u32)>, i: usize, ax: Axis) -> (r: u32)
    requires
        i < keys@.len(),
    ensures
        r == axis_key(keys@[i as int], ax),
{
    let k = keys[i];
    match ax {
        Axis::X => k.0,
        Axis::Y => k.1,
        Axis::Z => k.2,
    }
}

/// Orders the primitive indices `idx` by key along `ax`, keeping the input
/// order among equal keys.
fn sort_by_axis(keys: &Vec<(u32, u32, u32)>, idx: &Vec<usize>, ax: Axis) -> (r: Vec<usize>)
    requires
        forall|i: int| 0 <= i < idx@.len() ==> #[trigger] idx@[i] < keys@.len(),
    ensures
        r@.to_multiset() == idx@.to_multiset(),
        r@.len() == idx@.len(),
        forall|i: int| 0 <= i < r@.len() ==> #[trigger] r@[i] < keys@.len(),
        forall|i: int, j: int|
            0 <= i <= j < r@.len() ==> axis_key(keys@[r@[i] as int], ax) <= axis_key(
                keys@[r@[j] as int],
                ax,
            ),
{
    let mut sorted: Vec<usize> = Vec::new();
    let mut n: usize = 0;
    proof {
        assert(sorted@ =~= idx@.subrange(0, 0));
    }
    while n < idx.len()
        invariant
            n <= idx@.len(),
            forall|i: int| 0 <= i < idx@.len() ==> #[trigger] idx@[i] < keys@.len(),
            sorted@.len() == n,
            sorted@.to_multiset() == idx@.subrange(0, n as int).to_multiset(),
            forall|i: int| 0 <= i < sorted@.len() ==> #[trigger] sorted@[i] < keys@.len(),
            forall|i: int, j: int|
                0 <= i <= j < sorted@.len() ==> axis_key(keys@[sorted@[i] as int], ax) <= axis_key(
                    keys@[sorted@[j] as int],
                    ax,
                ),
        decreases idx@.len() - n,
    {
        let x = idx[n];
        let kx = key_of(keys, x, ax);
        let mut pos: usize = 0;
        while pos < sorted.len() && key_of(keys, sorted[pos], ax) <= kx
            invariant
                pos <= sorted@.len(),
                forall|i: int| 0 <= i < sorted@.len() ==> #[trigger] sorted@[i] < keys@.len(),
                forall|i: int| 0 <= i < pos ==> axis_key(keys@[#[trigger] sorted@[i] as int], ax) <= kx,
            decreases sorted@.len() - pos,
        {
            pos = pos + 1;
        }
        let ghost before = sorted@;
        sorted.insert(pos, x);
        proof {
            to_multiset_insert(before, pos as int, x);
            assert(idx@.subrange(0, n + 1) =~= idx@.subrange(0, n as int).push(x));
            vstd::seq_lib::to_multiset_build(idx@.subrange(0, n as int), x);
            assert forall|i: int, j: int| 0 <= i <= j < sorted@.len() implies axis_key(
                keys@[sorted@[i] as int],
                ax,
            ) <= axis_key(keys@[sorted@[j] as int], ax) by {
                if pos < before.len() {
                    assert(axis_key(keys@[before[pos as int] as int], ax) > kx);
                }
                if i < pos && j > pos {
                    assert(sorted@[i] == before[i]);
                    assert(sorted@[j] == before[j - 1]);
                } else if i > pos {
                    assert(sorted@[i] == before[i - 1]);
                }
            }
        }
        n = n + 1;
    }
    proof {
        assert(idx@.subrange(0, n as int) =~= idx@);
    }
    sorted
}


fn copy_range(v: &Vec<usize>, lo: usize, hi: usize) -> (r: Vec<usize>)
    requires
        lo <= hi <= v@.len(),
    ensures
        r@ == v@.subrange(lo as int, hi as int),
{
    let mut r: Vec<usize> = Vec::new();
    let mut i: usize = lo;
    while i < hi
        invariant
            lo <= i <= hi <= v@.len(),
            r@ == v@.subrange(lo as int, i as int),
        decreases hi - i,
    {
        r.push(v[i]);
        proof {
            assert(r@ =~= v@.subrange(lo as int, i + 1));
        }
        i = i + 1;
    }
    r
}

/// Builds the hierarchy over the primitives `idx`: one primitive gives a node
/// whose children both are it; two are ordered along a random axis; more are
/// sorted along a random axis and cut at the median index, each half built
/// the same way.
fn build_over(keys: &Vec<(u32, u32, u32)>, idx: &Vec<usize>) -> (r: BvhTree)
    requires
        idx@.len() >= 1,
        forall|i: int| 0 <= i < idx@.len() ==> #[trigger] idx@[i] < keys@.len(),
    ensures
        r.prims().to_multiset() == idx@.to_multiset(),
        r.well_split(keys@),
        idx@.len() == 1 ==> r == BvhTree::Single(idx@[0]),
    decreases idx@.len(),
{
    let ax = Axis::rand();
    if idx.len() == 1 {
        proof {
            assert(idx@ =~= seq![idx@[0]]);
        }
        BvhTree::Single(idx[0])
    } else if idx.len() == 2 {
        let a = idx[0];
        let b = idx[1];
        proof {
            assert(idx@ =~= seq![a] + seq![b]);
            assert(seq![a, b] =~= seq![a] + seq![b]);
            assert(seq![b, a] =~= seq![b] + seq![a]);
            vstd::seq_lib::lemma_seq_union_to_multiset_commutative(seq![a], seq![b]);
        }
        if key_of(keys, a, ax) < key_of(keys, b, ax) {
            BvhTree::Pair(ax, a, b)
        } else {
            BvhTree::Pair(ax, b, a)
        }
    } else {
        let sorted = sort_by_axis(keys, idx, ax);
        let mid = sorted.len() / 2;
        let lo = copy_range(&sorted, 0, mid);
        let hi = copy_range(&sorted, mid, sorted.len());
        let left = build_over(keys, &lo);
        let right = build_over(keys, &hi);
        let r = BvhTree::Split(ax, Box::new(left), Box::new(right));
        proof {
            let lp = left.prims();
            let rp = right.prims();
            assert(sorted@ =~= lo@ + hi@);
            lemma_multiset_commutative(lo@, hi@);
            lemma_multiset_commutative(lp, rp);
            vstd::seq_lib::to_multiset_len(lp);
            vstd::seq_lib::to_multiset_len(lo@);
            vstd::seq_lib::to_multiset_len(rp);
            vstd::seq_lib::to_multiset_len(hi@);
            assert forall|a: usize, b: usize| #[trigger] lp.contains(a) && #[trigger] rp.contains(b) implies axis_key(
                keys@[a as int],
                ax,
            ) <= axis_key(keys@[b as int], ax) by {
                to_multiset_contains(lp, a);
                to_multiset_contains(lo@, a);
                to_multiset_contains(rp, b);
                to_multiset_contains(hi@, b);
                let i = choose|i: int| 0 <= i < lo@.len() && lo@[i] == a;
                let j = choose|j: int| 0 <= j < hi@.len() && hi@[j] == b;
                assert(sorted@[i] == a);
                assert(sorted@[mid + j] == b);
            }
        }
        r
    }
}

impl BvhTree {
    /// Builds the hierarchy over all primitives, `keys[i]` holding the
    /// ordering keys of primitive `i`'s minimum corner on x, y and z. Every
    /// primitive sits under it exactly once, and every node is split as
    /// `well_split` says.
    pub fn build(keys: &Vec<(u32, u32, u32)>) -> (r: BvhTree)
        requires
            keys@.len() >= 1,
        ensures
            r.prims().to_multiset() == all_indices(keys@.len()).to_multiset(),
            r.well_split(keys@),
    {
        let mut idx: Vec<usize> = Vec::new();
        let mut i: usize = 0;
        while i < keys.len()
            invariant
                i <= keys@.len(),
                idx@ == all_indices(i as nat),
            decreases keys@.len() - i,
        {
            idx.push(i);
            proof {
                assert(idx@ =~= all_indices((i + 1) as nat));
            }
            i = i + 1;
        }
        build_over(keys, &idx)
    }
}

} // verus!
