use pathtracer::bvh::BvhTree;
use pathtracer::geom::{pick_child, Axis};
use pathtracer::noise::{generate_perm, permute, LatticeHash};
use pathtracer::render::{radiance_step, RadianceStep, Scattered};

#[test]
fn test_axis() {
    let mut x_cnt = 0;
    let mut y_cnt = 1;
    let mut z_cnt = 2;

    for _ in 0..100 {
        match Axis::rand() {
            Axis::X => {
                x_cnt += 1;
            }
            Axis::Y => {
                y_cnt += 1;
            }
            Axis::Z => {
                z_cnt += 1;
            }
        }
    }

    assert!(x_cnt > 0 && y_cnt > 0 && z_cnt > 0);
}

#[test]
fn axis_from_index() {
    assert_eq!(Axis::from_index(0), Axis::X);
    assert_eq!(Axis::from_index(1), Axis::Y);
    assert_eq!(Axis::from_index(2), Axis::Z);
}

#[test]
fn pick_child_none_when_empty() {
    assert_eq!(pick_child(0), None);
}

#[test]
fn pick_child_in_range_and_varied() {
    let mut hits = [0u32; 4];
    for _ in 0..400 {
        let i = pick_child(4).unwrap();
        assert!(i < 4);
        hits[i] += 1;
    }
    assert!(hits.iter().all(|h| *h > 0));
}

fn leaves(t: &BvhTree, out: &mut Vec<usize>) {
    match t {
        BvhTree::Single(a) => out.push(*a),
        BvhTree::Pair(_, a, b) => {
            out.push(*a);
            out.push(*b);
        }
        BvhTree::Split(_, l, r) => {
            leaves(l, out);
            leaves(r, out);
        }
    }
}

#[test]
fn bvh_single_primitive_aliases() {
    let t = BvhTree::build(&vec![(5, 5, 5)]);
    assert_eq!(t, BvhTree::Single(0));
}

#[test]
fn bvh_pair_is_ordered() {
    let t = BvhTree::build(&vec![(9, 9, 9), (1, 1, 1)]);
    match t {
        BvhTree::Pair(_, a, b) => assert_eq!((a, b), (1, 0)),
        _ => panic!("two primitives give a pair node"),
    }
}

#[test]
fn bvh_sorted_split_at_median() {
    // The keys agree on every axis, so the random axis does not matter.
    let keys: Vec<(u32, u32, u32)> = [40, 10, 30, 0, 20].iter().map(|k| (*k, *k, *k)).collect();
    let t = BvhTree::build(&keys);
    let mut out = Vec::new();
    leaves(&t, &mut out);
    assert_eq!(out, vec![3, 1, 4, 2, 0]);
    match t {
        BvhTree::Split(_, l, r) => {
            assert!(matches!(*l, BvhTree::Pair(_, 3, 1)));
            match *r {
                BvhTree::Split(_, rl, rr) => {
                    assert_eq!(*rl, BvhTree::Single(4));
                    assert!(matches!(*rr, BvhTree::Pair(_, 2, 0)));
                }
                _ => panic!("three primitives give a split node"),
            }
        }
        _ => panic!("five primitives give a split node"),
    }
}

#[test]
fn bvh_holds_every_primitive_once() {
    let keys: Vec<(u32, u32, u32)> = (0..200u32).map(|i| ((i * 37) % 101, (i * 53) % 97, (i * 11) % 89)).collect();
    let t = BvhTree::build(&keys);
    let mut out = Vec::new();
    leaves(&t, &mut out);
    out.sort();
    assert_eq!(out, (0..200).collect::<Vec<usize>>());
}

#[test]
fn generated_perm_is_permutation() {
    let mut p = generate_perm();
    assert_eq!(p.len(), 256);
    p.sort();
    assert_eq!(p, (0..256).collect::<Vec<usize>>());
}

#[test]
fn permute_keeps_tail_and_items() {
    let p: Vec<usize> = (0..10).collect();
    let r = permute(p, 6);
    assert_eq!(&r[6..], &[6, 7, 8, 9]);
    let mut head = r[..6].to_vec();
    head.sort();
    assert_eq!(head, vec![0, 1, 2, 3, 4, 5]);
}

#[test]
fn lattice_hash_wraps_every_256() {
    let h = LatticeHash::new();
    for (i, j, k) in [(0, 0, 0), (3, -7, 100), (-1, 255, 1000)] {
        let v = h.hash(i, j, k);
        assert!(v < 256);
        assert_eq!(v, h.hash(i + 256, j - 256, k + 512));
    }
    assert_eq!(h.hash(-1, -2, -3), h.hash(255, 254, 253));
}

#[test]
fn radiance_step_cases() {
    assert_eq!(radiance_step(0, true, Scattered::Diffuse, true), RadianceStep::Zero);
    assert_eq!(radiance_step(-3, false, Scattered::Absorbed, false), RadianceStep::Zero);
    assert_eq!(radiance_step(5, false, Scattered::Diffuse, true), RadianceStep::Background);
    assert_eq!(radiance_step(1, true, Scattered::Absorbed, true), RadianceStep::Emitted);
    assert_eq!(radiance_step(1, true, Scattered::Specular, true), RadianceStep::FollowSpecular);
    assert_eq!(radiance_step(2, true, Scattered::Diffuse, true), RadianceStep::SampleMixture);
    assert_eq!(radiance_step(2, true, Scattered::Diffuse, false), RadianceStep::SampleMaterial);
}
