use std::cell::Cell;
use pathtracer::bvh::{order_key, BvhNode};
use pathtracer::sort::sort_by_axis;

#[derive(Debug, Clone, Copy, PartialEq)]
struct Span {
    lo: f64,
    hi: f64,
}

fn spans(n: usize) -> Vec<Span> {
    (0..n).map(|i| Span { lo: i as f64, hi: i as f64 + 0.5 }).collect()
}

fn keys_of(s: &[Span]) -> Vec<(u64, u64, u64)> {
    s.iter()
        .map(|b| {
            let k = order_key((b.lo + b.hi).to_bits());
            (k, 0, 0)
        })
        .collect()
}

fn leaves(node: &BvhNode<Span>, out: &mut Vec<Vec<usize>>) {
    if node.children.is_empty() {
        out.push(node.indexes.clone());
    } else {
        for c in &node.children {
            leaves(c, out);
        }
    }
}

#[test]
fn order_key_keeps_float_order() {
    let values: [f64; 9] = [-1e300, -2.5, -1.0, -0.0, 0.0, 1e-300, 1.0, 2.5, 1e300];
    for w in values.windows(2) {
        assert!(order_key(w[0].to_bits()) <= order_key(w[1].to_bits()));
    }
    assert!(order_key((-1.0f64).to_bits()) < order_key(1.0f64.to_bits()));
    assert_eq!(order_key(0.0f64.to_bits()), 0x8000_0000_0000_0000);
    assert_eq!(order_key((-0.0f64).to_bits()), 0x7fff_ffff_ffff_ffff);
}

#[test]
fn sort_is_stable_by_key() {
    let keys = vec![(5, 0, 0), (1, 0, 0), (5, 0, 0), (0, 0, 0)];
    assert_eq!(sort_by_axis(&vec![0, 1, 2, 3], &keys, 0), vec![3, 1, 0, 2]);
    assert_eq!(sort_by_axis(&vec![2, 0], &keys, 0), vec![2, 0]);
    assert_eq!(sort_by_axis(&vec![], &keys, 0), Vec::<usize>::new());
}

#[test]
fn five_elements_make_one_leaf() {
    let s = spans(5);
    let keys = keys_of(&s);
    let bound = |v: &Vec<usize>| Span {
        lo: v.iter().map(|&i| s[i].lo).fold(f64::INFINITY, f64::min),
        hi: v.iter().map(|&i| s[i].hi).fold(f64::NEG_INFINITY, f64::max),
    };
    let axis = |_b: &Span| 0usize;
    let t = BvhNode::build_from_scene(&keys, &bound, &axis);
    assert!(t.children.is_empty());
    assert_eq!(t.indexes, vec![0, 1, 2, 3, 4]);
}

#[test]
fn median_split_of_reversed_list() {
    let s = spans(12);
    let keys = keys_of(&s);
    let bound = |v: &Vec<usize>| Span {
        lo: v.iter().map(|&i| s[i].lo).fold(f64::INFINITY, f64::min),
        hi: v.iter().map(|&i| s[i].hi).fold(f64::NEG_INFINITY, f64::max),
    };
    let axis = |_b: &Span| 0usize;
    let t = BvhNode::build_with_indexes((0..12).rev().collect(), &keys, &bound, &axis);
    assert_eq!(t.children.len(), 2);
    assert!(t.indexes.is_empty());
    assert_eq!(t.aabb, Span { lo: 0.0, hi: 11.5 });
    let mut out = vec![];
    leaves(&t, &mut out);
    assert_eq!(out, vec![vec![0, 1, 2, 3, 4, 5], vec![6, 7, 8, 9, 10, 11]].into_iter()
        .flat_map(|half| vec![half[..3].to_vec(), half[3..].to_vec()])
        .collect::<Vec<_>>());
}

#[test]
fn empty_scene_is_an_empty_leaf() {
    let keys: Vec<(u64, u64, u64)> = vec![];
    let bound = |_v: &Vec<usize>| Span { lo: 0.0, hi: 0.0 };
    let axis = |_b: &Span| 0usize;
    let t = BvhNode::build_from_mesh(&keys, &bound, &axis);
    assert!(t.children.is_empty());
    assert!(t.indexes.is_empty());
}

#[test]
fn traversal_prunes_missed_boxes_and_keeps_the_last_hit() {
    let s = spans(12);
    let keys = keys_of(&s);
    let bound = |v: &Vec<usize>| Span {
        lo: v.iter().map(|&i| s[i].lo).fold(f64::INFINITY, f64::min),
        hi: v.iter().map(|&i| s[i].hi).fold(f64::NEG_INFINITY, f64::max),
    };
    let axis = |_b: &Span| 0usize;
    let t = BvhNode::build_from_scene(&keys, &bound, &axis);
    // a "ray" that covers the interval [4.2, 7.2]
    let box_hit = |b: &Span| b.hi >= 4.2 && b.lo <= 7.2;
    assert_eq!(t.candidates(&box_hit), vec![3, 4, 5, 6, 7, 8]);
    let hit = |i: usize| s[i].hi >= 4.2 && s[i].lo <= 7.2;
    assert_eq!(t.intersect_for_scene(&box_hit, &hit), Some(7));
    assert!(t.intersect_for_mesh(&box_hit, &hit));
    let miss = |_i: usize| false;
    assert_eq!(t.intersect_for_scene(&box_hit, &miss), None);
    assert!(!t.intersect_for_mesh(&box_hit, &miss));
    let nothing = |_b: &Span| false;
    assert!(t.candidates(&nothing).is_empty());
    let everything = |_b: &Span| true;
    assert_eq!(t.candidates(&everything), (0..12).collect::<Vec<_>>());
}

#[test]
fn split_axis_follows_the_chooser() {
    let keys: Vec<(u64, u64, u64)> = (0..8u64).map(|i| (i, 7 - i, 0)).collect();
    let bound = |_v: &Vec<usize>| 0u8;
    let by_y = |_b: &u8| 1usize;
    let t = BvhNode::build_from_scene(&keys, &bound, &by_y);
    assert_eq!(t.candidates(&|_b: &u8| true), vec![7, 6, 5, 4, 3, 2, 1, 0]);
}

#[test]
fn traversal_closest_matches_linear_scan() {
    // points on a line, hit by a "ray" from `origin` going right when they lie in its reach
    let mut seed: u64 = 12345;
    let mut next = || {
        seed = seed.wrapping_mul(6364136223846793005).wrapping_add(1442695040888963407);
        (seed >> 11) as f64 / (1u64 << 53) as f64
    };
    let s: Vec<Span> = (0..40).map(|_| {
        let lo = next() * 100.0;
        Span { lo, hi: lo + next() * 3.0 }
    }).collect();
    let keys = keys_of(&s);
    let bound = |v: &Vec<usize>| Span {
        lo: v.iter().map(|&i| s[i].lo).fold(f64::INFINITY, f64::min),
        hi: v.iter().map(|&i| s[i].hi).fold(f64::NEG_INFINITY, f64::max),
    };
    let axis = |_b: &Span| 0usize;
    let t = BvhNode::build_from_scene(&keys, &bound, &axis);
    for k in 0..50 {
        let origin = k as f64 * 2.0;
        let reach = 5.0 + (k % 7) as f64;
        let distance = |b: &Span| if b.hi >= origin && b.lo <= origin + reach { Some((b.lo - origin).max(0.0)) } else { None };
        let linear = (0..s.len())
            .filter_map(|i| distance(&s[i]).map(|d| (d, i)))
            .fold(None, |best: Option<(f64, usize)>, (d, i)| match best {
                Some((bd, _)) if bd <= d => best,
                _ => Some((d, i)),
            });
        let nearest = Cell::new(f64::INFINITY);
        let box_hit = |b: &Span| distance(b).is_some();
        let element_hit = |i: usize| match distance(&s[i]) {
            Some(d) if d < nearest.get() => {
                nearest.set(d);
                true
            }
            _ => false,
        };
        let found = t.intersect_for_scene(&box_hit, &element_hit);
        assert_eq!(found.map(|i| distance(&s[i]).unwrap()), linear.map(|(d, _)| d));
    }
}

fn shape(node: &BvhNode<Span>) -> String {
    if node.children.is_empty() {
        format!("{:?}", node.indexes)
    } else {
        format!("({:?} {} {})", node.aabb, shape(&node.children[0]), shape(&node.children[1]))
    }
}

#[test]
fn build_is_deterministic_and_leaves_keep_input_order() {
    let s = spans(9);
    // equal keys everywhere: order decides
    let keys: Vec<(u64, u64, u64)> = vec![(1, 1, 1); 9];
    let bound = |v: &Vec<usize>| Span {
        lo: v.iter().map(|&i| s[i].lo).fold(f64::INFINITY, f64::min),
        hi: v.iter().map(|&i| s[i].hi).fold(f64::NEG_INFINITY, f64::max),
    };
    let axis = |_b: &Span| 0usize;
    let input = vec![8, 3, 5, 0, 7, 1, 2, 6, 4];
    let t1 = BvhNode::build_with_indexes(input.clone(), &keys, &bound, &axis);
    let t2 = BvhNode::build_with_indexes(input.clone(), &keys, &bound, &axis);
    assert_eq!(shape(&t1), shape(&t2));
    let mut out = vec![];
    leaves(&t1, &mut out);
    assert_eq!(out, vec![vec![8, 3, 5, 0], vec![7, 1, 2, 6, 4]]);
    let leaf = BvhNode::build_with_indexes(vec![4, 2, 3], &keys, &bound, &axis);
    assert_eq!(leaf.indexes, vec![4, 2, 3]);
}

#[test]
fn merge_sort_on_larger_input() {
    let keys: Vec<(u64, u64, u64)> = (0..100u64).map(|i| ((i * 37) % 10, 0, 0)).collect();
    let input: Vec<usize> = (0..100).rev().collect();
    let r = sort_by_axis(&input, &keys, 0);
    let mut expected = input.clone();
    expected.sort_by_key(|&i| keys[i].0);
    assert_eq!(r, expected);
}
