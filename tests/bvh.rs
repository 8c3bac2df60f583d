use std::cell::Cell;
use pathtracer::bvh::{BvhNode, BVH, LEAF_SIZE};

fn items_below(bvh: &BVH, k: usize) -> Vec<usize> {
    match &bvh.nodes[k] {
        BvhNode::Leaf { items } => items.clone(),
        BvhNode::Inner { left, right, axis: _ } => {
            let mut v = items_below(bvh, *left);
            v.extend(items_below(bvh, *right));
            v
        }
    }
}

fn check_structure(bvh: &BVH, keys: &Vec<[u64; 3]>) {
    assert_eq!(bvh.count, keys.len());
    let mut all = items_below(bvh, bvh.root);
    all.sort();
    assert_eq!(all, (0..keys.len()).collect::<Vec<usize>>());
    for (k, node) in bvh.nodes.iter().enumerate() {
        match node {
            BvhNode::Leaf { items } => {
                assert!(!items.is_empty() && items.len() <= LEAF_SIZE);
            }
            BvhNode::Inner { left, right, axis } => {
                assert!(*left < k && *right < k && *axis < 3);
                let l = items_below(bvh, *left);
                let r = items_below(bvh, *right);
                assert!(l.len() + r.len() > LEAF_SIZE);
                assert_eq!(l.len(), (l.len() + r.len()) / 2);
                for a in &l {
                    for b in &r {
                        assert!(keys[*a][*axis] <= keys[*b][*axis]);
                    }
                }
            }
        }
    }
}

fn pseudo_keys(n: usize) -> Vec<[u64; 3]> {
    let mut x: u64 = 12345;
    let mut keys = Vec::new();
    for _ in 0..n {
        let mut k = [0u64; 3];
        for a in 0..3 {
            x = x.wrapping_mul(6364136223846793005).wrapping_add(1442695040888963407);
            k[a] = (x >> 33) % 1000;
        }
        keys.push(k);
    }
    keys
}

fn linear_scan(hits: &Vec<Option<u64>>) -> Option<(usize, u64)> {
    let mut best: Option<(usize, u64)> = None;
    for (i, h) in hits.iter().enumerate() {
        if let Some(t) = h {
            match best {
                Some((_, b)) if *t >= b => {}
                _ => best = Some((i, *t)),
            }
        }
    }
    best
}

#[test]
fn single_primitive_is_one_leaf() {
    let keys = vec![[3, 4, 5]];
    let bvh = BVH::build(&keys);
    assert_eq!(bvh.nodes.len(), 1);
    match &bvh.nodes[bvh.root] {
        BvhNode::Leaf { items } => assert_eq!(items, &vec![0]),
        _ => panic!("expected a leaf"),
    }
    check_structure(&bvh, &keys);
}

#[test]
fn leaf_threshold_keeps_a_flat_list() {
    let keys = pseudo_keys(LEAF_SIZE);
    let bvh = BVH::build(&keys);
    assert_eq!(bvh.nodes.len(), 1);
    check_structure(&bvh, &keys);
    let keys = pseudo_keys(LEAF_SIZE + 1);
    let bvh = BVH::build(&keys);
    assert_eq!(bvh.nodes.len(), 3);
    check_structure(&bvh, &keys);
}

#[test]
fn large_build_is_balanced_and_ordered() {
    for n in [33usize, 64, 100, 257, 1000] {
        let keys = pseudo_keys(n);
        let bvh = BVH::build(&keys);
        check_structure(&bvh, &keys);
    }
}

#[test]
fn descending_keys_are_sorted_before_the_split() {
    let keys: Vec<[u64; 3]> = (0..80u64).map(|i| [80 - i, 80 - i, 80 - i]).collect();
    let bvh = BVH::build(&keys);
    check_structure(&bvh, &keys);
    match &bvh.nodes[bvh.root] {
        BvhNode::Inner { left, .. } => {
            let mut l = items_below(&bvh, *left);
            l.sort();
            assert_eq!(l, (40..80).collect::<Vec<usize>>());
        }
        _ => panic!("expected an inner node"),
    }
}

#[test]
fn equal_keys_still_split() {
    let keys = vec![[7, 7, 7]; 70];
    let bvh = BVH::build(&keys);
    check_structure(&bvh, &keys);
}

#[test]
fn query_matches_linear_scan() {
    let n = 200;
    let keys = pseudo_keys(n);
    let bvh = BVH::build(&keys);
    let boxes = vec![true; bvh.nodes.len()];
    for seed in 0..20u64 {
        let hits: Vec<Option<u64>> = (0..n as u64)
            .map(|i| {
                let v = (i * 2654435761 + seed * 40503) % 97;
                if v % 5 == 0 { Some(v * 13 % 50) } else { None }
            })
            .collect();
        let got = bvh.closest_hit(&boxes, &hits);
        let want = linear_scan(&hits);
        assert_eq!(got.map(|p| p.1), want.map(|p| p.1));
        if let Some((i, t)) = got {
            assert_eq!(hits[i], Some(t));
        }
    }
}

#[test]
fn query_with_no_hits_is_none() {
    let keys = pseudo_keys(90);
    let bvh = BVH::build(&keys);
    let boxes = vec![true; bvh.nodes.len()];
    let hits = vec![None; 90];
    assert_eq!(bvh.closest_hit(&boxes, &hits), None);
}

#[test]
fn missed_boxes_prune_their_subtrees() {
    let n = 100;
    let keys = pseudo_keys(n);
    let bvh = BVH::build(&keys);
    let (left, right) = match &bvh.nodes[bvh.root] {
        BvhNode::Inner { left, right, .. } => (*left, *right),
        _ => panic!("expected an inner node"),
    };
    let mut hits: Vec<Option<u64>> = vec![None; n];
    for i in items_below(&bvh, right) {
        hits[i] = Some(10 + i as u64);
    }
    let mut boxes = vec![true; bvh.nodes.len()];
    if let BvhNode::Inner { .. } = bvh.nodes[left] {
        boxes[left] = false;
    }
    let got = bvh.closest_hit(&boxes, &hits);
    assert_eq!(got.map(|p| p.1), linear_scan(&hits).map(|p| p.1));
    let mut all_missed = vec![true; bvh.nodes.len()];
    all_missed[bvh.root] = false;
    assert_eq!(bvh.closest_hit(&all_missed, &hits), None);
}

#[test]
fn ties_report_the_shared_distance() {
    let keys = pseudo_keys(64);
    let bvh = BVH::build(&keys);
    let boxes = vec![true; bvh.nodes.len()];
    let hits: Vec<Option<u64>> = (0..64).map(|i| if i % 2 == 0 { Some(5) } else { Some(9) }).collect();
    let got = bvh.closest_hit(&boxes, &hits).unwrap();
    assert_eq!(got.1, 5);
    assert_eq!(got.0 % 2, 0);
}

#[test]
fn lazy_query_matches_eager_query() {
    let n = 300;
    let keys = pseudo_keys(n);
    let bvh = BVH::build(&keys);
    let boxes = vec![true; bvh.nodes.len()];
    let hits: Vec<Option<u64>> = (0..n as u64).map(|i| if i % 7 == 3 { Some((i * 31) % 101) } else { None }).collect();
    let lazy = bvh.closest_hit_by(&|k: usize| boxes[k], &|i: usize| hits[i]);
    assert_eq!(lazy, bvh.closest_hit(&boxes, &hits));
    assert_eq!(lazy.map(|p| p.1), linear_scan(&hits).map(|p| p.1));
}

#[test]
fn lazy_query_skips_pruned_primitives() {
    let n = 128;
    let keys = pseudo_keys(n);
    let bvh = BVH::build(&keys);
    let (left, right) = match &bvh.nodes[bvh.root] {
        BvhNode::Inner { left, right, .. } => (*left, *right),
        _ => panic!("expected an inner node"),
    };
    let pruned = items_below(&bvh, left);
    let asked = Cell::new(0usize);
    let asked_pruned = Cell::new(false);
    let box_hit = |k: usize| k != left;
    let prim_hit = |i: usize| {
        asked.set(asked.get() + 1);
        if pruned.contains(&i) {
            asked_pruned.set(true);
        }
        Some(i as u64 + 1)
    };
    let got = bvh.closest_hit_by(&box_hit, &prim_hit);
    let lowest_right = items_below(&bvh, right).into_iter().min().unwrap();
    if let BvhNode::Inner { .. } = bvh.nodes[left] {
        assert!(!asked_pruned.get());
        assert_eq!(asked.get(), n - pruned.len());
        assert_eq!(got, Some((lowest_right, lowest_right as u64 + 1)));
    }
}
