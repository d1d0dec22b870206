use fsdb_clustering::rng::Rng;
use fsdb_clustering::tables::{align, best_label_permutation, random_pairs};
use std::collections::HashSet;

/// Floating-point draw of a node index, as the scaling experiment states it.
fn float_below(r: &mut Rng, m: usize) -> usize {
    let u = (r.next_u64() >> 11) as f64 * (1.0 / (1u64 << 53) as f64);
    (u * m as f64) as usize % m
}

fn oracle_random_pairs(rng: &mut Rng, n: usize, m: usize) -> Vec<(usize, usize)> {
    let mut set = HashSet::new();
    let mut v = Vec::with_capacity(m);
    while v.len() < m {
        let i = float_below(rng, n);
        let j = float_below(rng, n);
        if i == j {
            continue;
        }
        let p = (i.min(j), i.max(j));
        if set.insert(p) {
            v.push(p);
        }
    }
    v.sort();
    v
}

#[test]
fn random_pairs_matches_hash_set_construction() {
    for (seed, n) in [(260913u64, 100usize), (260914, 20), (3, 7)] {
        let m = std::cmp::min(6 * n, n * (n - 1) / 2);
        let mut a = Rng::new(seed);
        let mut b = Rng::new(seed);
        let got = random_pairs(&mut a, n, m);
        let want = oracle_random_pairs(&mut b, n, m);
        assert_eq!(got, want);
        assert_eq!(a.next_u64(), b.next_u64());
    }
}

#[test]
fn random_pairs_sorted_distinct_in_range() {
    let mut r = Rng::new(1);
    let v = random_pairs(&mut r, 50, 300);
    assert_eq!(v.len(), 300);
    for w in v.windows(2) {
        assert!(w[0] < w[1]);
    }
    for &(i, j) in &v {
        assert!(i < j && j < 50);
    }
}

#[test]
fn random_pairs_all_pairs_of_small_graph() {
    let mut r = Rng::new(8);
    let v = random_pairs(&mut r, 4, 6);
    assert_eq!(v, vec![(0, 1), (0, 2), (0, 3), (1, 2), (1, 3), (2, 3)]);
}

#[test]
fn random_pairs_zero_requested() {
    let mut r = Rng::new(8);
    let mut s = Rng::new(8);
    assert_eq!(random_pairs(&mut r, 5, 0), vec![]);
    assert_eq!(r.next_u64(), s.next_u64());
}

fn next_perm(p: &mut [usize]) -> bool {
    let n = p.len();
    if n < 2 {
        return false;
    }
    let mut i = n - 1;
    while i > 0 && p[i - 1] >= p[i] {
        i -= 1;
    }
    if i == 0 {
        return false;
    }
    let mut j = n - 1;
    while p[j] <= p[i - 1] {
        j -= 1;
    }
    p.swap(i - 1, j);
    p[i..].reverse();
    true
}

fn oracle_best(pred: &[u8], truth: &[u8], n: usize, k: usize) -> Vec<usize> {
    let mut perm: Vec<usize> = (0..k).collect();
    let mut best = perm.clone();
    let mut best_score = -1i64;
    loop {
        let mut sc = 0i64;
        for i in 0..n {
            for c in 0..k {
                if pred[i * k + perm[c]] == 1 && truth[i * k + c] == 1 {
                    sc += 1;
                }
            }
        }
        if sc > best_score {
            best_score = sc;
            best = perm.clone();
        }
        if !next_perm(&mut perm) {
            break;
        }
    }
    best
}

#[test]
fn align_swaps_two_communities() {
    // node 0 in community 0, node 1 in community 1; prediction has them swapped
    let truth = vec![1u8, 0, 0, 1];
    let pred = vec![0u8, 1, 1, 0];
    assert_eq!(best_label_permutation(&pred, &truth, 2, 2), vec![1, 0]);
    assert_eq!(align(&pred, &truth, 2, 2), vec![1, 0, 0, 1]);
}

#[test]
fn align_ties_keep_identity() {
    let truth = vec![0u8, 0, 0, 0, 0, 0];
    let pred = vec![1u8, 0, 1, 0, 1, 1];
    assert_eq!(best_label_permutation(&pred, &truth, 2, 3), vec![0, 1, 2]);
    assert_eq!(align(&pred, &truth, 2, 3), pred);
}

#[test]
fn align_empty_label_set() {
    assert_eq!(align(&[], &[], 3, 0), Vec::<u8>::new());
    assert_eq!(best_label_permutation(&[], &[], 3, 0), Vec::<usize>::new());
}

#[test]
fn align_matches_exhaustive_lexicographic_search() {
    let mut r = Rng::new(77);
    for k in 1..6usize {
        for _ in 0..20 {
            let n = 6;
            let pred: Vec<u8> = (0..n * k).map(|_| (r.next_u64() & 1) as u8).collect();
            let truth: Vec<u8> = (0..n * k).map(|_| (r.next_u64() & 1) as u8).collect();
            let want = oracle_best(&pred, &truth, n, k);
            assert_eq!(best_label_permutation(&pred, &truth, n, k), want);
            let out = align(&pred, &truth, n, k);
            for i in 0..n {
                for c in 0..k {
                    assert_eq!(out[i * k + c], pred[i * k + want[c]]);
                }
            }
        }
    }
}
