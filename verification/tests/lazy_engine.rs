use data_strux::algebra::{Action, Monoid};
use data_strux::monoids::{Additive, Assign, Min, Total};
use data_strux::segment_tree::LazySegmentTree;

fn totals(values: &[u64]) -> Vec<Total> {
    values.iter().map(|&x| Total { sum: x, len: 1 }).collect()
}

fn naive_total(values: &[u64], l: usize, r: usize) -> Total {
    let mut sum: u64 = 0;
    for &x in &values[l..r] {
        sum = sum.wrapping_add(x);
    }
    Total { sum, len: (r - l) as u64 }
}

fn naive_min(values: &[u64], l: usize, r: usize) -> Min {
    let mut best = u64::MAX;
    for &x in &values[l..r] {
        if x < best {
            best = x;
        }
    }
    Min(best)
}

#[test]
fn addition_scenario_range_add() {
    let mut tree: LazySegmentTree<Total, Additive> =
        LazySegmentTree::from_vec(totals(&[1, 2, 3, 4, 5, 6, 7, 8]));
    assert_eq!(tree.range_fold(2, 5).sum, 12);
    tree.range_apply(1, 4, Additive(10));
    assert_eq!(tree.get(2).sum, 13);
    // Indices 1, 2 and 3 each grew by ten.
    assert_eq!(tree.range_fold(0, 8).sum, 66);
    assert_eq!(tree.all_fold(), Total { sum: 66, len: 8 });
}

#[test]
fn lazy_new_is_filled_with_identity() {
    let mut tree: LazySegmentTree<Total, Additive> = LazySegmentTree::new(6);
    assert_eq!(tree.len(), 6);
    assert!(!tree.is_empty());
    assert_eq!(tree.all_fold(), Total::id());
    assert_eq!(tree.get(4), Total::id());
}

#[test]
fn lazy_all_fold_after_construction_is_naive_reduction() {
    for n in 1..40usize {
        let values: Vec<u64> = (0..n as u64).map(|i| 3 * i + 2).collect();
        let mut from_vec: LazySegmentTree<Total, Additive> =
            LazySegmentTree::from_vec(totals(&values));
        let mut from_slice: LazySegmentTree<Total, Additive> =
            LazySegmentTree::from_slice(&totals(&values));
        assert_eq!(from_vec.all_fold(), naive_total(&values, 0, n));
        assert_eq!(from_slice.all_fold(), naive_total(&values, 0, n));
        assert_eq!(from_vec.range_fold(0, n), from_vec.all_fold());
    }
}

#[test]
fn lazy_empty_range_folds_to_identity() {
    let mut tree: LazySegmentTree<Total, Additive> = LazySegmentTree::from_vec(totals(&[4, 5, 6]));
    tree.range_apply(0, 3, Additive(7));
    for l in 0..=3 {
        assert_eq!(tree.range_fold(l, l), Total::id());
    }
}

#[test]
fn lazy_set_changes_one_index_only() {
    let values = [3u64, 1, 4, 1, 5, 9, 2];
    let mut tree: LazySegmentTree<Total, Additive> = LazySegmentTree::from_vec(totals(&values));
    tree.range_apply(1, 6, Additive(2));
    let mut naive: Vec<u64> = vec![3, 3, 6, 3, 7, 11, 2];
    tree.set(3, Total { sum: 100, len: 1 });
    naive[3] = 100;
    assert_eq!(tree.get(3).sum, 100);
    assert_eq!(tree.range_fold(3, 4).sum, 100);
    for l in 0..=7usize {
        for r in l..=7usize {
            assert_eq!(tree.range_fold(l, r), naive_total(&naive, l, r));
        }
    }
}

#[test]
fn lazy_point_operations() {
    let mut tree: LazySegmentTree<Total, Additive> = LazySegmentTree::from_vec(totals(&[1, 2, 3]));
    tree.range_apply(0, 3, Additive(10));
    tree.operate(1, Total { sum: 5, len: 0 });
    assert_eq!(tree.get(1).sum, 17);
    tree.apply(2, Additive(4));
    assert_eq!(tree.get(2).sum, 17);
    assert_eq!(tree.all_fold(), Total { sum: 11 + 17 + 17, len: 3 });
}

#[test]
fn interleaved_operations_match_naive_for_every_size() {
    let mut seed: u64 = 987654321;
    let mut next = move |bound: usize| -> usize {
        seed = seed.wrapping_mul(6364136223846793005).wrapping_add(1442695040888963407);
        ((seed >> 33) as usize) % bound
    };
    for n in 1..20usize {
        let mut naive: Vec<u64> = (0..n as u64).map(|i| i + 1).collect();
        let mut tree: LazySegmentTree<Total, Additive> = LazySegmentTree::from_vec(totals(&naive));
        for _ in 0..300 {
            let l = next(n + 1);
            let r = l + next(n + 1 - l);
            let x = next(1000) as u64;
            match next(5) {
                0 => {
                    if l < n {
                        tree.operate(l, Total { sum: x, len: 0 });
                        naive[l] = naive[l].wrapping_add(x);
                    }
                }
                1 => {
                    if l < n {
                        tree.apply(l, Additive(x));
                        naive[l] = naive[l].wrapping_add(x);
                    }
                }
                2 => {
                    tree.range_apply(l, r, Additive(x));
                    for slot in &mut naive[l..r] {
                        *slot = slot.wrapping_add(x);
                    }
                }
                3 => {
                    if l < n {
                        tree.set(l, Total { sum: x, len: 1 });
                        naive[l] = x;
                    }
                }
                _ => {}
            }
            assert_eq!(tree.range_fold(l, r), naive_total(&naive, l, r));
        }
        for i in 0..n {
            assert_eq!(tree.get(i).sum, naive[i]);
        }
        assert_eq!(tree.all_fold(), naive_total(&naive, 0, n));
    }
}

#[test]
fn later_assignment_wins_under_range_minimum() {
    let mut seed: u64 = 55;
    let mut next = move |bound: usize| -> usize {
        seed = seed.wrapping_mul(6364136223846793005).wrapping_add(1442695040888963407);
        ((seed >> 33) as usize) % bound
    };
    for n in 1..18usize {
        let mut naive: Vec<u64> = (0..n as u64).map(|i| 50 + i).collect();
        let mut tree: LazySegmentTree<Min, Assign<Min>> =
            LazySegmentTree::from_vec(naive.iter().map(|&x| Min(x)).collect());
        for _ in 0..300 {
            let l = next(n + 1);
            let r = l + next(n + 1 - l);
            let x = next(100) as u64;
            if next(2) == 0 {
                tree.range_apply(l, r, Assign(Some(Min(x))));
                for slot in &mut naive[l..r] {
                    *slot = x;
                }
            }
            let a = next(n + 1);
            let b = a + next(n + 1 - a);
            assert_eq!(tree.range_fold(a, b), naive_min(&naive, a, b));
        }
    }
}

#[test]
fn pending_tags_outside_the_boundary_paths_are_respected() {
    // A whole-range action stays at the root; a later fold of an inner range
    // has to see it.
    let mut tree: LazySegmentTree<Total, Additive> =
        LazySegmentTree::from_vec(totals(&[1, 1, 1, 1, 1, 1, 1, 1]));
    tree.range_apply(0, 8, Additive(5));
    tree.range_apply(0, 4, Additive(1));
    assert_eq!(tree.range_fold(2, 6), Total { sum: 7 + 7 + 6 + 6, len: 4 });
    assert_eq!(tree.range_fold(3, 4), Total { sum: 7, len: 1 });
}

#[test]
fn action_laws_on_values() {
    let f = Additive(3);
    let g = Additive(4);
    let s = Total { sum: 10, len: 2 };
    assert_eq!(f.op(&g).act(&s), f.act(&g.act(&s)));
    assert_eq!(Additive::id().act(&s), s);
    let t = Total { sum: 1, len: 5 };
    assert_eq!(f.act(&s.op(&t)), f.act(&s).op(&f.act(&t)));
}
