use data_strux::algebra::Monoid;
use data_strux::monoids::{Additive, Assign};
use data_strux::segment_tree::SegmentTree;

fn sums(values: &[u64]) -> Vec<Additive> {
    values.iter().map(|&x| Additive(x)).collect()
}

fn naive_sum(values: &[u64], l: usize, r: usize) -> u64 {
    let mut acc: u64 = 0;
    for &x in &values[l..r] {
        acc = acc.wrapping_add(x);
    }
    acc
}

fn naive_first(values: &[Option<u32>], l: usize, r: usize) -> Option<u32> {
    for x in &values[l..r] {
        if x.is_some() {
            return *x;
        }
    }
    None
}

#[test]
fn new_is_filled_with_identity() {
    let tree: SegmentTree<Additive> = SegmentTree::new(5);
    assert_eq!(tree.len(), 5);
    assert!(!tree.is_empty());
    for i in 0..5 {
        assert_eq!(tree.get(i), Additive(0));
    }
    assert_eq!(tree.range_fold(0, 5), Additive(0));
    assert_eq!(tree.all_fold(), Additive(0));
}

#[test]
fn addition_scenario_range_fold() {
    let tree = SegmentTree::from_vec(sums(&[1, 2, 3, 4, 5, 6, 7, 8]));
    assert_eq!(tree.len(), 8);
    assert_eq!(tree.range_fold(2, 5), Additive(12));
    assert_eq!(tree.range_fold(0, 8), Additive(36));
    assert_eq!(tree.all_fold(), Additive(36));
}

#[test]
fn all_fold_after_construction_is_naive_reduction() {
    for n in 1..40usize {
        let values: Vec<u64> = (0..n as u64).map(|i| i * i + 3).collect();
        let from_vec = SegmentTree::from_vec(sums(&values));
        let from_slice = SegmentTree::from_slice(&sums(&values));
        let expected = Additive(naive_sum(&values, 0, n));
        assert_eq!(from_vec.all_fold(), expected);
        assert_eq!(from_slice.all_fold(), expected);
        assert_eq!(from_vec.range_fold(0, n), from_vec.all_fold());
    }
}

#[test]
fn every_range_matches_naive_for_every_size() {
    for n in 1..20usize {
        let values: Vec<u64> = (0..n as u64).map(|i| 7 * i + 1).collect();
        let tree = SegmentTree::from_slice(&sums(&values));
        for l in 0..=n {
            for r in l..=n {
                assert_eq!(tree.range_fold(l, r), Additive(naive_sum(&values, l, r)));
            }
        }
    }
}

#[test]
fn empty_range_folds_to_identity() {
    let tree = SegmentTree::from_vec(sums(&[4, 5, 6]));
    for l in 0..=3 {
        assert_eq!(tree.range_fold(l, l), Additive::id());
    }
}

#[test]
fn set_changes_one_index_only() {
    let values = [3u64, 1, 4, 1, 5, 9, 2];
    let mut tree = SegmentTree::from_vec(sums(&values));
    let before: Vec<Vec<Additive>> =
        (0..=7).map(|l| (l..=7).map(|r| tree.range_fold(l, r)).collect()).collect();
    tree.set(3, Additive(100));
    assert_eq!(tree.get(3), Additive(100));
    assert_eq!(tree.range_fold(3, 4), Additive(100));
    for l in 0..=7usize {
        for r in l..=7usize {
            if r <= 3 || 3 < l {
                assert_eq!(tree.range_fold(l, r), before[l][r - l]);
            }
        }
    }
    assert_eq!(tree.range_fold(0, 7), Additive(3 + 1 + 4 + 100 + 5 + 9 + 2));
}

#[test]
fn operate_combines_on_the_right() {
    let mut tree = SegmentTree::from_vec(sums(&[1, 2, 3]));
    tree.operate(1, Additive(40));
    assert_eq!(tree.get(1), Additive(42));
    assert_eq!(tree.range_fold(0, 3), Additive(46));

    let mut firsts = SegmentTree::from_vec(vec![Assign(None), Assign(Some(2u32)), Assign(None)]);
    firsts.operate(0, Assign(Some(9)));
    firsts.operate(1, Assign(Some(7)));
    assert_eq!(firsts.get(0), Assign(Some(9)));
    assert_eq!(firsts.get(1), Assign(Some(2)));
}

#[test]
fn fold_keeps_left_to_right_order() {
    for n in 1..24usize {
        let values: Vec<Option<u32>> =
            (0..n as u32).map(|i| if i % 3 == 1 { Some(i) } else { None }).collect();
        let tree = SegmentTree::from_vec(values.iter().map(|&x| Assign(x)).collect());
        for l in 0..=n {
            for r in l..=n {
                assert_eq!(tree.range_fold(l, r), Assign(naive_first(&values, l, r)));
            }
        }
    }
}

#[test]
fn root_aggregate_of_a_power_of_two_is_ordered() {
    let values = [Some(5u32), None, Some(7), Some(8)];
    let tree = SegmentTree::from_vec(values.iter().map(|&x| Assign(x)).collect());
    assert_eq!(tree.all_fold(), Assign(Some(5)));
    assert_eq!(tree.all_fold(), tree.range_fold(0, 4));
}

#[test]
fn root_aggregate_starts_at_the_deeper_leaves() {
    // Three values: the last two lie one level deeper than the first.
    let values = [Some(1u32), Some(2), Some(3)];
    let tree = SegmentTree::from_vec(values.iter().map(|&x| Assign(x)).collect());
    assert_eq!(tree.range_fold(0, 3), Assign(Some(1)));
    assert_eq!(tree.all_fold(), Assign(Some(2)));
}

#[test]
fn single_value_tree() {
    let mut tree = SegmentTree::from_vec(sums(&[11]));
    assert_eq!(tree.len(), 1);
    assert_eq!(tree.get(0), Additive(11));
    assert_eq!(tree.all_fold(), Additive(11));
    assert_eq!(tree.range_fold(0, 1), Additive(11));
    tree.set(0, Additive(5));
    assert_eq!(tree.all_fold(), Additive(5));
}

#[test]
fn sums_wrap_around() {
    let tree = SegmentTree::from_vec(sums(&[u64::MAX, 2]));
    assert_eq!(tree.range_fold(0, 2), Additive(1));
}
