use data_strux::monoids::Assign;
use data_strux::segment_tree::DualSegmentTree;

#[test]
fn assign_scenario_later_assignment_wins() {
    let mut tree: DualSegmentTree<char, Assign<char>> =
        DualSegmentTree::from_vec(vec!['a', 'b', 'c', 'd', 'e', 'f', 'g', 'h']);
    tree.range_apply(0, 4, Assign(Some('X')));
    tree.range_apply(2, 6, Assign(Some('Y')));
    assert_eq!(tree.get(1), 'X');
    assert_eq!(tree.get(3), 'Y');
    assert_eq!(tree.get(5), 'Y');
    assert_eq!(tree.get(0), 'X');
    assert_eq!(tree.get(6), 'g');
    assert_eq!(tree.get(7), 'h');
}

#[test]
fn construction_keeps_values() {
    let values: Vec<u32> = vec![9, 8, 7, 6, 5];
    let mut from_vec: DualSegmentTree<u32, Assign<u32>> = DualSegmentTree::from_vec(values.clone());
    let mut from_slice: DualSegmentTree<u32, Assign<u32>> = DualSegmentTree::from_slice(&values);
    assert_eq!(from_vec.len(), 5);
    assert!(!from_vec.is_empty());
    for i in 0..5 {
        assert_eq!(from_vec.get(i), values[i]);
        assert_eq!(from_slice.get(i), values[i]);
    }
}

#[test]
fn point_apply_after_range_apply() {
    let mut tree: DualSegmentTree<u32, Assign<u32>> = DualSegmentTree::from_vec(vec![0; 6]);
    tree.range_apply(0, 6, Assign(Some(1)));
    tree.apply(2, Assign(Some(5)));
    tree.range_apply(3, 5, Assign(None));
    assert_eq!(tree.get(0), 1);
    assert_eq!(tree.get(2), 5);
    assert_eq!(tree.get(3), 1);
    tree.range_apply(1, 3, Assign(Some(8)));
    assert_eq!(tree.get(1), 8);
    assert_eq!(tree.get(2), 8);
    assert_eq!(tree.get(3), 1);
}

#[test]
fn empty_range_apply_changes_nothing() {
    let mut tree: DualSegmentTree<u32, Assign<u32>> = DualSegmentTree::from_vec(vec![1, 2, 3]);
    for l in 0..=3 {
        tree.range_apply(l, l, Assign(Some(99)));
    }
    for i in 0..3 {
        assert_eq!(tree.get(i), i as u32 + 1);
    }
}

#[test]
fn interleaved_assignments_match_naive_for_every_size() {
    let mut seed: u64 = 12345;
    let mut next = move |bound: usize| -> usize {
        seed = seed.wrapping_mul(6364136223846793005).wrapping_add(1442695040888963407);
        ((seed >> 33) as usize) % bound
    };
    for n in 1..18usize {
        let mut naive: Vec<u32> = (0..n as u32).collect();
        let mut tree: DualSegmentTree<u32, Assign<u32>> = DualSegmentTree::from_vec(naive.clone());
        for step in 0..200u32 {
            let l = next(n + 1);
            let r = l + next(n + 1 - l);
            let f = if next(5) == 0 { Assign(None) } else { Assign(Some(1000 + step)) };
            if next(3) == 0 && l < n {
                tree.apply(l, f);
                if let Some(x) = f.0 {
                    naive[l] = x;
                }
            } else {
                tree.range_apply(l, r, f);
                if let Some(x) = f.0 {
                    for slot in &mut naive[l..r] {
                        *slot = x;
                    }
                }
            }
            let probe = next(n);
            assert_eq!(tree.get(probe), naive[probe]);
        }
        for i in 0..n {
            assert_eq!(tree.get(i), naive[i]);
        }
    }
}
