use std::cmp::Ordering;

use data_strux::algebra::{Group, Monoid};
use data_strux::disjoint_set::{Dsu, PotentialDsu};
use data_strux::fenwick_tree::FenwickTree;
use data_strux::geome::{p2, v2, Point2D, Vector2D};
use data_strux::graphia::Csr;
use data_strux::linear::Matrix;
use data_strux::modular::pow_mod;
use data_strux::monoids::{Additive, Min, Residue};
use data_strux::num_theory::{ext_gcd, gcd, is_prime, SieveEratosthenes};
use data_strux::seqenz::{lis, lis_len, Dasg};
use data_strux::sparse_table::SparseTable;

#[test]
fn pow_mod_values() {
    assert_eq!(pow_mod(2, 10, 1000), 24);
    assert_eq!(pow_mod(3, 0, 7), 1);
    assert_eq!(pow_mod(5, 3, 1), 0);
    assert_eq!(pow_mod(0, 0, 5), 1);
    assert_eq!(pow_mod(7, 222, 13), 12);
    assert_eq!(pow_mod(u64::MAX, 2, u64::MAX - 1), 1);
    assert_eq!(pow_mod(2, 64, u64::MAX), 1);
}

#[test]
fn fenwick_prefix_and_range_folds() {
    let values: Vec<u64> = vec![5, 3, 8, 1, 9, 2, 7];
    let tree = FenwickTree::from_vec(values.iter().map(|&x| Additive(x)).collect());
    assert_eq!(tree.len(), 7);
    let mut acc = 0;
    assert_eq!(tree.prefix_fold(0), Additive(0));
    for r in 1..=7 {
        acc += values[r - 1];
        assert_eq!(tree.prefix_fold(r), Additive(acc));
    }
    assert_eq!(tree.all_fold(), Additive(35));
    assert_eq!(tree.range_fold(2, 5), Additive(18));
    assert_eq!(tree.range_fold(3, 3), Additive(0));
    assert_eq!(tree.get(4), Additive(9));
}

#[test]
fn fenwick_updates() {
    let mut tree = FenwickTree::from_slice(&[Additive(1), Additive(2), Additive(3), Additive(4)]);
    tree.operate(1, Additive(10));
    assert_eq!(tree.get(1), Additive(12));
    tree.set(2, Additive(100));
    assert_eq!(tree.get(2), Additive(100));
    assert_eq!(tree.all_fold(), Additive(1 + 12 + 100 + 4));
    tree.push(Additive(6));
    assert_eq!(tree.len(), 5);
    assert_eq!(tree.all_fold(), Additive(123));
    tree.pop();
    tree.pop();
    assert_eq!(tree.len(), 3);
    assert_eq!(tree.all_fold(), Additive(113));
}

#[test]
fn fenwick_grows_from_empty() {
    let mut tree: FenwickTree<Min> = FenwickTree::new(0);
    assert!(tree.is_empty());
    tree.pop();
    assert!(tree.is_empty());
    assert_eq!(tree.all_fold(), Min::id());
    let values = [9u64, 4, 7, 4, 8, 1, 6, 3, 5];
    for (i, &x) in values.iter().enumerate() {
        tree.push(Min(x));
        let best = values[..=i].iter().copied().min().unwrap();
        assert_eq!(tree.all_fold(), Min(best));
    }
    tree.operate(2, Min(0));
    assert_eq!(tree.prefix_fold(2), Min(4));
    assert_eq!(tree.prefix_fold(3), Min(0));
}

#[test]
fn fenwick_new_is_identity() {
    let tree: FenwickTree<Additive> = FenwickTree::new(4);
    assert_eq!(tree.len(), 4);
    assert!(!tree.is_empty());
    assert_eq!(tree.all_fold(), Additive(0));
}

#[test]
fn additive_group_inverse() {
    let a = Additive(5);
    assert_eq!(a.inv().op(&a), Additive::id());
    assert_eq!(a.inv(), Additive(u64::MAX - 4));
}

#[test]
fn dsu_unites_by_size() {
    let mut dsu = Dsu::new(6);
    assert_eq!(dsu.len(), 6);
    assert!(!dsu.is_empty());
    assert_eq!(dsu.num_sets(), 6);
    assert!(!dsu.same(0, 1));
    assert!(dsu.unite(0, 1));
    assert!(!dsu.unite(1, 0));
    assert!(dsu.same(0, 1));
    assert_eq!(dsu.root(1), 0);
    assert_eq!(dsu.num_sets(), 5);
    assert!(dsu.unite(2, 3));
    assert!(dsu.unite(3, 4));
    assert_eq!(dsu.set_size(4), 3);
    assert_eq!(dsu.set_size(0), 2);
    assert!(dsu.unite(0, 4));
    assert_eq!(dsu.root(0), 2);
    assert_eq!(dsu.set_size(1), 5);
    assert_eq!(dsu.num_sets(), 2);
    assert!(!dsu.same(5, 0));
    assert_eq!(dsu.set_size(5), 1);
}

#[test]
fn dsu_empty() {
    let dsu = Dsu::new(0);
    assert!(dsu.is_empty());
    assert_eq!(dsu.num_sets(), 0);
}

#[test]
fn points_and_vectors() {
    let p: Point2D<i64> = Point2D::new(1, 2);
    let q: Point2D<i64> = p2(4i32, -6i32);
    assert_eq!(q.x(), 4);
    assert_eq!(q.y(), -6);
    let v = p.to(q);
    assert_eq!(v.x(), 3);
    assert_eq!(v.y(), -8);
    let w: Vector2D<i64> = v2(2i32, 5i32);
    assert_eq!(v.outer(w), 3 * 5 - (-8) * 2);
    assert_eq!(v.inner(w), 3 * (-8) + 2 * 5);
    let zero: Vector2D<i64> = Vector2D::zero();
    assert_eq!(zero.x(), 0);
    assert_eq!(zero.y(), 0);
    let origin: Point2D<i32> = Point2D::zero();
    assert_eq!(origin.x(), 0);
    assert_eq!(origin.y(), 0);
    assert!(Vector2D::new(1, 2) == Vector2D::new(1, 2));
}

#[test]
fn matrix_shapes() {
    let m = Matrix::from_vec(vec![vec![1u32, 2, 3], vec![4, 5, 6]]);
    assert_eq!(m.h(), 2);
    assert_eq!(m.w(), 3);
    assert!(!m.is_square());
    assert_eq!(m.at(1, 2), 6);
    assert_eq!(m.at(0, 1), 2);
    let rows = [vec![7u32, 8], vec![9, 10]];
    let s = Matrix::from_slice(&rows);
    assert!(s.is_square());
    assert_eq!(s.at(1, 0), 9);
    let f = Matrix::from_flat(3, 1, vec![1u8, 2, 3]);
    assert_eq!(f.h(), 3);
    assert_eq!(f.w(), 1);
    assert_eq!(f.at(2, 0), 3);
}

#[test]
fn gcd_values() {
    assert_eq!(gcd(0, 0), 0);
    assert_eq!(gcd(0, 7), 7);
    assert_eq!(gcd(9, 0), 9);
    assert_eq!(gcd(12, 18), 6);
    assert_eq!(gcd(17, 5), 1);
    assert_eq!(gcd(1 << 40, 1 << 20), 1 << 20);
    assert_eq!(gcd(48, 180), 12);
    assert_eq!(gcd(u64::MAX, u64::MAX), u64::MAX);
    assert_eq!(gcd(u64::MAX, 1 << 63), 1);
    for a in 0..60u64 {
        for b in 0..60u64 {
            let mut best = 0;
            for d in 1..=60 {
                if a % d == 0 && b % d == 0 && (a != 0 || b != 0) {
                    best = d;
                }
            }
            assert_eq!(gcd(a, b), best);
        }
    }
}

#[test]
fn ext_gcd_values() {
    assert_eq!(ext_gcd(0, 0), (0, 0, 0));
    assert_eq!(ext_gcd(0, 5), (5, 0, 1));
    assert_eq!(ext_gcd(0, -5), (5, 0, -1));
    assert_eq!(ext_gcd(7, 0), (7, 1, 0));
    assert_eq!(ext_gcd(-7, 0), (7, -1, 0));
    assert_eq!(ext_gcd(240, 46), (2, -9, 47));
    for a in -40..40i64 {
        for b in -40..40i64 {
            let (g, x, y) = ext_gcd(a, b);
            assert_eq!(g as u64, gcd(a.unsigned_abs(), b.unsigned_abs()));
            assert_eq!(a * x + b * y, g);
        }
    }
    let (g, x, y) = ext_gcd(i64::MAX, i64::MAX - 1);
    assert_eq!(g, 1);
    assert_eq!(i64::MAX as i128 * x as i128 + (i64::MAX - 1) as i128 * y as i128, 1);
}

#[test]
fn sparse_table_range_minimum() {
    for n in 1..40usize {
        let values: Vec<u64> = (0..n as u64).map(|i| (i * 37 + 11) % 23).collect();
        let from_vec = SparseTable::from_vec(values.iter().map(|&x| Min(x)).collect());
        let cells: Vec<Min> = values.iter().map(|&x| Min(x)).collect();
        let from_slice = SparseTable::from_slice(&cells);
        assert_eq!(from_vec.len(), n);
        for l in 0..n {
            for r in l + 1..=n {
                let best = values[l..r].iter().copied().min().unwrap();
                assert_eq!(from_vec.range_fold(l, r), Min(best));
                assert_eq!(from_slice.range_fold(l, r), Min(best));
            }
        }
    }
}

#[test]
fn potential_dsu_tracks_differences() {
    let mut dsu: PotentialDsu<Additive> = PotentialDsu::new(5);
    assert_eq!(dsu.len(), 5);
    assert!(!dsu.is_empty());
    assert_eq!(dsu.num_sets(), 5);
    assert_eq!(dsu.potential(0, 1), None);
    // p(1) = p(0) + 3, p(2) = p(1) + 4, p(4) = p(3) + 10
    assert!(dsu.unite(0, 1, Additive(3)));
    assert!(dsu.unite(1, 2, Additive(4)));
    assert!(dsu.unite(3, 4, Additive(10)));
    assert_eq!(dsu.num_sets(), 2);
    assert_eq!(dsu.potential(0, 2), Some(Additive(7)));
    assert_eq!(dsu.potential(2, 0), Some(Additive(7).inv()));
    assert_eq!(dsu.potential(1, 1), Some(Additive(0)));
    assert_eq!(dsu.potential(2, 3), None);
    assert!(dsu.unite(0, 2, Additive(7)));
    assert!(!dsu.unite(0, 2, Additive(8)));
    // p(3) = p(2) + 1, so p(4) = p(0) + 7 + 1 + 10
    assert!(dsu.unite(2, 3, Additive(1)));
    assert_eq!(dsu.potential(0, 4), Some(Additive(18)));
    assert_eq!(dsu.potential(4, 1), Some(Additive(15).inv()));
    assert_eq!(dsu.set_size(4), 5);
    assert_eq!(dsu.num_sets(), 1);
    let (root, offset) = dsu.root(4);
    assert_eq!(dsu.root(root), (root, Additive(0)));
    assert_eq!(dsu.potential(root, 4), Some(offset));
}

fn residues(rows: &[&[u64]]) -> Matrix<Residue> {
    Matrix::from_vec(rows.iter().map(|row| row.iter().map(|&x| Residue(x)).collect()).collect())
}

fn entries_of(m: &Matrix<Residue>) -> Vec<Vec<u64>> {
    m.iter().iter().map(|row| row.iter().map(|x| x.0).collect()).collect()
}

#[test]
fn matrix_rows() {
    let m = residues(&[&[1, 2, 3], &[4, 5, 6]]);
    assert_eq!(m.row(1), &[Residue(4), Residue(5), Residue(6)]);
    assert_eq!(entries_of(&m), vec![vec![1, 2, 3], vec![4, 5, 6]]);
    let z: Matrix<Residue> = Matrix::zero(2, 2);
    assert_eq!(entries_of(&z), vec![vec![0, 0], vec![0, 0]]);
    let e: Matrix<Residue> = Matrix::id(3);
    assert_eq!(entries_of(&e), vec![vec![1, 0, 0], vec![0, 1, 0], vec![0, 0, 1]]);
    assert_eq!(entries_of(&m.clone()), entries_of(&m));
}

#[test]
fn matrix_product() {
    let a = residues(&[&[1, 2, 3], &[4, 5, 6]]);
    let b = residues(&[&[7, 8], &[9, 10], &[11, 12]]);
    let c = a * b;
    assert_eq!(c.h(), 2);
    assert_eq!(c.w(), 2);
    assert_eq!(entries_of(&c), vec![vec![58, 64], vec![139, 154]]);
    let big = residues(&[&[u64::MAX]]) * residues(&[&[2]]);
    assert_eq!(entries_of(&big), vec![vec![u64::MAX - 1]]);
}

#[test]
fn matrix_sum_difference_negation() {
    let a = residues(&[&[1, 2], &[3, 4]]);
    let b = residues(&[&[10, 20], &[30, 40]]);
    assert_eq!(entries_of(&(a.clone() + b.clone())), vec![vec![11, 22], vec![33, 44]]);
    assert_eq!(entries_of(&(b.clone() - a.clone())), vec![vec![9, 18], vec![27, 36]]);
    assert_eq!(entries_of(&(a.clone() - b)), vec![
        vec![u64::MAX - 8, u64::MAX - 17],
        vec![u64::MAX - 26, u64::MAX - 35],
    ]);
    assert_eq!(entries_of(&(-a.clone())), vec![
        vec![u64::MAX, u64::MAX - 1],
        vec![u64::MAX - 2, u64::MAX - 3],
    ]);
    // A shorter right-hand side only reaches the leading entries.
    let short = residues(&[&[100, 100, 100]]);
    assert_eq!(entries_of(&(a + short)), vec![vec![101, 102], vec![103, 4]]);
}

#[test]
fn matrix_power() {
    let fib = residues(&[&[1, 1], &[1, 0]]);
    assert_eq!(entries_of(&fib.pow(0)), vec![vec![1, 0], vec![0, 1]]);
    assert_eq!(entries_of(&fib.pow(1)), vec![vec![1, 1], vec![1, 0]]);
    assert_eq!(entries_of(&fib.pow(10)), vec![vec![89, 55], vec![55, 34]]);
    assert_eq!(entries_of(&fib.pow(90))[0][1], 2880067194370816120);
}

#[test]
fn vectors_order_by_argument() {
    // Counter-clockwise from the positive x-axis.
    let around: Vec<Vector2D<i64>> = vec![
        Vector2D::new(1, 0),
        Vector2D::new(2, 1),
        Vector2D::new(0, 3),
        Vector2D::new(-1, 1),
        Vector2D::new(-4, 0),
        Vector2D::new(-1, -1),
        Vector2D::new(0, -2),
        Vector2D::new(3, -1),
    ];
    for i in 0..around.len() {
        for j in 0..around.len() {
            assert_eq!(around[i].arg_cmp_unsigned(&around[j]), i.cmp(&j));
        }
    }
    // From just above the negative x-axis, which comes last, around to it.
    let signed: Vec<Vector2D<i64>> = vec![
        Vector2D::new(-1, -1),
        Vector2D::new(0, -2),
        Vector2D::new(3, -1),
        Vector2D::new(1, 0),
        Vector2D::new(2, 1),
        Vector2D::new(0, 3),
        Vector2D::new(-1, 1),
        Vector2D::new(-4, 0),
    ];
    for i in 0..signed.len() {
        for j in 0..signed.len() {
            assert_eq!(signed[i].arg_cmp_signed(&signed[j]), i.cmp(&j));
        }
    }
    assert_eq!(Vector2D::new(1i64, 1).arg_cmp_unsigned(&Vector2D::new(5, 5)), Ordering::Equal);
    assert_eq!(Vector2D::new(1i64, 1).arg_cmp_signed(&Vector2D::new(5, 5)), Ordering::Equal);
}

#[test]
fn csr_directed() {
    let edges = [(0usize, 1usize, 'a'), (2, 0, 'b'), (0, 2, 'c'), (1, 1, 'd'), (0, 1, 'e')];
    let g = Csr::from_directed_weighted(4, &edges);
    assert_eq!(g.num_vertices(), 4);
    assert_eq!(g.num_edges(), 5);
    assert_eq!(g.adj(0), &[(1, 'a'), (2, 'c'), (1, 'e')]);
    assert_eq!(g.adj(1), &[(1, 'd')]);
    assert_eq!(g.adj(2), &[(0, 'b')]);
    assert_eq!(g.adj(3), &[]);
    assert_eq!(g.deg(0), 3);
    assert_eq!(g.deg(3), 0);
    let r = g.reverse();
    assert_eq!(r.num_vertices(), 4);
    assert_eq!(r.num_edges(), 5);
    assert_eq!(r.adj(0), &[(2, 'b')]);
    assert_eq!(r.adj(1), &[(0, 'a'), (0, 'e'), (1, 'd')]);
    assert_eq!(r.adj(2), &[(0, 'c')]);
    assert_eq!(r.adj(3), &[]);
}

#[test]
fn csr_undirected() {
    let edges = [(0usize, 1usize, 5u32), (1, 2, 6), (2, 2, 7)];
    let g = Csr::from_undirected_weighted(3, &edges);
    assert_eq!(g.num_edges(), 6);
    assert_eq!(g.adj(0), &[(1, 5)]);
    assert_eq!(g.adj(1), &[(0, 5), (2, 6)]);
    assert_eq!(g.adj(2), &[(1, 6), (2, 7), (2, 7)]);
}

#[test]
fn csr_unweighted_and_empty() {
    let g = Csr::from_directed_unweighted(3, &[(2, 1), (2, 0)]);
    assert_eq!(g.adj(2), &[(1, ()), (0, ())]);
    assert_eq!(g.deg(0), 0);
    let u = Csr::from_undirected_unweighted(2, &[(0, 1)]);
    assert_eq!(u.adj(0), &[(1, ())]);
    assert_eq!(u.adj(1), &[(0, ())]);
    let e = Csr::from_directed_unweighted(0, &[]);
    assert_eq!(e.num_vertices(), 0);
    assert_eq!(e.num_edges(), 0);
    let lonely: Csr<u8> = Csr::from_directed_weighted(2, &[]);
    assert_eq!(lonely.deg(1), 0);
}

#[test]
fn is_prime_small_numbers() {
    let primes = [2u64, 3, 5, 7, 11, 13, 17, 19, 23, 29, 31, 37, 41, 43, 47, 53, 59, 61, 67, 71];
    for n in 0..=72u64 {
        assert_eq!(is_prime(n), primes.contains(&n));
    }
    for n in 2..3000u64 {
        let mut naive = true;
        let mut d = 2;
        while d * d <= n {
            if n % d == 0 {
                naive = false;
            }
            d += 1;
        }
        assert_eq!(is_prime(n), naive);
    }
}

#[test]
fn is_prime_large_numbers() {
    assert!(is_prime(2_147_483_647));
    assert!(is_prime(4_294_967_291));
    assert!(is_prime(10_000_000_019));
    assert!(!is_prime(4_759_123_141));
    assert!(is_prime(998_244_353));
    assert!(is_prime(1_000_000_007));
    assert!(!is_prime(1_000_000_007 * 3));
    assert!(is_prime(18_446_744_073_709_551_557));
    assert!(!is_prime(18_446_744_073_709_551_615));
    // Strong pseudoprimes to base two, and a Carmichael number.
    assert!(!is_prime(2047));
    assert!(!is_prime(3_215_031_751));
    assert!(!is_prime(561));
    assert!(!is_prime(3_825_123_056_546_413_051));
}

#[test]
fn sieve_matches_trial_division() {
    for n in 1..400usize {
        let sieve = SieveEratosthenes::new(n);
        assert_eq!(sieve.len(), n);
        let mut expected = Vec::new();
        for m in 0..=n {
            let mut naive = m >= 2;
            let mut d = 2;
            while d * d <= m {
                if m % d == 0 {
                    naive = false;
                }
                d += 1;
            }
            assert_eq!(sieve.is_prime(m), naive);
            if naive {
                expected.push(m);
            }
        }
        assert_eq!(sieve.count_primes(), expected.len());
        assert_eq!(sieve.primes(), expected);
    }
}

#[test]
fn sieve_counts() {
    assert_eq!(SieveEratosthenes::new(1).count_primes(), 0);
    assert_eq!(SieveEratosthenes::new(2).primes(), vec![2]);
    assert_eq!(SieveEratosthenes::new(100).count_primes(), 25);
    assert_eq!(SieveEratosthenes::new(1_000_000).count_primes(), 78_498);
    let sieve = SieveEratosthenes::new(127);
    assert!(sieve.is_prime(127));
    let sieve = SieveEratosthenes::new(128);
    assert!(sieve.is_prime(127));
    assert!(!sieve.is_prime(128));
    let sieve = SieveEratosthenes::new(129);
    assert!(!sieve.is_prime(129));
    let sieve = SieveEratosthenes::new(10_000);
    for m in 0..=10_000u64 {
        assert_eq!(sieve.is_prime(m as usize), is_prime(m));
    }
}

fn naive_lis_len(a: &[i64]) -> usize {
    let mut best = vec![0usize; a.len()];
    let mut top = 0;
    for i in 0..a.len() {
        best[i] = 1;
        for j in 0..i {
            if a[j] < a[i] && best[j] + 1 > best[i] {
                best[i] = best[j] + 1;
            }
        }
        if best[i] > top {
            top = best[i];
        }
    }
    top
}

#[test]
fn lis_values() {
    assert_eq!(lis_len::<i64>(&[]), 0);
    assert_eq!(lis::<i64>(&[]), Vec::<usize>::new());
    assert_eq!(lis_len(&[5i64]), 1);
    assert_eq!(lis(&[5i64]), vec![0]);
    assert_eq!(lis_len(&[3i64, 1, 4, 1, 5, 9, 2, 6]), 4);
    assert_eq!(lis_len(&[2i64, 2, 2]), 1);
    assert_eq!(lis_len(&[9i64, 8, 7, 1]), 1);
    assert_eq!(lis_len(&[1i64, 2, 3, 4]), 4);
    assert_eq!(lis(&[1i64, 2, 3, 4]), vec![0, 1, 2, 3]);
    assert_eq!(lis(&[10i64, 1, 11, 2, 3]), vec![1, 3, 4]);
}

#[test]
fn lis_matches_quadratic_search() {
    let mut seed: u64 = 2024;
    let mut next = move |bound: u64| -> u64 {
        seed = seed.wrapping_mul(6364136223846793005).wrapping_add(1442695040888963407);
        (seed >> 33) % bound
    };
    for n in 0..40usize {
        for _ in 0..20 {
            let a: Vec<i64> = (0..n).map(|_| next(15) as i64 - 7).collect();
            let len = lis_len(&a);
            assert_eq!(len, naive_lis_len(&a));
            let picked = lis(&a);
            assert_eq!(picked.len(), len);
            for w in picked.windows(2) {
                assert!(w[0] < w[1]);
                assert!(a[w[0]] < a[w[1]]);
            }
        }
    }
}

fn naive_subsequence(t: &[usize], s: &[usize]) -> bool {
    let mut at = 0;
    for &c in t {
        while at < s.len() && s[at] != c {
            at += 1;
        }
        if at == s.len() {
            return false;
        }
        at += 1;
    }
    true
}

#[test]
fn dasg_contains() {
    let text = [0usize, 2, 1, 0, 2];
    let dasg: Dasg<3> = Dasg::from_slice(&text);
    assert_eq!(dasg.len(), 5);
    assert!(!dasg.is_empty());
    assert!(dasg.contains(&[]));
    assert!(dasg.contains(&[0, 1, 2]));
    assert!(dasg.contains(&[0, 2, 1, 0, 2]));
    assert!(dasg.contains(&[2, 2]));
    assert!(!dasg.contains(&[1, 1]));
    assert!(!dasg.contains(&[2, 1, 2, 0]));
    assert!(!dasg.contains(&[0, 2, 1, 0, 2, 0]));
    for a in 0..3 {
        for b in 0..3 {
            for c in 0..3 {
                for d in 0..3 {
                    let t = [a, b, c, d];
                    for len in 0..=4 {
                        assert_eq!(dasg.contains(&t[..len]), naive_subsequence(&t[..len], &text));
                    }
                }
            }
        }
    }
}

#[test]
fn dasg_of_the_empty_string() {
    let dasg: Dasg<2> = Dasg::from_slice(&[]);
    assert!(dasg.is_empty());
    assert!(dasg.contains(&[]));
    assert!(!dasg.contains(&[0]));
    let none: Dasg<0> = Dasg::from_slice(&[]);
    assert_eq!(none.len(), 0);
    assert!(none.contains(&[]));
}

fn all_subsequences(s: &[usize], k: usize) -> Vec<Vec<usize>> {
    let mut out = Vec::new();
    for mask in 0u32..(1 << s.len()) {
        if mask.count_ones() as usize == k {
            out.push((0..s.len()).filter(|&i| mask >> i & 1 == 1).map(|i| s[i]).collect());
        }
    }
    out
}

#[test]
fn dasg_smallest_and_greatest_subsequence() {
    let text = [1usize, 3, 0, 2, 3, 1, 0, 2];
    let dasg: Dasg<4> = Dasg::from_slice(&text);
    assert_eq!(dasg.min_subsequence(0), Some(vec![]));
    assert_eq!(dasg.max_subsequence(0), Some(vec![]));
    assert_eq!(dasg.min_subsequence(9), None);
    assert_eq!(dasg.max_subsequence(9), None);
    assert_eq!(dasg.min_subsequence(8), Some(text.to_vec()));
    assert_eq!(dasg.max_subsequence(8), Some(text.to_vec()));
    assert_eq!(dasg.min_subsequence(3), Some(vec![0, 0, 2]));
    assert_eq!(dasg.max_subsequence(3), Some(vec![3, 3, 2]));
    for k in 0..=8 {
        let all = all_subsequences(&text, k);
        assert_eq!(dasg.min_subsequence(k), all.iter().min().cloned());
        assert_eq!(dasg.max_subsequence(k), all.iter().max().cloned());
    }
}

fn distinct_subsequences(s: &[usize]) -> Vec<Vec<usize>> {
    let mut all = Vec::new();
    for k in 0..=s.len() {
        all.extend(all_subsequences(s, k));
    }
    all.sort();
    all.dedup();
    all
}

#[test]
fn dasg_counts_and_ranks() {
    let text = [1usize, 0, 1, 2, 0];
    let dasg: Dasg<3> = Dasg::from_slice(&text);
    let all = distinct_subsequences(&text);
    assert_eq!(dasg.count(), all.len());
    for k in 0..=6 {
        let of_len = all.iter().filter(|t| t.len() == k).count();
        assert_eq!(dasg.count_len(k), of_len);
    }
    for (rank, t) in all.iter().enumerate() {
        assert_eq!(dasg.kth(rank), Some(t.clone()));
    }
    assert_eq!(dasg.kth(all.len()), None);
    assert_eq!(dasg.kth(usize::MAX), None);
    let empty: Dasg<3> = Dasg::from_slice(&[]);
    assert_eq!(empty.count(), 1);
    assert_eq!(empty.count_len(0), 1);
    assert_eq!(empty.count_len(1), 0);
    assert_eq!(empty.kth(0), Some(vec![]));
    assert_eq!(empty.kth(1), None);
}

#[test]
fn dasg_counts_are_capped() {
    // Sixty-four repetitions of two symbols have more than 2^64 distinct
    // subsequences.
    let text: Vec<usize> = (0..200).map(|i| i % 2).collect();
    let dasg: Dasg<2> = Dasg::from_slice(&text);
    assert_eq!(dasg.count(), usize::MAX);
    assert_eq!(dasg.count_len(1), 2);
    assert_eq!(dasg.count_len(2), 4);
    assert_eq!(dasg.kth(1), Some(vec![0]));
}
