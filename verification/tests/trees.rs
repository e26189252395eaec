use data_strux::graphia::tree::{EulerTour, Lca};
use data_strux::graphia::Csr;

fn sample_tree() -> Csr<()> {
    Csr::from_undirected_unweighted(6, &[(0, 1), (0, 2), (1, 3), (1, 4), (2, 5)])
}

fn visit(tree: &Csr<()>, u: usize, p: usize, order: &mut Vec<usize>, size: &mut Vec<usize>) {
    order.push(u);
    let before = order.len();
    for &(c, _) in tree.adj(u).iter().rev() {
        if c != p {
            visit(tree, c, u, order, size);
        }
    }
    size[u] = order.len() - before + 1;
}

#[test]
fn euler_tour_enters_last_neighbour_first() {
    let tree = sample_tree();
    let tour = EulerTour::from_csr(0, &tree);
    assert_eq!(tour.len(), 6);
    let tin: Vec<usize> = (0..6).map(|v| tour.tin(v)).collect();
    let tout: Vec<usize> = (0..6).map(|v| tour.tout(v)).collect();
    assert_eq!(tin, vec![0, 3, 1, 5, 4, 2]);
    assert_eq!(tout, vec![6, 6, 3, 6, 5, 3]);
    assert_eq!(tour.order(), vec![0, 2, 5, 1, 4, 3]);
}

#[test]
fn euler_tour_subtrees() {
    let tree = sample_tree();
    let tour = EulerTour::from_csr(0, &tree);
    let sizes: Vec<usize> = (0..6).map(|v| tour.subtree_size(v)).collect();
    assert_eq!(sizes, vec![6, 3, 2, 1, 1, 1]);
    assert_eq!(tour.subtree(1), 3..6);
    assert_eq!(tour.subtree(2), 1..3);
    assert_eq!(tour.subtree(5), 2..3);
    for v in 0..6 {
        assert!(tour.is_ancestor(0, v));
        assert!(tour.is_ancestor(v, v));
    }
    assert!(tour.is_ancestor(1, 3));
    assert!(tour.is_ancestor(1, 4));
    assert!(tour.is_ancestor(2, 5));
    assert!(!tour.is_ancestor(1, 5));
    assert!(!tour.is_ancestor(3, 1));
    assert!(!tour.is_ancestor(2, 0));
    assert!(!tour.is_ancestor(4, 3));
}

#[test]
fn euler_tour_from_another_root() {
    let tree = sample_tree();
    let tour = EulerTour::from_csr(1, &tree);
    let tin: Vec<usize> = (0..6).map(|v| tour.tin(v)).collect();
    let tout: Vec<usize> = (0..6).map(|v| tour.tout(v)).collect();
    assert_eq!(tin, vec![3, 0, 4, 2, 1, 5]);
    assert_eq!(tout, vec![6, 6, 6, 3, 2, 6]);
    assert_eq!(tour.order(), vec![1, 4, 3, 0, 2, 5]);
    assert!(tour.is_ancestor(0, 5));
    assert!(!tour.is_ancestor(0, 3));
}

#[test]
fn euler_tour_of_a_path_and_of_one_vertex() {
    let path = Csr::from_directed_unweighted(4, &[(2, 0), (0, 3), (3, 1)]);
    let tour = EulerTour::from_csr(2, &path);
    assert_eq!(tour.order(), vec![2, 0, 3, 1]);
    for v in 0..4 {
        assert_eq!(tour.tout(v), 4);
        assert_eq!(tour.subtree_size(v), 4 - tour.tin(v));
    }
    let single = Csr::from_directed_unweighted(1, &[]);
    let tour = EulerTour::from_csr(0, &single);
    assert_eq!(tour.len(), 1);
    assert_eq!(tour.tin(0), 0);
    assert_eq!(tour.tout(0), 1);
    assert_eq!(tour.order(), vec![0]);
}

#[test]
fn euler_tour_matches_recursive_traversal() {
    // A tree in which vertex v > 0 hangs from (7 * v + 3) % v.
    let n = 40usize;
    let mut edges = Vec::new();
    for v in 1..n {
        edges.push(((7 * v + 3) % v, v));
    }
    let tree = Csr::from_undirected_unweighted(n, &edges);
    let root = 0;
    let tour = EulerTour::from_csr(root, &tree);
    let mut order = Vec::new();
    let mut size = vec![0; n];
    visit(&tree, root, n, &mut order, &mut size);
    assert_eq!(tour.order(), order);
    for v in 0..n {
        assert_eq!(order[tour.tin(v)], v);
        assert_eq!(tour.subtree_size(v), size[v]);
    }
}

#[test]
fn lca_of_a_small_tree() {
    let tree = sample_tree();
    let lca = Lca::from_csr(0, &tree);
    assert_eq!(lca.len(), 6);
    assert_eq!(lca.lca(3, 4), 1);
    assert_eq!(lca.lca(4, 3), 1);
    assert_eq!(lca.lca(3, 5), 0);
    assert_eq!(lca.lca(4, 1), 1);
    assert_eq!(lca.lca(5, 2), 2);
    assert_eq!(lca.lca(1, 2), 0);
    for v in 0..6 {
        assert_eq!(lca.lca(v, v), v);
        assert_eq!(lca.lca(0, v), 0);
        assert_eq!(lca.dist(v, v), 0);
    }
    let depths: Vec<usize> = (0..6).map(|v| lca.depth(v)).collect();
    assert_eq!(depths, vec![0, 1, 1, 2, 2, 2]);
    assert_eq!(lca.dist(3, 4), 2);
    assert_eq!(lca.dist(3, 5), 4);
    assert_eq!(lca.dist(0, 5), 2);
    assert_eq!(lca.dist(1, 3), 1);
}

#[test]
fn lca_from_another_root_and_of_one_vertex() {
    let tree = sample_tree();
    let lca = Lca::from_csr(3, &tree);
    let depths: Vec<usize> = (0..6).map(|v| lca.depth(v)).collect();
    assert_eq!(depths, vec![2, 1, 3, 0, 2, 4]);
    assert_eq!(lca.lca(4, 5), 1);
    assert_eq!(lca.lca(0, 2), 0);
    assert_eq!(lca.lca(5, 3), 3);
    assert_eq!(lca.dist(4, 5), 4);
    let single = Csr::from_directed_unweighted(1, &[]);
    let lca = Lca::from_csr(0, &single);
    assert_eq!(lca.len(), 1);
    assert_eq!(lca.lca(0, 0), 0);
    assert_eq!(lca.depth(0), 0);
    assert_eq!(lca.dist(0, 0), 0);
}

#[test]
fn lca_matches_climbing_to_the_root() {
    let n = 60usize;
    let mut parent = vec![0usize; n];
    let mut edges = Vec::new();
    for v in 1..n {
        parent[v] = (11 * v + 5) % v;
        edges.push((v, parent[v]));
    }
    let tree = Csr::from_undirected_unweighted(n, &edges);
    let lca = Lca::from_csr(0, &tree);
    let mut depth = vec![0usize; n];
    for v in 1..n {
        depth[v] = depth[parent[v]] + 1;
    }
    for i in 0..n {
        assert_eq!(lca.depth(i), depth[i]);
        for j in 0..n {
            let (mut a, mut b) = (i, j);
            while a != b {
                if depth[a] >= depth[b] {
                    a = parent[a];
                } else {
                    b = parent[b];
                }
            }
            assert_eq!(lca.lca(i, j), a);
            assert_eq!(lca.dist(i, j), depth[i] + depth[j] - 2 * depth[a]);
        }
    }
}
