use data_strux::graphia::scc::kosaraju;
use data_strux::graphia::Csr;

#[test]
fn kosaraju_numbers_components_along_the_arcs() {
    let g = Csr::from_directed_unweighted(6, &[(0, 1), (1, 2), (2, 0), (2, 3), (3, 4), (4, 3)]);
    assert_eq!(kosaraju(&g), vec![1, 1, 1, 2, 2, 0]);
    let g = Csr::from_directed_unweighted(
        8,
        &[(0, 1), (1, 2), (2, 3), (3, 0), (2, 4), (4, 5), (5, 6), (6, 4), (7, 6), (7, 7)],
    );
    assert_eq!(kosaraju(&g), vec![1, 1, 1, 1, 2, 2, 2, 0]);
}

#[test]
fn kosaraju_of_graphs_without_cycles() {
    let chain = Csr::from_directed_unweighted(4, &[(3, 2), (2, 1), (1, 0)]);
    assert_eq!(kosaraju(&chain), vec![3, 2, 1, 0]);
    let scattered = Csr::from_directed_unweighted(3, &[]);
    assert_eq!(kosaraju(&scattered), vec![2, 1, 0]);
    let none = Csr::from_directed_unweighted(0, &[]);
    assert_eq!(kosaraju(&none), Vec::<usize>::new());
}

#[test]
fn kosaraju_of_an_undirected_graph_gives_connected_components() {
    let g = Csr::from_undirected_unweighted(5, &[(0, 1), (1, 2), (3, 4)]);
    let comp = kosaraju(&g);
    assert_eq!(comp[0], comp[1]);
    assert_eq!(comp[1], comp[2]);
    assert_eq!(comp[3], comp[4]);
    assert_ne!(comp[0], comp[3]);
    let mut numbers = comp.clone();
    numbers.sort();
    numbers.dedup();
    assert_eq!(numbers, vec![0, 1]);
}

#[test]
fn kosaraju_matches_mutual_reachability() {
    let n = 30usize;
    let mut edges = Vec::new();
    let mut seed = 12345u64;
    for _ in 0..45 {
        seed = seed.wrapping_mul(6364136223846793005).wrapping_add(1442695040888963407);
        let u = ((seed >> 33) % n as u64) as usize;
        seed = seed.wrapping_mul(6364136223846793005).wrapping_add(1442695040888963407);
        let v = ((seed >> 33) % n as u64) as usize;
        edges.push((u, v));
    }
    let g = Csr::from_directed_unweighted(n, &edges);
    let comp = kosaraju(&g);
    let mut reach = vec![vec![false; n]; n];
    for v in 0..n {
        reach[v][v] = true;
    }
    for &(u, v) in &edges {
        reach[u][v] = true;
    }
    for k in 0..n {
        for i in 0..n {
            for j in 0..n {
                if reach[i][k] && reach[k][j] {
                    reach[i][j] = true;
                }
            }
        }
    }
    let mut largest = 0;
    for u in 0..n {
        largest = largest.max(comp[u]);
        for v in 0..n {
            assert_eq!(comp[u] == comp[v], reach[u][v] && reach[v][u]);
            if reach[u][v] {
                assert!(comp[u] <= comp[v]);
            }
        }
    }
    for c in 0..=largest {
        assert!(comp.contains(&c));
    }
}
