//! Contraction orders for large networks.

use omeco::{
    contraction_complexity, eincode_complexity, optimize_code, Count, EinCode, GreedyMethod,
    LabelMap, NestedEinsum, Scalar, TreeSA,
};
use petgraph::graph::UnGraph;
use petgraph::visit::EdgeRef;
use rand::rngs::SmallRng;
use rand::seq::SliceRandom;
use rand::{Rng, SeedableRng};
use std::collections::HashSet;

/// Double precision.
#[derive(Debug, Clone, Copy, PartialEq)]
struct F64(f64);

impl Scalar for F64 {
    fn zero() -> Self {
        F64(0.0)
    }

    fn affine(start: u64, step: u64, index: u64) -> Self {
        F64(start as f64 / 100.0 + step as f64 / 100.0 * index as f64)
    }

    fn of_count(count: &Count) -> Self {
        F64(count.digits().iter().rev().fold(0.0, |sum, d| sum * 4294967296.0 + *d as f64))
    }

    fn log2_of(size: usize) -> Self {
        F64((size as f64).log2())
    }

    fn log2(a: &Self) -> Self {
        F64(a.0.log2())
    }

    fn exp2(a: &Self) -> Self {
        F64(a.0.exp2())
    }

    fn exp(a: &Self) -> Self {
        F64(a.0.exp())
    }

    fn negated(a: &Self) -> Self {
        F64(-a.0)
    }

    fn plus(a: &Self, b: &Self) -> Self {
        F64(a.0 + b.0)
    }

    fn minus(a: &Self, b: &Self) -> Self {
        F64(a.0 - b.0)
    }

    fn times(a: &Self, b: &Self) -> Self {
        F64(a.0 * b.0)
    }

    fn quotient(a: &Self, b: &Self) -> Self {
        F64(a.0 / b.0)
    }

    fn maximum(a: &Self, b: &Self) -> Self {
        F64(a.0.max(b.0))
    }

    fn log2_sum_exp2(a: &Self, b: &Self) -> Self {
        let (high, low) = (a.0.max(b.0), a.0.min(b.0));
        F64(high + (1.0 + (low - high).exp2()).log2())
    }

    fn less(a: &Self, b: &Self) -> bool {
        a.0 < b.0
    }

    fn unit(rng: &mut SmallRng) -> Self {
        F64(rng.random())
    }
}

type Annealing = TreeSA<F64>;
type Greedy = GreedyMethod<F64>;

fn log2(count: &Count) -> f64 {
    F64::of_count(count).0.log2()
}

fn twos(labels: std::ops::RangeInclusive<usize>) -> LabelMap<usize> {
    let mut map = LabelMap::new();
    for label in labels {
        map.insert(label, 2);
    }
    map
}

/// The edges of the truncated icosahedron, by the coordinates of its corners.
fn fullerene_edges() -> Vec<(usize, usize)> {
    let golden = (1.0 + 5.0_f64.sqrt()) / 2.0;
    let shapes = [
        [0.0, 1.0, 3.0 * golden],
        [1.0, 2.0 + golden, 2.0 * golden],
        [golden, 2.0, 2.0 * golden + 1.0],
    ];
    let mut corners: Vec<[f64; 3]> = vec![];
    for shape in shapes {
        for signs in 0..8 {
            let mut point = shape;
            for (k, x) in point.iter_mut().enumerate() {
                if signs >> k & 1 == 1 {
                    *x = -*x;
                }
            }
            for turn in 0..3 {
                let turned = [point[turn], point[(turn + 1) % 3], point[(turn + 2) % 3]];
                let new = corners.iter().all(|c| {
                    c.iter().zip(turned.iter()).any(|(x, y)| (x - y).abs() > 1e-9)
                });
                if new {
                    corners.push(turned);
                }
            }
        }
    }
    let mut edges = vec![];
    for i in 0..corners.len() {
        for j in i + 1..corners.len() {
            let square: f64 =
                corners[i].iter().zip(corners[j].iter()).map(|(x, y)| (x - y) * (x - y)).sum();
            if (square - 4.0).abs() < 1e-9 {
                edges.push((i + 1, j + 1));
            }
        }
    }
    edges
}

/// The edges of the Tutte graph.
fn tutte_edges() -> Vec<(usize, usize)> {
    let neighbours: [(usize, &[usize]); 42] = [
        (0, &[1, 2, 3]),
        (1, &[4, 26]),
        (2, &[10, 11]),
        (3, &[18, 19]),
        (4, &[5, 33]),
        (5, &[6, 29]),
        (6, &[7, 27]),
        (7, &[8, 14]),
        (8, &[9, 38]),
        (9, &[10, 37]),
        (10, &[39]),
        (11, &[12, 39]),
        (12, &[13, 35]),
        (13, &[14, 15]),
        (14, &[34]),
        (15, &[16, 22]),
        (16, &[17, 44]),
        (17, &[18, 43]),
        (18, &[45]),
        (19, &[20, 45]),
        (20, &[21, 41]),
        (21, &[22, 23]),
        (22, &[40]),
        (23, &[24, 27]),
        (24, &[25, 32]),
        (25, &[26, 31]),
        (26, &[33]),
        (27, &[28]),
        (28, &[29, 32]),
        (29, &[30]),
        (30, &[31, 33]),
        (31, &[32]),
        (34, &[35, 38]),
        (35, &[36]),
        (36, &[37, 39]),
        (37, &[38]),
        (40, &[41, 44]),
        (41, &[42]),
        (42, &[43, 45]),
        (43, &[44]),
        (44, &[]),
        (45, &[]),
    ];
    let mut edges = vec![];
    for (v, ends) in neighbours {
        for w in ends {
            edges.push((v + 1, w + 1));
        }
    }
    edges
}

/// The edges of the Petersen graph: two rings of five, the inner one as a star.
fn petersen_edges() -> Vec<(usize, usize)> {
    let mut edges = vec![];
    for k in 0..5 {
        edges.push((k + 1, (k + 1) % 5 + 1));
        edges.push((k + 1, k + 6));
        edges.push((k + 6, (k + 2) % 5 + 6));
    }
    edges
}

#[test]
fn test_named_graphs_are_cubic() {
    for (n, edges) in [(60, fullerene_edges()), (46, tutte_edges()), (10, petersen_edges())] {
        assert_eq!(edges.len(), n * 3 / 2);
        for v in 1..=n {
            assert_eq!(edges.iter().filter(|(a, b)| *a == v || *b == v).count(), 3);
        }
    }
}

/// Generate a random k-regular graph with n vertices.
/// Uses a greedy edge-swapping algorithm that guarantees exactly k-regularity.
fn generate_random_regular_graph(n: usize, k: usize, seed: u64) -> UnGraph<(), ()> {
    let mut rng = rand::rngs::StdRng::seed_from_u64(seed);
    let mut graph = UnGraph::new_undirected();

    // Add vertices
    for _ in 0..n {
        graph.add_node(());
    }

    // For k-regular graph: each vertex needs exactly k edges
    // Total edges = n*k/2 (each edge counted twice)
    assert!(n * k % 2 == 0, "n*k must be even for k-regular graph");

    // Use configuration model with retry
    let target_edges = (n * k) / 2;
    let mut edges: HashSet<(usize, usize)> = HashSet::new();
    let mut degrees = vec![0usize; n];

    // Greedy construction: repeatedly add edges between vertices with lowest degree
    let max_outer_attempts = 20;
    for _attempt in 0..max_outer_attempts {
        edges.clear();
        degrees.fill(0);

        // Build edges greedily
        for _ in 0..target_edges * 10 {
            // Find vertices that still need edges
            let mut candidates: Vec<usize> = (0..n).filter(|&v| degrees[v] < k).collect();

            if candidates.len() < 2 {
                break;
            }

            // Try random pairs
            for _ in 0..100 {
                if candidates.len() < 2 {
                    break;
                }
                let i = rng.random_range(0..candidates.len());
                let u = candidates[i];
                candidates.swap_remove(i);

                if candidates.is_empty() {
                    break;
                }

                // Find a valid partner for u
                let valid_partners: Vec<usize> = candidates
                    .iter()
                    .filter(|&&v| {
                        let edge = (u.min(v), u.max(v));
                        !edges.contains(&edge) && degrees[v] < k
                    })
                    .copied()
                    .collect();

                if valid_partners.is_empty() {
                    continue;
                }

                let j = rng.random_range(0..valid_partners.len());
                let v = valid_partners[j];

                let edge = (u.min(v), u.max(v));
                edges.insert(edge);
                degrees[u] += 1;
                degrees[v] += 1;

                // Remove v from candidates if it's now full
                if degrees[v] >= k {
                    if let Some(pos) = candidates.iter().position(|&x| x == v) {
                        candidates.swap_remove(pos);
                    }
                }

                break;
            }

            if edges.len() >= target_edges {
                break;
            }
        }

        // Check if we got a valid k-regular graph
        if edges.len() == target_edges && degrees.iter().all(|&d| d == k) {
            // Success! Add edges to graph
            for (u, v) in &edges {
                graph.add_edge(
                    petgraph::graph::NodeIndex::new(*u),
                    petgraph::graph::NodeIndex::new(*v),
                    (),
                );
            }
            return graph;
        }
    }

    // Fallback: build a near-regular graph by connecting vertices greedily
    // This ensures we always return a connected graph even if not perfectly k-regular
    edges.clear();
    degrees.fill(0);

    let mut available: Vec<usize> = (0..n).collect();
    available.shuffle(&mut rng);

    for (i, &u) in available.iter().enumerate() {
        for &v in available.iter().skip(i + 1) {
            if degrees[u] < k && degrees[v] < k {
                let edge = (u.min(v), u.max(v));
                if !edges.contains(&edge) {
                    edges.insert(edge);
                    degrees[u] += 1;
                    degrees[v] += 1;
                }
            }
            if degrees[u] >= k {
                break;
            }
        }
    }

    for (u, v) in &edges {
        graph.add_edge(
            petgraph::graph::NodeIndex::new(*u),
            petgraph::graph::NodeIndex::new(*v),
            (),
        );
    }

    graph
}

/// Convert a petgraph to EinCode format for tensor network optimization.
/// Each edge becomes a matrix tensor, each vertex becomes a vector tensor.
fn graph_to_eincode(graph: &UnGraph<(), ()>) -> (EinCode<usize>, LabelMap<usize>) {
    let n_vertices = graph.node_count();
    let mut ixs: Vec<Vec<usize>> = Vec::new();

    // Each edge contributes a matrix tensor: [src, dst] (using minmax for consistency)
    for edge in graph.edge_references() {
        let src = edge.source().index() + 1; // 1-indexed
        let dst = edge.target().index() + 1;
        ixs.push(vec![src.min(dst), src.max(dst)]);
    }

    // Each vertex contributes a vector tensor: [vertex]
    for v in 0..n_vertices {
        ixs.push(vec![v + 1]); // 1-indexed
    }

    // Create uniform size dictionary
    let mut sizes = LabelMap::new();
    for v in 1..=n_vertices {
        sizes.insert(v, 2);
    }

    let code = EinCode::new(ixs, vec![]); // Scalar output
    (code, sizes)
}

#[test]
fn test_random_regular_graph_n40_k3() {
    // N=40, k=3 random regular graph
    let graph = generate_random_regular_graph(40, 3, 42);

    // Should have 40 vertices and ~60 edges (n*k/2 = 60)
    assert_eq!(graph.node_count(), 40);
    assert!(graph.edge_count() > 50, "Should have close to 60 edges");

    let (code, sizes) = graph_to_eincode(&graph);

    // Optimize with greedy
    let greedy_tree = optimize_code(&code, &sizes, &Greedy::default());
    assert!(
        greedy_tree.is_some(),
        "Greedy should succeed on 40-node graph"
    );

    let tree = greedy_tree.unwrap();
    let complexity = contraction_complexity(&tree, &sizes, &code.ixs);

    // Verify optimization produces reasonable complexity
    assert!(
        log2(&complexity.sc) < 30.0,
        "Space complexity should be reasonable"
    );
}

#[test]
fn test_random_regular_graph_n60_k3_treesa() {
    // N=60, k=3 random regular graph with TreeSA
    let graph = generate_random_regular_graph(60, 3, 123);
    let (code, sizes) = graph_to_eincode(&graph);

    // First optimize with greedy
    let greedy_tree = optimize_code(&code, &sizes, &Greedy::default());
    assert!(greedy_tree.is_some());
    let greedy_complexity =
        contraction_complexity(greedy_tree.as_ref().unwrap(), &sizes, &code.ixs);

    // Then optimize with TreeSA using sc_target
    let treesa = Annealing::default()
        .with_sc_target(F64(log2(&greedy_complexity.sc) - 2.0))
        .with_niters(50)
        .with_ntrials(2);
    let treesa_tree = optimize_code(&code, &sizes, &treesa);
    assert!(
        treesa_tree.is_some(),
        "TreeSA should succeed on 60-node graph"
    );

    let treesa_complexity =
        contraction_complexity(treesa_tree.as_ref().unwrap(), &sizes, &code.ixs);

    // TreeSA should match or improve on greedy
    assert!(
        log2(&treesa_complexity.sc) <= log2(&greedy_complexity.sc) + 1.0,
        "TreeSA should not significantly increase space complexity"
    );
}

#[test]
fn test_large_random_regular_graph_n100() {
    // Stress test: 100-node 3-regular graph
    let graph = generate_random_regular_graph(100, 3, 456);
    let (code, sizes) = graph_to_eincode(&graph);

    // Should have ~150 edges + 100 vertices = ~250 tensors
    assert!(code.num_tensors() > 200, "Should have many tensors");

    let greedy_tree = optimize_code(&code, &sizes, &Greedy::default());
    assert!(greedy_tree.is_some(), "Greedy should handle 100-node graph");

    let tree = greedy_tree.unwrap();
    assert!(tree.is_binary(), "Should produce binary tree");
    assert_eq!(
        tree.leaf_count(),
        code.num_tensors(),
        "Should have correct leaf count"
    );
}

#[test]
fn test_path_decomposition_random_graph_n50() {
    // Path decomposition on n=50 random regular graph
    let graph = generate_random_regular_graph(50, 3, 789);
    let (code, sizes) = graph_to_eincode(&graph);

    // Optimize with path decomposition
    let path_treesa = Annealing::path().with_niters(30).with_ntrials(2);
    let path_tree = optimize_code(&code, &sizes, &path_treesa);
    assert!(path_tree.is_some(), "Path TreeSA should succeed");

    let tree = path_tree.unwrap();

    // Path decomposition should produce a path structure
    assert!(
        tree.is_path_decomposition(),
        "Should produce path decomposition"
    );

    // Also verify with tree decomposition for comparison
    let tree_treesa = Annealing::default().with_niters(30).with_ntrials(2);
    let tree_tree = optimize_code(&code, &sizes, &tree_treesa);
    assert!(tree_tree.is_some());

    // Tree decomposition typically doesn't produce path structure
    // (unless by coincidence)
}

#[test]
fn test_fullerene_c60_optimization() {
    // C60 fullerene graph (60 vertices, 90 edges)

    let edges = fullerene_edges();
    let mut ixs: Vec<Vec<usize>> = Vec::new();

    // Add edge tensors
    for (a, b) in &edges {
        ixs.push(vec![*a, *b]);
    }

    // Add vertex tensors
    for v in 1..=60 {
        ixs.push(vec![v]);
    }

    let code = EinCode::new(ixs, vec![]); // Scalar output
    let sizes: LabelMap<usize> = twos(1..=60);

    // Unoptimized complexity
    let unopt = eincode_complexity(&code, &sizes);
    assert_eq!(
        log2(&unopt.tc), 60.0,
        "Unoptimized tc should be 60 (sum of indices)"
    );
    assert_eq!(log2(&unopt.sc), 0.0, "Unoptimized sc should be 0 (scalar output)");

    // Optimize
    let greedy_tree = optimize_code(&code, &sizes, &Greedy::default());
    assert!(greedy_tree.is_some(), "Should optimize C60");

    let tree = greedy_tree.unwrap();
    let complexity = contraction_complexity(&tree, &sizes, &code.ixs);

    // Verify reasonable optimization (actual value depends on exact graph structure)
    assert!(
        log2(&complexity.sc) <= 20.0,
        "C60 space complexity should be <= 20, got {}",
        log2(&complexity.sc)
    );
}

#[test]
fn test_chain_and_ring_topologies() {
    // Chain and ring graphs

    // Chain: 9 tensors forming a path
    let chain_ixs: Vec<Vec<usize>> = (1..=9).map(|i| vec![i, i + 1]).collect();
    let chain_code = EinCode::new(chain_ixs, vec![1, 10]);
    let chain_sizes: LabelMap<usize> = twos(1..=10);

    let chain_tree = optimize_code(&chain_code, &chain_sizes, &Greedy::default());
    assert!(chain_tree.is_some());
    let chain_complexity =
        contraction_complexity(chain_tree.as_ref().unwrap(), &chain_sizes, &chain_code.ixs);
    assert_eq!(log2(&chain_complexity.sc), 2.0, "Chain should have sc=2");

    // Ring: 10 tensors forming a cycle
    let mut ring_ixs: Vec<Vec<usize>> = (1..=9).map(|i| vec![i, i + 1]).collect();
    ring_ixs.push(vec![10, 1]); // Close the ring
    let ring_code = EinCode::new(ring_ixs, vec![]);
    let ring_sizes: LabelMap<usize> = twos(1..=10);

    let ring_tree = optimize_code(&ring_code, &ring_sizes, &Greedy::default());
    assert!(ring_tree.is_some());
    let ring_complexity =
        contraction_complexity(ring_tree.as_ref().unwrap(), &ring_sizes, &ring_code.ixs);
    assert_eq!(log2(&ring_complexity.sc), 2.0, "Ring should have sc=2");
}

#[test]
fn test_tutte_graph_stochastic_optimization() {
    // Tutte graph (46 vertices, 69 edges) with stochastic optimization

    let edges = tutte_edges();
    let mut ixs: Vec<Vec<usize>> = Vec::new();

    // Add unique edges
    let mut seen_edges: HashSet<(usize, usize)> = HashSet::new();
    for (a, b) in &edges {
        let edge = ((*a).min(*b), (*a).max(*b));
        if !seen_edges.contains(&edge) {
            ixs.push(vec![edge.0, edge.1]);
            seen_edges.insert(edge);
        }
    }

    // Find max vertex
    let max_vertex = edges.iter().flat_map(|(a, b)| [*a, *b]).max().unwrap_or(0);

    let code = EinCode::new(ixs, vec![]); // Scalar output
    let sizes: LabelMap<usize> = twos(1..=max_vertex);

    // Run stochastic optimization multiple times
    let mut best_sc = f64::INFINITY;
    for _trial in 0..10 {
        let stochastic_greedy = Greedy::stochastic(F64(100.0));
        if let Some(tree) = optimize_code(&code, &sizes, &stochastic_greedy) {
            let complexity = contraction_complexity(&tree, &sizes, &code.ixs);
            if log2(&complexity.sc) < best_sc {
                best_sc = log2(&complexity.sc);
            }
        }
    }

    assert!(
        best_sc <= 8.0,
        "Best Tutte graph sc should be <= 8, got {}",
        best_sc
    );
}

#[test]
fn test_petersen_graph_optimization() {
    // Petersen graph: 10 vertices, 15 edges, 3-regular

    let edges = petersen_edges();
    let mut ixs: Vec<Vec<usize>> = Vec::new();

    for (a, b) in &edges {
        ixs.push(vec![*a, *b]);
    }

    // Add vertex tensors
    for v in 1..=10 {
        ixs.push(vec![v]);
    }

    let code = EinCode::new(ixs, vec![]);
    let sizes: LabelMap<usize> = twos(1..=10);

    let tree = optimize_code(&code, &sizes, &Greedy::default());
    assert!(tree.is_some());

    let complexity = contraction_complexity(tree.as_ref().unwrap(), &sizes, &code.ixs);

    // Petersen graph should have reasonable complexity
    assert!(
        log2(&complexity.sc) <= 6.0,
        "Petersen sc should be <= 6, got {}",
        log2(&complexity.sc)
    );
}

#[test]
fn test_very_large_graph_n200() {
    // Stress test: 200-node graph
    let graph = generate_random_regular_graph(200, 3, 999);
    let (code, sizes) = graph_to_eincode(&graph);

    // This is a large problem: ~300 edges + 200 vertices = ~500 tensors
    assert!(code.num_tensors() > 400, "Should have many tensors");

    // Greedy should still work
    let greedy_tree = optimize_code(&code, &sizes, &Greedy::default());
    assert!(greedy_tree.is_some(), "Greedy should handle 200-node graph");

    let tree = greedy_tree.unwrap();
    let complexity = contraction_complexity(&tree, &sizes, &code.ixs);

    // Verify reasonable complexity
    assert!(
        log2(&complexity.sc) <= 55.0,
        "Large graph sc should be <= 55, got {}",
        log2(&complexity.sc)
    );
}

#[test]
fn test_treesa_with_sc_target_large_graph() {
    // TreeSA with sc_target on large graph
    let graph = generate_random_regular_graph(80, 3, 111);
    let (code, sizes) = graph_to_eincode(&graph);

    // Get greedy baseline
    let greedy_tree = optimize_code(&code, &sizes, &Greedy::default()).unwrap();
    let greedy_complexity = contraction_complexity(&greedy_tree, &sizes, &code.ixs);

    // Use TreeSA with aggressive sc_target
    let sc_target = log2(&greedy_complexity.sc) - 3.0;
    let treesa = Annealing::default()
        .with_sc_target(F64(sc_target))
        .with_niters(100)
        .with_ntrials(3);

    let treesa_tree = optimize_code(&code, &sizes, &treesa);
    assert!(treesa_tree.is_some());

    let treesa_complexity =
        contraction_complexity(treesa_tree.as_ref().unwrap(), &sizes, &code.ixs);

    // TreeSA should try to meet the target
    // (may not always succeed, but should be close)
    assert!(
        log2(&treesa_complexity.sc) <= log2(&greedy_complexity.sc) + 2.0,
        "TreeSA should not be much worse than greedy"
    );
}

#[test]
fn test_multiple_optimizers_consistency() {
    // Verify that different optimizers produce valid results on same problem
    let graph = generate_random_regular_graph(30, 3, 222);
    let (code, sizes) = graph_to_eincode(&graph);

    // Helper to verify optimizer results
    fn verify_optimizer_result(
        tree: Option<NestedEinsum<usize>>,
        code: &EinCode<usize>,
        sizes: &LabelMap<usize>,
        name: &str,
    ) {
        assert!(tree.is_some(), "{} should succeed", name);
        let t = tree.unwrap();
        assert!(t.is_binary(), "{} should produce binary tree", name);
        assert_eq!(
            t.leaf_count(),
            code.num_tensors(),
            "{} should have correct leaves",
            name
        );

        let complexity = contraction_complexity(&t, sizes, &code.ixs);
        assert!(
            log2(&complexity.tc) > 0.0,
            "{} should have positive time complexity",
            name
        );
        assert!(
            log2(&complexity.sc) >= 0.0,
            "{} space complexity should be non-negative",
            name
        );
    }

    // Test each optimizer
    verify_optimizer_result(
        optimize_code(&code, &sizes, &Greedy::default()),
        &code,
        &sizes,
        "GreedyMethod::default",
    );
    verify_optimizer_result(
        optimize_code(&code, &sizes, &Greedy::stochastic(F64(10.0))),
        &code,
        &sizes,
        "GreedyMethod::stochastic",
    );
    verify_optimizer_result(
        optimize_code(&code, &sizes, &Annealing::fast()),
        &code,
        &sizes,
        "TreeSA::fast",
    );
    verify_optimizer_result(
        optimize_code(&code, &sizes, &Annealing::path()),
        &code,
        &sizes,
        "TreeSA::path",
    );
}
