//! Annealing, its parts and its settings.

use omeco::convert::{
    build_label_map, convert_to_int_indices, expr_tree_to_nested, get_child_labels,
    nested_to_expr_tree, nested_to_expr_tree_inner,
};
use omeco::energy::{local_sc, node_sc};
use omeco::expr_tree::{ExprTree, Rule};
use omeco::init::init_random;
use omeco::treesa::init_greedy;
use omeco::{
    contraction_complexity, optimize_greedy, optimize_treesa, optimize_treesa_warm, Count,
    DecompositionType, EinCode, GreedyMethod, Initializer, LabelMap, NestedEinsum, Scalar,
    ScoreFunction, TreeSA,
};
use rand::rngs::SmallRng;
use rand::{Rng, SeedableRng};

/// Double precision.
#[derive(Debug, Clone, Copy, PartialEq)]
struct F64(f64);

impl Scalar for F64 {
    fn zero() -> Self {
        F64(0.0)
    }

    fn affine(start: u64, step: u64, index: u64) -> Self {
        F64(start as f64 / 100.0 + step as f64 / 100.0 * index as f64)
    }

    fn of_count(count: &Count) -> Self {
        F64(count.digits().iter().rev().fold(0.0, |sum, d| sum * 4294967296.0 + *d as f64))
    }

    fn log2_of(size: usize) -> Self {
        F64((size as f64).log2())
    }

    fn log2(a: &Self) -> Self {
        F64(a.0.log2())
    }

    fn exp2(a: &Self) -> Self {
        F64(a.0.exp2())
    }

    fn exp(a: &Self) -> Self {
        F64(a.0.exp())
    }

    fn negated(a: &Self) -> Self {
        F64(-a.0)
    }

    fn plus(a: &Self, b: &Self) -> Self {
        F64(a.0 + b.0)
    }

    fn minus(a: &Self, b: &Self) -> Self {
        F64(a.0 - b.0)
    }

    fn times(a: &Self, b: &Self) -> Self {
        F64(a.0 * b.0)
    }

    fn quotient(a: &Self, b: &Self) -> Self {
        F64(a.0 / b.0)
    }

    fn maximum(a: &Self, b: &Self) -> Self {
        F64(a.0.max(b.0))
    }

    fn log2_sum_exp2(a: &Self, b: &Self) -> Self {
        let (high, low) = (a.0.max(b.0), a.0.min(b.0));
        F64(high + (1.0 + (low - high).exp2()).log2())
    }

    fn less(a: &Self, b: &Self) -> bool {
        a.0 < b.0
    }

    fn unit(rng: &mut SmallRng) -> Self {
        F64(rng.random())
    }
}

type Annealing = TreeSA<F64>;
type Greedy = GreedyMethod<F64>;

fn numbers(values: &[f64]) -> Vec<F64> {
    values.iter().map(|v| F64(*v)).collect()
}

fn dict(sizes: &[(char, usize)]) -> LabelMap<char> {
    let mut map = LabelMap::new();
    for (label, size) in sizes {
        map.insert(*label, *size);
    }
    map
}

fn log2(count: &Count) -> f64 {
    F64::of_count(count).0.log2()
}


#[test]
fn test_treesa_default() {
    let config = Annealing::default();
    assert_eq!(config.ntrials, 10);
    assert_eq!(config.niters, 50);
    assert!(!config.betas.is_empty());
}

#[test]
fn test_treesa_fast() {
    let config = Annealing::fast();
    assert_eq!(config.ntrials, 1);
    assert_eq!(config.niters, 20);
}

#[test]
fn test_optimize_treesa_simple() {
    let code = EinCode::new(vec![vec!['i', 'j'], vec!['j', 'k']], vec!['i', 'k']);
    let mut size_dict = LabelMap::new();
    size_dict.insert('i', 4);
    size_dict.insert('j', 8);
    size_dict.insert('k', 4);

    let config = Annealing::fast();
    let result = optimize_treesa(&code, &size_dict, &config);

    assert!(result.is_some());
    let nested = result.unwrap();
    assert!(nested.is_binary());
    assert_eq!(nested.leaf_count(), 2);
}

#[test]
fn test_optimize_treesa_chain() {
    let code = EinCode::new(
        vec![vec!['i', 'j'], vec!['j', 'k'], vec!['k', 'l']],
        vec!['i', 'l'],
    );
    let mut size_dict = LabelMap::new();
    size_dict.insert('i', 4);
    size_dict.insert('j', 8);
    size_dict.insert('k', 8);
    size_dict.insert('l', 4);

    let config = Annealing::fast();
    let result = optimize_treesa(&code, &size_dict, &config);

    assert!(result.is_some());
    let nested = result.unwrap();
    assert!(nested.is_binary());
    assert_eq!(nested.leaf_count(), 3);
}

#[test]
fn test_init_random() {
    let int_ixs = vec![vec![0, 1], vec![1, 2], vec![2, 3]];
    let int_iy = vec![0, 3];
    let nedge = 4; // Labels 0, 1, 2, 3
    let mut rng = SmallRng::from_rng(&mut rand::rng());

    let tree = init_random(&int_ixs, &int_iy, nedge, DecompositionType::Tree, &mut rng);
    assert_eq!(tree.leaf_count(), 3);
}

/// Build the chain i-j-k-l (leaf0=[i,j], leaf1=[j,k], leaf2=[k,l], iy=[i,l])
/// with a deliberately BAD seed order ((leaf0,leaf2),leaf1): pairing leaf0 and
/// leaf2 first forms the outer product [i,j,k,l] (sc=4), worse than the chain
/// order (sc=2). Used to prove warm-start starts from the given seed.
fn chain_code_and_bad_seed() -> (EinCode<char>, NestedEinsum<char>, LabelMap<char>) {
    let code = EinCode::new(
        vec![vec!['i', 'j'], vec!['j', 'k'], vec!['k', 'l']],
        vec!['i', 'l'],
    );
    let size_dict: LabelMap<char> = dict(&[('i', 2), ('j', 2), ('k', 2), ('l', 2)]);
    let node_a = NestedEinsum::node(
        vec![NestedEinsum::leaf(0), NestedEinsum::leaf(2)],
        EinCode::new(
            vec![vec!['i', 'j'], vec!['k', 'l']],
            vec!['i', 'j', 'k', 'l'],
        ),
    );
    let seed = NestedEinsum::node(
        vec![node_a, NestedEinsum::leaf(1)],
        EinCode::new(
            vec![vec!['i', 'j', 'k', 'l'], vec!['j', 'k']],
            vec!['i', 'l'],
        ),
    );
    (code, seed, size_dict)
}

/// Warm-start defining property: with NO annealing (empty β schedule), the
/// optimizer must return the SEED's structure unchanged. A cold greedy/random
/// init would discard the seed and never reproduce the outer-product-first
/// order, so leaf order [0,2,1] proves the seed is the starting tree.
#[test]
fn test_optimize_treesa_warm_zero_anneal_preserves_seed() {
    let (code, seed, size_dict) = chain_code_and_bad_seed();
    assert_eq!(seed.leaf_indices(), vec![0, 2, 1]);

    let config = Annealing::new(vec![], 1, 0, Initializer::Greedy, ScoreFunction::default());
    let warm = optimize_treesa_warm(&seed, &code, &size_dict, &config).unwrap();

    assert!(warm.is_binary());
    assert_eq!(
        warm.leaf_indices(),
        vec![0, 2, 1],
        "warm-start with no annealing must preserve the seed order"
    );
}

/// With a real β schedule, warm-start re-thermalizes the bad seed and should
/// not return something worse than the seed (the whole point of refining).
#[test]
fn test_optimize_treesa_warm_improves_bad_seed() {
    let (code, seed, size_dict) = chain_code_and_bad_seed();
    let seed_sc = log2(&contraction_complexity(&seed, &size_dict, &code.ixs).sc);

    let betas: Vec<F64> = (0..15).map(|i| F64(1.0 + i as f64)).collect();
    let config = Annealing::new(betas, 3, 30, Initializer::Greedy, ScoreFunction::default());
    let warm = optimize_treesa_warm(&seed, &code, &size_dict, &config).unwrap();

    let warm_sc = log2(&contraction_complexity(&warm, &size_dict, &code.ixs).sc);
    assert!(
        warm_sc <= seed_sc,
        "warm-start should not worsen the seed (seed_sc={seed_sc}, warm_sc={warm_sc})"
    );
}

#[test]
fn test_build_label_map() {
    let code = EinCode::new(vec![vec!['i', 'j'], vec!['j', 'k']], vec!['i', 'k']);
    let (map, labels) = build_label_map(&code);

    assert_eq!(labels.len(), 3);
    assert!(map.contains_key(&'i'));
    assert!(map.contains_key(&'j'));
    assert!(map.contains_key(&'k'));
}

#[test]
fn test_treesa_with_random_init() {
    let code = EinCode::new(vec![vec!['i', 'j'], vec!['j', 'k']], vec!['i', 'k']);
    let mut size_dict = LabelMap::new();
    size_dict.insert('i', 4);
    size_dict.insert('j', 8);
    size_dict.insert('k', 4);

    let mut config = Annealing::fast();
    config.initializer = Initializer::Random;

    let result = optimize_treesa(&code, &size_dict, &config);
    assert!(result.is_some());
}

#[test]
fn test_treesa_path_decomposition() {
    let code = EinCode::new(
        vec![vec!['i', 'j'], vec!['j', 'k'], vec!['k', 'l']],
        vec!['i', 'l'],
    );
    let mut size_dict = LabelMap::new();
    size_dict.insert('i', 4);
    size_dict.insert('j', 8);
    size_dict.insert('k', 8);
    size_dict.insert('l', 4);

    let mut config = Annealing::fast();
    config.decomposition_type = DecompositionType::Path;

    let result = optimize_treesa(&code, &size_dict, &config);
    assert!(result.is_some());
}

#[test]
fn test_treesa_with_sc_target() {
    let code = EinCode::new(vec![vec!['i', 'j'], vec!['j', 'k']], vec!['i', 'k']);
    let mut size_dict = LabelMap::new();
    size_dict.insert('i', 4);
    size_dict.insert('j', 8);
    size_dict.insert('k', 4);

    let mut config = Annealing::fast();
    config.score.sc_target = F64(10.0);
    config.score.sc_weight = F64(1.0);

    let result = optimize_treesa(&code, &size_dict, &config);
    assert!(result.is_some());
}

#[test]
fn test_treesa_with_rw_weight() {
    let code = EinCode::new(vec![vec!['i', 'j'], vec!['j', 'k']], vec!['i', 'k']);
    let mut size_dict = LabelMap::new();
    size_dict.insert('i', 4);
    size_dict.insert('j', 8);
    size_dict.insert('k', 4);

    let mut config = Annealing::fast();
    config.score.rw_weight = F64(0.5);

    let result = optimize_treesa(&code, &size_dict, &config);
    assert!(result.is_some());
}

#[test]
fn test_treesa_single_tensor() {
    let code = EinCode::new(vec![vec!['i', 'j']], vec!['i', 'j']);
    let mut size_dict = LabelMap::new();
    size_dict.insert('i', 4);
    size_dict.insert('j', 8);

    let config = Annealing::fast();
    let result = optimize_treesa(&code, &size_dict, &config);
    assert!(result.is_some());
    assert_eq!(result.unwrap().leaf_count(), 1);
}

#[test]
fn test_score_function() {
    let score = ScoreFunction {
        tc_weight: F64(1.0),
        sc_target: F64(10.0),
        sc_weight: F64(2.0),
        rw_weight: F64(0.5),
    };

    assert_eq!(score.sc_target, F64(10.0));
    assert_eq!(score.sc_weight, F64(2.0));
    assert_eq!(score.rw_weight, F64(0.5));
}

#[test]
fn test_init_random_path_decomp() {
    let int_ixs = vec![vec![0, 1], vec![1, 2], vec![2, 3]];
    let int_iy = vec![0, 3];
    let nedge = 4; // Labels 0, 1, 2, 3
    let mut rng = SmallRng::from_rng(&mut rand::rng());

    let tree = init_random(&int_ixs, &int_iy, nedge, DecompositionType::Path, &mut rng);
    assert_eq!(tree.leaf_count(), 3);
}

#[test]
fn test_treesa_with_betas() {
    let config = Annealing::default().with_betas(numbers(&[0.1, 0.5, 1.0]));
    assert_eq!(config.betas, numbers(&[0.1, 0.5, 1.0]));
}

#[test]
fn test_treesa_with_ntrials() {
    let config = Annealing::default().with_ntrials(5);
    assert_eq!(config.ntrials, 5);
}

#[test]
fn test_treesa_with_niters() {
    let config = Annealing::default().with_niters(100);
    assert_eq!(config.niters, 100);
}

#[test]
fn test_treesa_with_sc_target_builder() {
    let config = Annealing::default().with_sc_target(F64(15.0));
    assert_eq!(config.score.sc_target, F64(15.0));
}

#[test]
fn test_treesa_path() {
    let config = Annealing::path();
    assert_eq!(config.decomposition_type, DecompositionType::Path);
    assert_eq!(config.initializer, Initializer::Random);
}

#[test]
fn test_treesa_new() {
    let score = ScoreFunction::new(F64(1.0), F64(2.0), F64(0.5), F64(10.0));
    let config = Annealing::new(numbers(&[0.1, 0.2, 0.3]), 5, 10, Initializer::Random, score);
    assert_eq!(config.betas, numbers(&[0.1, 0.2, 0.3]));
    assert_eq!(config.ntrials, 5);
    assert_eq!(config.niters, 10);
    assert_eq!(config.initializer, Initializer::Random);
}

#[test]
fn test_convert_to_int_indices() {
    let ixs = vec![vec!['i', 'j'], vec!['j', 'k']];
    let mut label_map = LabelMap::new();
    label_map.insert('i', 0);
    label_map.insert('j', 1);
    label_map.insert('k', 2);

    let int_ixs = convert_to_int_indices(&ixs, &label_map);
    assert_eq!(int_ixs, vec![vec![0, 1], vec![1, 2]]);
}

#[test]
fn test_init_random_single_tensor() {
    let int_ixs = vec![vec![0, 1]];
    let int_iy = vec![0, 1];
    let nedge = 2; // Labels 0, 1
    let mut rng = SmallRng::from_rng(&mut rand::rng());

    let tree = init_random(&int_ixs, &int_iy, nedge, DecompositionType::Tree, &mut rng);
    assert!(tree.is_leaf());
    assert_eq!(tree.leaf_count(), 1);
}

#[test]
fn test_init_random_odd_number() {
    // Test with odd number of tensors for tree decomposition
    let int_ixs = vec![vec![0, 1], vec![1, 2], vec![2, 3], vec![3, 4], vec![4, 0]];
    let int_iy: Vec<usize> = vec![];
    let nedge = 5; // Labels 0, 1, 2, 3, 4
    let mut rng = SmallRng::from_rng(&mut rand::rng());

    let tree = init_random(&int_ixs, &int_iy, nedge, DecompositionType::Tree, &mut rng);
    assert_eq!(tree.leaf_count(), 5);
}

#[test]
fn test_optimize_treesa_empty() {
    let code: EinCode<char> = EinCode::new(vec![], vec![]);
    let size_dict: LabelMap<char> = LabelMap::new();

    let config = Annealing::fast();
    let result = optimize_treesa(&code, &size_dict, &config);
    assert!(result.is_none());
}

#[test]
fn test_optimize_treesa_many_tensors() {
    // Test with more tensors
    let code = EinCode::new(
        vec![
            vec!['a', 'b'],
            vec!['b', 'c'],
            vec!['c', 'd'],
            vec!['d', 'e'],
        ],
        vec!['a', 'e'],
    );
    let mut size_dict = LabelMap::new();
    size_dict.insert('a', 4);
    size_dict.insert('b', 8);
    size_dict.insert('c', 8);
    size_dict.insert('d', 8);
    size_dict.insert('e', 4);

    let config = Annealing::fast();
    let result = optimize_treesa(&code, &size_dict, &config);

    assert!(result.is_some());
    let nested = result.unwrap();
    assert_eq!(nested.leaf_count(), 4);
}

#[test]
fn test_optimize_treesa_path_multiple_tensors() {
    let code = EinCode::new(
        vec![vec!['i', 'j'], vec!['j', 'k'], vec!['k', 'l']],
        vec!['i', 'l'],
    );
    let mut size_dict = LabelMap::new();
    size_dict.insert('i', 4);
    size_dict.insert('j', 8);
    size_dict.insert('k', 8);
    size_dict.insert('l', 4);

    let config = Annealing::path()
        .with_ntrials(1)
        .with_niters(5)
        .with_betas(numbers(&[0.1, 0.5]));
    let result = optimize_treesa(&code, &size_dict, &config);

    assert!(result.is_some());
}

#[test]
fn test_initializer_default() {
    let init = Initializer::default();
    assert_eq!(init, Initializer::Greedy);
}

#[test]
fn test_decomposition_type_default() {
    let decomp = DecompositionType::default();
    assert_eq!(decomp, DecompositionType::Tree);
}

#[test]
fn test_node_sc() {
    let log2_sizes = numbers(&[2.0, 3.0, 4.0]);

    // Empty output dims
    assert_eq!(node_sc(&vec![], &log2_sizes), F64(0.0));

    // Single label
    assert!((node_sc(&vec![0], &log2_sizes).0 - 2.0).abs() < 1e-10);

    // Multiple labels
    assert!((node_sc(&vec![0, 1, 2], &log2_sizes).0 - 9.0).abs() < 1e-10);
}

#[test]
fn test_local_sc_leaf() {
    let leaf = ExprTree::leaf(vec![0, 1], 0);
    let log2_sizes = numbers(&[2.0, 3.0]);

    // local_sc on a leaf should return the node's sc
    let sc = local_sc(&leaf, Rule::Rule1, &log2_sizes);
    assert!((sc.0 - 5.0).abs() < 1e-10); // 2 + 3 = 5
}

#[test]
fn test_local_sc_node_rules() {
    let leaf0 = ExprTree::leaf(vec![0, 1], 0); // sc = 2+3 = 5
    let leaf1 = ExprTree::leaf(vec![1, 2], 1); // sc = 3+4 = 7
    let leaf2 = ExprTree::leaf(vec![2, 3], 2); // sc = 4+2 = 6

    let log2_sizes = numbers(&[2.0, 3.0, 4.0, 2.0]);

    // Tree for Rules 1 and 2: ((0,1),2)
    let inner = ExprTree::node(leaf0.clone(), leaf1.clone(), vec![0, 2]); // sc = 2+4 = 6
    let tree12 = ExprTree::node(inner, leaf2.clone(), vec![0, 3]); // sc = 2+2 = 4

    // Rule1/Rule2 uses left child: max(tree_sc, left_sc) = max(4, 6) = 6
    let sc1 = local_sc(&tree12, Rule::Rule1, &log2_sizes);
    assert!((sc1.0 - 6.0).abs() < 1e-10);

    let sc2 = local_sc(&tree12, Rule::Rule2, &log2_sizes);
    assert!((sc2.0 - 6.0).abs() < 1e-10);

    // Tree for Rules 3 and 4: (0,(1,2))
    let inner2 = ExprTree::node(leaf1, leaf2, vec![1, 3]); // sc = 3+2 = 5
    let tree34 = ExprTree::node(leaf0, inner2, vec![0, 3]); // sc = 2+2 = 4

    // Rule3/Rule4 uses right child: max(tree_sc, right_sc) = max(4, 5) = 5
    let sc3 = local_sc(&tree34, Rule::Rule3, &log2_sizes);
    assert!((sc3.0 - 5.0).abs() < 1e-10);

    let sc4 = local_sc(&tree34, Rule::Rule4, &log2_sizes);
    assert!((sc4.0 - 5.0).abs() < 1e-10);
}

#[test]
fn test_nested_to_expr_tree_conversion() {

    let code = EinCode::new(
        vec![vec!['i', 'j'], vec!['j', 'k'], vec!['k', 'l']],
        vec!['i', 'l'],
    );
    let sizes: LabelMap<char> = dict(&[('i', 4), ('j', 8), ('k', 8), ('l', 4)]);
    let original = optimize_greedy(&code, &sizes, &Greedy::default()).unwrap();

    // Convert to ExprTree using the full conversion path
    let (label_map, labels) = build_label_map(&code);
    let int_ixs = convert_to_int_indices(&code.ixs, &label_map);
    let int_iy: Vec<usize> = code.iy.iter().map(|l| label_map.at(l)).collect();
    let expr_tree = nested_to_expr_tree(&original, &int_ixs, &int_iy, &label_map);

    assert!(expr_tree.is_some());
    let tree = expr_tree.unwrap();
    assert_eq!(tree.leaf_count(), 3);
    assert!(!tree.is_leaf());

    // Test labels vector is correct
    assert_eq!(labels.len(), 4); // i, j, k, l
}

#[test]
fn test_optimize_treesa_with_rw_optimization() {
    // Test with rw_weight > 0 to exercise that code path
    let code = EinCode::new(vec![vec!['i', 'j'], vec!['j', 'k']], vec!['i', 'k']);
    let sizes: LabelMap<char> = dict(&[('i', 4), ('j', 8), ('k', 4)]);

    let mut config = Annealing::fast();
    config.score.rw_weight = F64(0.5);
    let result = optimize_treesa(&code, &sizes, &config);

    assert!(result.is_some());
}

#[test]
fn test_optimize_treesa_with_high_sc_target() {
    // Test with very high sc_target (should not penalize space)
    let code = EinCode::new(vec![vec!['i', 'j'], vec!['j', 'k']], vec!['i', 'k']);
    let sizes: LabelMap<char> = dict(&[('i', 4), ('j', 8), ('k', 4)]);

    let mut config = Annealing::fast();
    config.score.sc_target = F64(1000.0);
    let result = optimize_treesa(&code, &sizes, &config);

    assert!(result.is_some());
}

#[test]
fn test_expr_tree_to_nested() {
    // Create a simple binary tree
    let leaf0 = ExprTree::leaf(vec![0, 1], 0);
    let leaf1 = ExprTree::leaf(vec![1, 2], 1);
    let tree = ExprTree::node(leaf0, leaf1, vec![0, 2]);

    let original_ixs = vec![vec!['i', 'j'], vec!['j', 'k']];
    let inverse_map = vec!['i', 'j', 'k'];
    let openedges = vec!['i', 'k'];

    let nested = expr_tree_to_nested(&tree, &original_ixs, &inverse_map, &openedges, 0);

    assert!(nested.is_binary());
    assert_eq!(nested.leaf_count(), 2);
}

#[test]
fn test_expr_tree_to_nested_deep() {
    // Create a deeper tree: ((0,1),2)
    let leaf0 = ExprTree::leaf(vec![0, 1], 0);
    let leaf1 = ExprTree::leaf(vec![1, 2], 1);
    let leaf2 = ExprTree::leaf(vec![2, 3], 2);
    let inner = ExprTree::node(leaf0, leaf1, vec![0, 2]);
    let tree = ExprTree::node(inner, leaf2, vec![0, 3]);

    let original_ixs = vec![vec!['i', 'j'], vec!['j', 'k'], vec!['k', 'l']];
    let inverse_map = vec!['i', 'j', 'k', 'l'];
    let openedges = vec!['i', 'l'];

    let nested = expr_tree_to_nested(&tree, &original_ixs, &inverse_map, &openedges, 0);

    assert!(nested.is_binary());
    assert_eq!(nested.leaf_count(), 3);
}

#[test]
fn test_get_child_labels_leaf() {
    let nested: NestedEinsum<char> = NestedEinsum::leaf(0);
    let original_ixs = vec![vec!['i', 'j'], vec!['j', 'k']];

    let labels = get_child_labels(&nested, &original_ixs);
    assert_eq!(labels, vec!['i', 'j']);
}

#[test]
fn test_get_child_labels_node() {
    let leaf0 = NestedEinsum::leaf(0);
    let leaf1 = NestedEinsum::leaf(1);
    let eins = EinCode::new(vec![vec!['i', 'j'], vec!['j', 'k']], vec!['i', 'k']);
    let nested = NestedEinsum::node(vec![leaf0, leaf1], eins);

    let original_ixs = vec![vec!['i', 'j'], vec!['j', 'k']];

    let labels = get_child_labels(&nested, &original_ixs);
    assert_eq!(labels, vec!['i', 'k']); // Output labels of the node
}

#[test]
fn test_get_child_labels_out_of_bounds() {
    // Test when tensor_index is out of bounds
    let nested: NestedEinsum<char> = NestedEinsum::leaf(99);
    let original_ixs = vec![vec!['i', 'j']];

    let labels = get_child_labels(&nested, &original_ixs);
    assert!(labels.is_empty()); // Should return default empty vec
}

#[test]
fn test_optimize_treesa_multiple_trials() {
    // Test with multiple trials to ensure parallel execution works
    let code = EinCode::new(
        vec![vec!['i', 'j'], vec!['j', 'k'], vec!['k', 'l']],
        vec!['i', 'l'],
    );
    let sizes: LabelMap<char> = dict(&[('i', 4), ('j', 8), ('k', 8), ('l', 4)]);

    let mut config = Annealing::fast();
    config.ntrials = 3; // Multiple trials

    let result = optimize_treesa(&code, &sizes, &config);
    assert!(result.is_some());
    assert_eq!(result.unwrap().leaf_count(), 3);
}

#[test]
fn test_init_random_two_tensors() {
    // Test with exactly 2 tensors
    let int_ixs = vec![vec![0, 1], vec![1, 2]];
    let int_iy = vec![0, 2];
    let nedge = 3;
    let mut rng = SmallRng::from_rng(&mut rand::rng());

    let tree = init_random(&int_ixs, &int_iy, nedge, DecompositionType::Tree, &mut rng);
    assert_eq!(tree.leaf_count(), 2);
}

#[test]
fn test_init_random_many_tensors() {
    // Test with many tensors to exercise recursive partitioning
    let int_ixs = vec![
        vec![0, 1],
        vec![1, 2],
        vec![2, 3],
        vec![3, 4],
        vec![4, 5],
        vec![5, 6],
    ];
    let int_iy = vec![0, 6];
    let nedge = 7;
    let mut rng = SmallRng::from_rng(&mut rand::rng());

    let tree = init_random(&int_ixs, &int_iy, nedge, DecompositionType::Tree, &mut rng);
    assert_eq!(tree.leaf_count(), 6);
}

#[test]
fn test_init_random_path_two_tensors() {
    let int_ixs = vec![vec![0, 1], vec![1, 2]];
    let int_iy = vec![0, 2];
    let nedge = 3;
    let mut rng = SmallRng::from_rng(&mut rand::rng());

    let tree = init_random(&int_ixs, &int_iy, nedge, DecompositionType::Path, &mut rng);
    assert_eq!(tree.leaf_count(), 2);
}

#[test]
fn test_init_greedy_success() {
    let code = EinCode::new(vec![vec!['i', 'j'], vec!['j', 'k']], vec!['i', 'k']);
    let sizes: LabelMap<char> = dict(&[('i', 4), ('j', 8), ('k', 4)]);

    let (label_map, _labels) = build_label_map(&code);
    let int_ixs = convert_to_int_indices(&code.ixs, &label_map);
    let int_iy: Vec<usize> = code.iy.iter().map(|l| label_map.at(l)).collect();

    let tree = init_greedy::<char, F64>(&code, &sizes, &label_map, &int_ixs, &int_iy);
    assert!(tree.is_some());
    assert_eq!(tree.unwrap().leaf_count(), 2);
}

#[test]
fn test_optimize_treesa_scalar_output() {
    // Test with scalar output (empty iy)
    let code = EinCode::new(vec![vec!['i', 'j'], vec!['j', 'i']], vec![]);
    let sizes: LabelMap<char> = dict(&[('i', 4), ('j', 8)]);

    let config = Annealing::fast();
    let result = optimize_treesa(&code, &sizes, &config);

    assert!(result.is_some());
    let nested = result.unwrap();
    assert_eq!(nested.leaf_count(), 2);
}

#[test]
fn test_optimize_treesa_with_different_decomp() {
    // Test tree vs path decomposition
    let code = EinCode::new(
        vec![vec!['a', 'b'], vec!['b', 'c'], vec!['c', 'd']],
        vec!['a', 'd'],
    );
    let sizes: LabelMap<char> = dict(&[('a', 2), ('b', 4), ('c', 4), ('d', 2)]);

    // Tree decomposition
    let mut config_tree = Annealing::fast();
    config_tree.decomposition_type = DecompositionType::Tree;
    let result_tree = optimize_treesa(&code, &sizes, &config_tree);
    assert!(result_tree.is_some());

    // Path decomposition
    let mut config_path = Annealing::fast();
    config_path.decomposition_type = DecompositionType::Path;
    config_path.initializer = Initializer::Random;
    let result_path = optimize_treesa(&code, &sizes, &config_path);
    assert!(result_path.is_some());
}

#[test]
fn test_nested_to_expr_tree_inner_leaf() {
    // Test the inner function with a leaf (edge case - should return None)
    let nested: NestedEinsum<char> = NestedEinsum::leaf(0);
    let label_map: LabelMap<char> = dict(&[('i', 0), ('j', 1)]);

    let result = nested_to_expr_tree_inner(&nested, &label_map);
    assert!(result.is_none());
}
