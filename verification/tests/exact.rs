//! Exact values, edge cases and laws on concrete networks.

use omeco::convert::{build_label_map, convert_to_int_indices, expr_tree_to_nested, map_labels};
use omeco::energy::{contraction_cost, energy_change, metropolis, rule_diff};
use omeco::expr_tree::{apply_rule_mut, needed_labels, rule_labels, ExprTree, Rule};
use omeco::greedy::{greedy_tree, switches};
use omeco::init::{init_random, mend_mask, shared_labels};
use omeco::score::{tree_complexity, TreeCost};
use omeco::sweep::{optimize_subtree_mut, optimize_tree_sa, try_rule};
use omeco::treesa::{run_trial, trial_seed};
use omeco::{
    contraction_complexity, eincode_complexity, optimize_code, optimize_greedy,
    optimize_greedy_from, optimize_treesa, optimize_treesa_warm, uniform_size_dict, Count,
    DecompositionType, EinCode, GreedyMethod, Initializer, Label, LabelMap, NestedEinsum, Scalar,
    ScoreFunction, TreeSA,
};
use rand::rngs::SmallRng;
use rand::{Rng, SeedableRng};

/// Double precision.
#[derive(Debug, Clone, Copy, PartialEq)]
struct F64(f64);

impl Scalar for F64 {
    fn zero() -> Self {
        F64(0.0)
    }

    fn affine(start: u64, step: u64, index: u64) -> Self {
        F64(start as f64 / 100.0 + step as f64 / 100.0 * index as f64)
    }

    fn of_count(count: &Count) -> Self {
        F64(count.digits().iter().rev().fold(0.0, |sum, d| sum * 4294967296.0 + *d as f64))
    }

    fn log2_of(size: usize) -> Self {
        F64((size as f64).log2())
    }

    fn log2(a: &Self) -> Self {
        F64(a.0.log2())
    }

    fn exp2(a: &Self) -> Self {
        F64(a.0.exp2())
    }

    fn exp(a: &Self) -> Self {
        F64(a.0.exp())
    }

    fn negated(a: &Self) -> Self {
        F64(-a.0)
    }

    fn plus(a: &Self, b: &Self) -> Self {
        F64(a.0 + b.0)
    }

    fn minus(a: &Self, b: &Self) -> Self {
        F64(a.0 - b.0)
    }

    fn times(a: &Self, b: &Self) -> Self {
        F64(a.0 * b.0)
    }

    fn quotient(a: &Self, b: &Self) -> Self {
        F64(a.0 / b.0)
    }

    fn maximum(a: &Self, b: &Self) -> Self {
        F64(a.0.max(b.0))
    }

    fn log2_sum_exp2(a: &Self, b: &Self) -> Self {
        let (high, low) = (a.0.max(b.0), a.0.min(b.0));
        F64(high + (1.0 + (low - high).exp2()).log2())
    }

    fn less(a: &Self, b: &Self) -> bool {
        a.0 < b.0
    }

    fn unit(rng: &mut SmallRng) -> Self {
        F64(rng.random())
    }
}

type Annealing = TreeSA<F64>;
type Greedy = GreedyMethod<F64>;

fn numbers(values: &[f64]) -> Vec<F64> {
    values.iter().map(|v| F64(*v)).collect()
}

fn dict<L: Label + Copy>(sizes: &[(L, usize)]) -> LabelMap<L> {
    let mut map = LabelMap::new();
    for (label, size) in sizes {
        map.insert(*label, *size);
    }
    map
}

fn count(n: usize) -> Count {
    Count::one().times(n)
}

fn close(a: f64, b: f64) -> bool {
    (a - b).abs() < 1e-9
}

/// The matrix chain `ij, jk, kl -> il`.
fn chain() -> EinCode<char> {
    EinCode::new(vec![vec!['i', 'j'], vec!['j', 'k'], vec!['k', 'l']], vec!['i', 'l'])
}

/// The tree `((ab, bc), cd)` for a chain with the output `ad`.
fn chain_tree() -> ExprTree {
    let inner = ExprTree::node(
        ExprTree::leaf(vec![0, 1], 0),
        ExprTree::leaf(vec![1, 2], 1),
        vec![0, 2],
    );
    ExprTree::node(inner, ExprTree::leaf(vec![2, 3], 2), vec![0, 3])
}

fn ids(tree: &ExprTree) -> Vec<usize> {
    match tree {
        ExprTree::Leaf(info) => vec![info.tensor_id.unwrap()],
        ExprTree::Node { left, right, .. } => {
            let mut all = ids(left);
            all.extend(ids(right));
            all
        }
    }
}

#[test]
fn test_count_carries_over_digits() {
    let big = count(usize::MAX).times(usize::MAX);
    assert_eq!(*big.digits(), vec![1, 0, 0xffff_fffe, 0xffff_ffff]);
    let sum = big.plus(&count(usize::MAX));
    assert_eq!(*sum.digits(), vec![0, 0, 0xffff_ffff, 0xffff_ffff]);
    assert_eq!(*sum.plus(&count(1).times(1 << 32).times(1 << 32)).digits(), vec![0, 0, 0, 0, 1]);
    assert!(big.less(&sum));
    assert!(!sum.less(&big));
    assert!(!sum.less(&sum.clone()));
    assert!(count(5).less(&big));
    assert!(!big.less(&count(5)));
    assert!(big.times(0).is_zero());
    assert!(Count::zero().is_zero());
    assert!(!count(1).is_zero());
    assert_eq!(count(7).plus(&Count::zero()), count(7));
}

#[test]
fn test_label_map_keeps_the_last_number() {
    let mut map = LabelMap::new();
    assert_eq!(map.insert('a', 3), None);
    assert_eq!(map.insert('b', 4), None);
    assert_eq!(map.insert('a', 5), Some(3));
    assert_eq!(map.get(&'a'), Some(5));
    assert_eq!(map.get(&'b'), Some(4));
    assert_eq!(map.get(&'c'), None);
    assert!(!map.contains_key(&'c'));
    assert_eq!(map.at(&'b'), 4);
}

#[test]
fn test_labels_come_in_the_order_in_which_they_occur() {
    let code = EinCode::new(vec![vec!['k', 'i'], vec!['i', 'j', 'i']], vec!['j', 'z']);
    assert_eq!(code.num_tensors(), 2);
    assert_eq!(code.unique_labels(), vec!['k', 'i', 'j', 'z']);
    let (map, labels) = build_label_map(&code);
    assert_eq!(labels, vec!['k', 'i', 'j', 'z']);
    assert_eq!(map_labels(&code.iy, &map), vec![2, 3]);
    assert_eq!(convert_to_int_indices(&code.ixs, &map), vec![vec![0, 1], vec![1, 2, 1]]);
}

#[test]
fn test_shapes_of_orders() {
    let pair = |a, b| {
        NestedEinsum::node(vec![a, b], EinCode::new(vec![vec!['x'], vec!['x']], vec!['x']))
    };
    let balanced = pair(
        pair(NestedEinsum::leaf(0), NestedEinsum::leaf(1)),
        pair(NestedEinsum::leaf(3), NestedEinsum::leaf(2)),
    );
    assert!(balanced.is_binary());
    assert!(!balanced.is_path_decomposition());
    assert_eq!(balanced.leaf_indices(), vec![0, 1, 3, 2]);
    let linear = pair(NestedEinsum::leaf(2), pair(NestedEinsum::leaf(0), NestedEinsum::leaf(1)));
    assert!(linear.is_path_decomposition());
    let wide = NestedEinsum::node(
        vec![NestedEinsum::leaf(0), NestedEinsum::leaf(1), NestedEinsum::leaf(2)],
        EinCode::new(vec![vec!['x'], vec!['x'], vec!['x']], vec![]),
    );
    assert!(!wide.is_binary());
    assert!(wide.is_path_decomposition());
    assert_eq!(wide.leaf_count(), 3);
}

#[test]
fn test_rules_that_apply() {
    let leaf = ExprTree::leaf(vec![0], 0);
    let pair = ExprTree::node(ExprTree::leaf(vec![0], 0), ExprTree::leaf(vec![0], 1), vec![]);
    let left = chain_tree();
    let right = ExprTree::node(ExprTree::leaf(vec![0], 2), pair.clone(), vec![]);
    let both = ExprTree::node(pair.clone(), pair.clone(), vec![]);
    let tree = DecompositionType::Tree;
    let path = DecompositionType::Path;
    assert_eq!(Rule::applicable_rules(&leaf, tree), vec![]);
    assert_eq!(Rule::applicable_rules(&pair, tree), vec![]);
    assert_eq!(Rule::applicable_rules(&left, tree), vec![Rule::Rule1, Rule::Rule2]);
    assert_eq!(Rule::applicable_rules(&right, tree), vec![Rule::Rule3, Rule::Rule4]);
    assert_eq!(
        Rule::applicable_rules(&both, tree),
        vec![Rule::Rule1, Rule::Rule2, Rule::Rule3, Rule::Rule4]
    );
    assert_eq!(Rule::applicable_rules(&leaf, path), vec![]);
    assert_eq!(Rule::applicable_rules(&pair, path), vec![Rule::Rule5]);
    assert_eq!(Rule::applicable_rules(&left, path), vec![Rule::Rule1]);
    assert_eq!(Rule::applicable_rules(&right, path), vec![]);
}

#[test]
fn test_what_rules_make_of_a_chain() {
    // ((ab, bc), cd) -> ((ab, cd), bc): every label of the two is needed
    let mut tree = chain_tree();
    assert_eq!(rule_labels(&tree, Rule::Rule1), Some(vec![0, 1, 2, 3]));
    apply_rule_mut(&mut tree, Rule::Rule1, vec![0, 1, 2, 3]);
    assert_eq!(ids(&tree), vec![0, 2, 1]);
    // ((ab, bc), cd) -> ((cd, bc), ab): c is summed
    let mut tree = chain_tree();
    assert_eq!(rule_labels(&tree, Rule::Rule2), Some(vec![3, 1]));
    apply_rule_mut(&mut tree, Rule::Rule2, vec![3, 1]);
    assert_eq!(ids(&tree), vec![2, 1, 0]);
    assert_eq!(*tree.labels(), vec![0, 3]);
    assert_eq!(rule_labels(&tree, Rule::Rule3), None);
    apply_rule_mut(&mut tree, Rule::Rule5, vec![0, 3]);
    assert_eq!(ids(&tree), vec![0, 2, 1]);
    // (ab, (cd, bc)) -> (cd, (ab, bc)) and (bc, (cd, ab))
    assert_eq!(rule_labels(&tree, Rule::Rule3), Some(vec![0, 2]));
    let mut other = tree.clone();
    apply_rule_mut(&mut other, Rule::Rule3, vec![0, 2]);
    assert_eq!(ids(&other), vec![2, 0, 1]);
    assert_eq!(rule_labels(&tree, Rule::Rule4), Some(vec![2, 3, 0, 1]));
    apply_rule_mut(&mut tree, Rule::Rule4, vec![2, 3, 0, 1]);
    assert_eq!(ids(&tree), vec![1, 2, 0]);
    assert_eq!(needed_labels(&vec![0, 1], &vec![1, 2], &vec![2], &vec![0]), vec![0, 2]);
}

#[test]
fn test_cost_of_one_contraction() {
    let table = numbers(&[2.0, 3.0, 1.0]);
    let cost = contraction_cost(&vec![0, 1], &vec![1, 2], &vec![0, 2], &table, true);
    assert_eq!(cost.tc, F64(6.0));
    assert_eq!(cost.sc, F64(3.0));
    // 8 + 32 + 16 entries
    assert!(close(cost.rw.unwrap().0, 56.0_f64.log2()));
    assert!(contraction_cost(&vec![0], &vec![1], &vec![], &table, false).rw.is_none());
}

#[test]
fn test_what_a_rewrite_changes() {
    let table = numbers(&[1.0, 2.0, 3.0, 4.0]);
    let tree = chain_tree();
    // (ab, bc -> ac), (ac, cd -> ad) against (ab, cd -> abcd), (abcd, bc -> ad)
    let diff = rule_diff(&tree, Rule::Rule1, &table, false).unwrap();
    assert!(close(diff.before.tc.0, (64.0_f64 + 256.0).log2()));
    assert!(close(diff.after.tc.0, (1024.0_f64 + 1024.0).log2()));
    assert_eq!(diff.before.sc, F64(5.0));
    assert_eq!(diff.after.sc, F64(10.0));
    assert_eq!(diff.dsc, F64(5.0));
    assert_eq!(diff.new_labels, vec![0, 1, 2, 3]);
    assert!(rule_diff(&tree, Rule::Rule3, &table, false).is_none());
    let turned = rule_diff(&tree, Rule::Rule5, &table, true).unwrap();
    assert_eq!(turned.before.tc, F64(8.0));
    assert_eq!(turned.after.tc, F64(8.0));
    assert_eq!(turned.dsc, F64(0.0));
    assert!(turned.before.rw.is_some());
}

#[test]
fn test_energy_of_a_rewrite() {
    let table = numbers(&[1.0, 2.0, 3.0, 4.0]);
    let diff = rule_diff(&chain_tree(), Rule::Rule1, &table, true).unwrap();
    let dtc = diff.after.tc.0 - diff.before.tc.0;
    // the size grows to 10
    let free = energy_change(&diff, &F64(5.0), &F64(10.0), &F64(2.0), &None);
    assert!(close(free.0, dtc));
    let paid = energy_change(&diff, &F64(5.0), &F64(9.5), &F64(2.0), &None);
    assert!(close(paid.0, 2.0 * 5.0 + dtc));
    // entries: before 8 + 32 + 16 and 16 + 128 + 32, after 8 + 128 + 1024 and 1024 + 32 + 32
    let weighed = energy_change(&diff, &F64(5.0), &F64(10.0), &F64(2.0), &Some(F64(1.0)));
    let before = 64.0 + 256.0 + 2.0 * (56.0 + 176.0);
    let after = 2048.0 + 2.0 * (1160.0 + 1088.0);
    assert!(close(weighed.0, (after / before as f64).log2()));
}

#[test]
fn test_metropolis_takes_what_lowers_the_energy() {
    assert!(metropolis(&F64(2.0), &F64(-0.5), &F64(0.999)));
    assert!(metropolis(&F64(2.0), &F64(0.5), &F64(0.36)));
    assert!(!metropolis(&F64(2.0), &F64(0.5), &F64(0.37)));
    let table = numbers(&[1.0, 1.0, 1.0, 1.0]);
    let path = DecompositionType::Path;
    let mut tree = chain_tree();
    try_rule(
        &mut tree,
        Rule::Rule1,
        &F64(50.0),
        &table,
        &F64(20.0),
        &F64(1.0),
        &None,
        path,
        &F64(0.5),
    );
    assert_eq!(ids(&tree), vec![0, 1, 2]);
    try_rule(
        &mut tree,
        Rule::Rule1,
        &F64(0.0),
        &table,
        &F64(20.0),
        &F64(1.0),
        &None,
        path,
        &F64(0.5),
    );
    assert_eq!(ids(&tree), vec![0, 2, 1]);
    try_rule(
        &mut tree,
        Rule::Rule3,
        &F64(0.0),
        &table,
        &F64(20.0),
        &F64(1.0),
        &None,
        path,
        &F64(0.5),
    );
    assert_eq!(ids(&tree), vec![0, 2, 1]);
}

#[test]
fn test_cost_of_a_tree() {
    let table = numbers(&[1.0, 2.0, 3.0, 4.0]);
    let cost = tree_complexity(&chain_tree(), &table);
    assert!(close(cost.tc.unwrap().0, (64.0_f64 + 256.0).log2()));
    assert_eq!(cost.sc, F64(7.0));
    assert!(close(cost.rw.unwrap().0, (56.0_f64 + 176.0).log2()));
    let leaf = tree_complexity(&ExprTree::leaf(vec![1, 2], 0), &table);
    assert!(leaf.tc.is_none());
    assert!(leaf.rw.is_none());
    assert_eq!(leaf.sc, F64(5.0));
}

#[test]
fn test_score_adds_up_its_parts() {
    let score = ScoreFunction::new(F64(2.0), F64(3.0), F64(0.5), F64(4.0));
    let cost = TreeCost { tc: Some(F64(3.0)), sc: F64(5.0), rw: Some(F64(2.0)) };
    // 2 * 8 + 0.5 * 4 + 3 * (32 - 16)
    assert_eq!(score.evaluate(&cost), F64(66.0));
    let small = TreeCost { tc: Some(F64(3.0)), sc: F64(4.0), rw: Some(F64(2.0)) };
    assert_eq!(score.evaluate(&small), F64(18.0));
    let leaf = TreeCost { tc: None, sc: F64(1.0), rw: None };
    assert_eq!(score.evaluate(&leaf), F64(0.0));
    let default: ScoreFunction<F64> = ScoreFunction::default();
    assert_eq!(default.tc_weight, F64(1.0));
    assert_eq!(default.sc_weight, F64(1.0));
    assert_eq!(default.rw_weight, F64(0.0));
    assert_eq!(default.sc_target, F64(20.0));
}

#[test]
fn test_schedules() {
    let config = Annealing::default();
    assert_eq!(config.betas.len(), 300);
    assert_eq!(config.betas[0], F64(0.01));
    assert_eq!(config.betas[299], F64(0.01 + 0.05 * 299.0));
    assert_eq!(config.initializer, Initializer::Greedy);
    assert_eq!(config.decomposition_type, DecompositionType::Tree);
    let fast = Annealing::fast();
    assert_eq!(fast.betas.len(), 100);
    assert_eq!(fast.betas[0], F64(0.01 + 0.15));
    assert_eq!(fast.betas[99], F64(0.01 + 0.15 * 100.0));
    assert_eq!(trial_seed(0), 42);
    assert_eq!(trial_seed(7), 49);
}

#[test]
fn test_random_splitting() {
    assert_eq!(shared_labels(&vec![0, 1, 2, 3], &vec![2, 1, 3, 4], 4), vec![2, 3]);
    assert_eq!(mend_mask(vec![true, true], 1), vec![true, false]);
    assert_eq!(mend_mask(vec![false, false, false], 0), vec![true, false, false]);
    assert_eq!(mend_mask(vec![false, true, false], 0), vec![false, true, false]);
    let ixs = vec![vec![0, 1], vec![1, 2], vec![2, 3], vec![3, 4]];
    let iy = vec![0, 4];
    let mut shapes = vec![];
    for seed in 0..20 {
        let mut rng = SmallRng::seed_from_u64(seed);
        let tree = init_random(&ixs, &iy, 5, DecompositionType::Tree, &mut rng);
        assert_eq!(*tree.labels(), vec![0, 4]);
        let mut all = ids(&tree);
        if !shapes.contains(&all) {
            shapes.push(all.clone());
        }
        all.sort();
        assert_eq!(all, vec![0, 1, 2, 3]);
    }
    assert!(shapes.len() > 1);
    let mut rng = SmallRng::seed_from_u64(0);
    let path = init_random(&ixs, &iy, 5, DecompositionType::Path, &mut rng);
    assert_eq!(ids(&path), vec![0, 1, 2, 3]);
    match &path {
        ExprTree::Node { left, right, .. } => {
            assert!(right.is_leaf());
            assert_eq!(*left.labels(), vec![0, 3]);
        }
        ExprTree::Leaf(_) => panic!("four tensors are not a leaf"),
    }
}

#[test]
fn test_complexity_of_a_product() {
    let code = EinCode::new(vec![vec!['i', 'j'], vec!['j', 'k']], vec!['i', 'k']);
    let sizes = dict(&[('i', 4), ('j', 8), ('k', 2)]);
    let nested = optimize_code(&code, &sizes, &Greedy::default()).unwrap();
    let cost = contraction_complexity(&nested, &sizes, &code.ixs);
    assert_eq!(cost.tc, count(64));
    assert_eq!(cost.sc, count(8));
    assert_eq!(cost.rwc, count(32 + 16 + 8));
    let leaf: NestedEinsum<char> = NestedEinsum::leaf(0);
    let nothing = contraction_complexity(&leaf, &sizes, &code.ixs);
    assert!(nothing.tc.is_zero() && nothing.sc.is_zero() && nothing.rwc.is_zero());
}

#[test]
fn test_a_product_has_an_order() {
    let code = EinCode::new(vec![vec!['i', 'j'], vec!['j', 'k']], vec!['i', 'k']);
    let sizes = dict(&[('i', 10), ('j', 20), ('k', 10)]);
    assert!(optimize_code(&code, &sizes, &Greedy::default()).is_some());
}

#[test]
fn test_complexity_of_a_chain() {
    let code = chain();
    let sizes = uniform_size_dict(&code, 16);
    assert_eq!(sizes.get(&'k'), Some(16));
    assert_eq!(sizes.get(&'z'), None);
    let nested = optimize_code(&code, &sizes, &Greedy::default()).unwrap();
    let cost = contraction_complexity(&nested, &sizes, &code.ixs);
    assert_eq!(cost.tc, count(2 * 16 * 16 * 16));
    assert_eq!(cost.sc, count(256));
    assert_eq!(cost.rwc, count(6 * 256));
    let direct = eincode_complexity(&code, &sizes);
    assert_eq!(direct.tc, count(16 * 16 * 16 * 16));
    assert_eq!(direct.sc, count(256));
    assert_eq!(direct.rwc, count(4 * 256));
    // two to the power of ninety-six is more than a machine word holds
    let wide: Vec<Vec<usize>> = (0..96).map(|l| vec![l]).collect();
    let product = EinCode::new(wide, vec![]);
    let two = uniform_size_dict(&product, 2);
    assert_eq!(*eincode_complexity(&product, &two).tc.digits(), vec![0, 0, 0, 1]);
}

#[test]
fn test_greedy_takes_the_smallest_result() {
    // jk and kl leave jl of 6 entries, ij and jk leave ik of 20
    let sizes = dict(&[('i', 4), ('j', 3), ('k', 5), ('l', 2)]);
    let nested = optimize_greedy(&chain(), &sizes, &Greedy::default()).unwrap();
    assert_eq!(nested.leaf_indices(), vec![0, 1, 2]);
    match &nested {
        NestedEinsum::Node { args, eins } => {
            assert!(args[0].is_leaf());
            assert_eq!(eins.iy, vec!['i', 'l']);
            match &args[1] {
                NestedEinsum::Node { eins, .. } => {
                    assert_eq!(eins.ixs, vec![vec!['j', 'k'], vec!['k', 'l']]);
                    assert_eq!(eins.iy, vec!['j', 'l']);
                }
                NestedEinsum::Leaf { .. } => panic!("two tensors are not a leaf"),
            }
        }
        NestedEinsum::Leaf { .. } => panic!("three tensors are not a leaf"),
    }
}

#[test]
fn test_weight_of_the_inputs_changes_the_choice() {
    let ixs = vec![vec![0, 1], vec![1, 2], vec![2, 3]];
    let iy = vec![0, 3];
    let sizes = vec![2, 2, 2, 40];
    let mut rng = SmallRng::seed_from_u64(0);
    // the first two leave 4 entries, the last two 80
    let alone = greedy_tree(&ixs, &iy, &sizes, &Greedy::default(), &mut rng);
    assert!(matches!(&alone, ExprTree::Node { right, .. } if right.is_leaf()));
    // with half of the inputs they come to 4 - 4 and 80 - 42
    let half = greedy_tree(&ixs, &iy, &sizes, &Greedy::with_alpha(1, 2), &mut rng);
    assert!(matches!(&half, ExprTree::Node { right, .. } if right.is_leaf()));
    // with a weight a little above one to 4 - 8.4 and 80 - 88.2
    let heavy = greedy_tree(&ixs, &iy, &sizes, &Greedy::with_alpha(21, 20), &mut rng);
    assert!(matches!(&heavy, ExprTree::Node { left, .. } if left.is_leaf()));
}

#[test]
fn test_greedy_at_a_temperature() {
    assert!(switches(&count(10), &count(4), 2, &F64(3.0), &F64(0.36)));
    assert!(!switches(&count(10), &count(4), 2, &F64(3.0), &F64(0.37)));
    let sizes = dict(&[('i', 4), ('j', 3), ('k', 5), ('l', 2)]);
    let cold = optimize_greedy(&chain(), &sizes, &Greedy::stochastic(F64(0.0))).unwrap();
    assert_eq!(cold.leaf_indices(), vec![0, 1, 2]);
    let mut seen = vec![];
    let method = Greedy::stochastic(F64(20.0));
    for _ in 0..200 {
        let nested = optimize_greedy(&chain(), &sizes, &method).unwrap();
        assert!(nested.is_binary());
        assert_eq!(nested.leaf_count(), 3);
        let first = match &nested {
            NestedEinsum::Node { args, .. } => args[0].is_leaf(),
            NestedEinsum::Leaf { .. } => panic!("three tensors are not a leaf"),
        };
        if !seen.contains(&first) {
            seen.push(first);
        }
    }
    assert_eq!(seen.len(), 2);
}

#[test]
fn test_where_there_is_no_order() {
    let sizes = dict(&[('i', 2), ('j', 2), ('k', 2), ('l', 2)]);
    let none: EinCode<char> = EinCode::new(vec![], vec![]);
    let one = EinCode::new(vec![vec!['i', 'j']], vec!['i']);
    let idle = Annealing::fast().with_ntrials(0);
    assert!(optimize_greedy(&none, &sizes, &Greedy::default()).is_none());
    assert!(optimize_treesa(&none, &sizes, &Annealing::fast()).is_none());
    assert!(optimize_treesa(&chain(), &sizes, &idle).is_none());
    let single = optimize_treesa(&one, &sizes, &idle).unwrap();
    assert_eq!(single.leaf_indices(), vec![0]);
    let seed = optimize_greedy(&chain(), &sizes, &Greedy::default()).unwrap();
    assert!(optimize_treesa_warm(&seed, &none, &sizes, &Annealing::fast()).is_none());
    assert!(optimize_treesa_warm(&seed, &chain(), &sizes, &idle).is_none());
    let leaf = NestedEinsum::leaf(0);
    assert!(optimize_treesa_warm(&leaf, &chain(), &sizes, &Annealing::fast()).is_none());
    let named = optimize_treesa_warm(&leaf, &one, &sizes, &idle).unwrap();
    assert!(named.is_leaf());
    let wide = NestedEinsum::node(
        vec![NestedEinsum::leaf(0), NestedEinsum::leaf(1), NestedEinsum::leaf(2)],
        chain(),
    );
    assert!(optimize_treesa_warm(&wide, &chain(), &sizes, &Annealing::fast()).is_none());
}

#[test]
fn test_no_sweeps_keep_the_seed() {
    let code = chain();
    let sizes = dict(&[('i', 2), ('j', 3), ('k', 4), ('l', 5)]);
    let outer = NestedEinsum::node(
        vec![NestedEinsum::leaf(2), NestedEinsum::leaf(0)],
        EinCode::new(vec![vec!['k', 'l'], vec!['i', 'j']], vec!['l', 'k', 'j', 'i']),
    );
    let seed = NestedEinsum::node(
        vec![NestedEinsum::leaf(1), outer],
        EinCode::new(vec![vec!['j', 'k'], vec!['l', 'k', 'j', 'i']], vec!['i', 'l']),
    );
    let still = Annealing::fast().with_niters(0).with_ntrials(3);
    let kept = optimize_treesa_warm(&seed, &code, &sizes, &still).unwrap();
    assert_eq!(format!("{:?}", kept), format!("{:?}", seed));
    let cold = Annealing::fast().with_betas(vec![]);
    let kept = optimize_treesa_warm(&seed, &code, &sizes, &cold).unwrap();
    assert_eq!(format!("{:?}", kept), format!("{:?}", seed));
}

#[test]
fn test_no_sweeps_keep_the_greedy_order() {
    let code = chain();
    let sizes = dict(&[('i', 4), ('j', 3), ('k', 5), ('l', 2)]);
    let greedy = optimize_greedy(&code, &sizes, &Greedy::default()).unwrap();
    let still = Annealing::default().with_niters(0);
    let nested = optimize_treesa(&code, &sizes, &still).unwrap();
    assert_eq!(format!("{:?}", nested), format!("{:?}", greedy));
}

#[test]
fn test_the_first_one_of_the_best_trials_wins() {
    let code = EinCode::new(
        vec![vec![0usize, 1], vec![1, 2, 5], vec![2, 3], vec![3, 4, 5], vec![4, 0]],
        vec![],
    );
    let sizes = dict(&[(0, 2), (1, 3), (2, 5), (3, 2), (4, 7), (5, 3)]);
    let mut config = Annealing::fast().with_niters(0).with_ntrials(6);
    config.initializer = Initializer::Random;
    let (map, labels) = build_label_map(&code);
    let ixs = convert_to_int_indices(&code.ixs, &map);
    let iy = map_labels(&code.iy, &map);
    let table: Vec<F64> = labels.iter().map(|l| F64::log2_of(sizes.at(l))).collect();
    let trials: Vec<_> =
        (0..6).map(|k| run_trial(k, &None, &ixs, &iy, &table, &config)).collect();
    let mut best = 0;
    for k in 1..6 {
        if trials[k].score.0 < trials[best].score.0 {
            best = k;
        }
    }
    assert!(trials.iter().any(|t| t.score != trials[best].score));
    let expected = expr_tree_to_nested(&trials[best].tree, &code.ixs, &labels, &code.iy, 0);
    let nested = optimize_treesa(&code, &sizes, &config).unwrap();
    assert_eq!(format!("{:?}", nested), format!("{:?}", expected));
}

#[test]
fn test_more_trials_than_run_at_once() {
    let code = EinCode::new(vec![vec!['i', 'j'], vec!['j', 'k']], vec!['i', 'k']);
    let sizes = dict(&[('i', 2), ('j', 2), ('k', 2)]);
    let config = Annealing::fast().with_niters(1).with_ntrials(2500);
    let nested = optimize_treesa(&code, &sizes, &config).unwrap();
    assert_eq!(nested.leaf_count(), 2);
}

#[test]
fn test_sweeps_keep_the_leaves() {
    let ixs = vec![vec![0, 1], vec![1, 2, 5], vec![2, 3], vec![3, 4, 5], vec![4, 0]];
    let iy = vec![5];
    let table = numbers(&[1.0, 2.0, 1.0, 3.0, 1.0, 2.0]);
    for decomp in [DecompositionType::Tree, DecompositionType::Path] {
        let mut rng = SmallRng::seed_from_u64(3);
        let mut tree = init_random(&ixs, &iy, 6, decomp, &mut rng);
        let start = tree.clone();
        for _ in 0..50 {
            optimize_subtree_mut(
                &mut tree,
                &F64(0.1),
                &table,
                &F64(2.0),
                &F64(1.0),
                &Some(F64(0.5)),
                decomp,
                &mut rng,
            );
            let mut all = ids(&tree);
            all.sort();
            assert_eq!(all, vec![0, 1, 2, 3, 4]);
            assert_eq!(*tree.labels(), vec![5]);
        }
        assert_ne!(ids(&tree), ids(&start));
    }
    let mut rng = SmallRng::seed_from_u64(3);
    let start = init_random(&ixs, &iy, 6, DecompositionType::Tree, &mut rng);
    let score = ScoreFunction::default();
    let betas = numbers(&[0.1, 1.0, 10.0, 100.0]);
    let before = score.evaluate(&tree_complexity(&start, &table));
    let end = optimize_tree_sa(
        start,
        &table,
        &betas,
        50,
        &score,
        DecompositionType::Tree,
        &mut rng,
    );
    assert!(score.evaluate(&tree_complexity(&end, &table)).0 <= before.0);
}

#[test]
fn test_linear_orders() {
    let code = EinCode::new(
        vec![vec![0usize, 1], vec![1, 2, 5], vec![2, 3], vec![3, 4, 5], vec![4, 0]],
        vec![],
    );
    let sizes = uniform_size_dict(&code, 3);
    let config = Annealing::path().with_ntrials(2).with_niters(3);
    let nested = optimize_code(&code, &sizes, &config).unwrap();
    assert!(nested.is_binary());
    assert!(nested.is_path_decomposition());
    let mut leaves = nested.leaf_indices();
    leaves.sort();
    assert_eq!(leaves, vec![0, 1, 2, 3, 4]);
}

/// A ring of five tensors with a label across.
fn ring() -> EinCode<usize> {
    EinCode::new(
        vec![vec![0, 1], vec![1, 2, 5], vec![2, 3], vec![3, 4, 5], vec![4, 0]],
        vec![],
    )
}

/// The sizes of the labels of the ring.
fn ring_sizes() -> LabelMap<usize> {
    dict(&[(0, 2), (1, 3), (2, 5), (3, 2), (4, 7), (5, 3)])
}

/// The logarithms of the sizes of the labels of the ring.
fn ring_table() -> Vec<F64> {
    (0..6).map(|l| F64::log2_of(ring_sizes().at(&l))).collect()
}

/// A random tree for the ring.
fn ring_tree(seed: u64) -> ExprTree {
    let mut rng = SmallRng::seed_from_u64(seed);
    init_random(&ring().ixs, &vec![], 6, DecompositionType::Tree, &mut rng)
}

/// Whether two generators draw the same number next.
fn in_step(a: &mut SmallRng, b: &mut SmallRng) -> bool {
    let (x, y): (u64, u64) = (a.random(), b.random());
    x == y
}

#[test]
fn test_where_nothing_is_drawn() {
    let mut rng = SmallRng::seed_from_u64(5);
    let mut still = SmallRng::seed_from_u64(5);
    init_random(&ring().ixs, &vec![], 6, DecompositionType::Path, &mut rng);
    assert!(in_step(&mut rng, &mut still));
    let score = ScoreFunction::default();
    let tree = DecompositionType::Tree;
    let betas = numbers(&[0.1, 1.0]);
    let kept = optimize_tree_sa(ring_tree(1), &ring_table(), &betas, 0, &score, tree, &mut rng);
    assert_eq!(kept, ring_tree(1));
    let kept = optimize_tree_sa(ring_tree(1), &ring_table(), &vec![], 9, &score, tree, &mut rng);
    assert_eq!(kept, ring_tree(1));
    assert!(in_step(&mut rng, &mut still));
    let pair = || {
        ExprTree::node(ExprTree::leaf(vec![0, 1], 0), ExprTree::leaf(vec![1, 2], 1), vec![0, 2])
    };
    for start in [ExprTree::leaf(vec![0, 1], 0), pair()] {
        let mut swept = start.clone();
        let (beta, target, weight) = (F64(0.1), F64(2.0), F64(1.0));
        let table = ring_table();
        optimize_subtree_mut(
            &mut swept, &beta, &table, &target, &weight, &None, tree, &mut rng,
        );
        assert_eq!(swept, start);
        assert!(in_step(&mut rng, &mut still));
    }
    let greedy = Greedy::default();
    greedy_tree(&ring().ixs, &vec![], &vec![2, 3, 5, 2, 7, 3], &greedy, &mut rng);
    assert!(in_step(&mut rng, &mut still));
    optimize_greedy_from(&ring(), &ring_sizes(), &greedy, &mut rng);
    assert!(in_step(&mut rng, &mut still));
    let mut swept = pair();
    let (beta, target, weight) = (F64(0.1), F64(2.0), F64(1.0));
    let table = ring_table();
    let path = DecompositionType::Path;
    optimize_subtree_mut(&mut swept, &beta, &table, &target, &weight, &None, path, &mut rng);
    assert!(!in_step(&mut rng, &mut still));
}

#[test]
fn test_what_a_try_draws() {
    let table = ring_table();
    let (beta, target, weight) = (F64(0.3), F64(2.0), F64(1.0));
    let tree = DecompositionType::Tree;
    let mut made = 0;
    for seed in 0..40 {
        let mut rng = SmallRng::seed_from_u64(seed);
        let mut swept = chain_tree();
        optimize_subtree_mut(
            &mut swept, &beta, &table, &target, &weight, &None, tree, &mut rng,
        );
        let mut by_hand = SmallRng::seed_from_u64(seed);
        let rules = [Rule::Rule1, Rule::Rule2];
        let rule = rules[by_hand.random_range(0..rules.len())];
        let draw = F64::unit(&mut by_hand);
        let mut tried = chain_tree();
        try_rule(&mut tried, rule, &beta, &table, &target, &weight, &None, tree, &draw);
        assert_eq!(swept, tried);
        assert!(in_step(&mut rng, &mut by_hand));
        if swept != chain_tree() {
            made += 1;
        }
    }
    assert!(0 < made && made < 40);
}

#[test]
fn test_schedules_compose() {
    let score = ScoreFunction::new(F64(1.0), F64(1.0), F64(0.5), F64(4.0));
    let tree = DecompositionType::Tree;
    let table = ring_table();
    for seed in 0..10 {
        let mut rng = SmallRng::seed_from_u64(seed);
        let betas = numbers(&[0.1, 0.2]);
        let half = optimize_tree_sa(ring_tree(seed), &table, &betas, 3, &score, tree, &mut rng);
        let end =
            optimize_tree_sa(half, &table, &numbers(&[0.3, 0.4]), 3, &score, tree, &mut rng);
        let mut other = SmallRng::seed_from_u64(seed);
        let betas = numbers(&[0.1, 0.2, 0.3, 0.4]);
        let whole =
            optimize_tree_sa(ring_tree(seed), &table, &betas, 3, &score, tree, &mut other);
        assert_eq!(end, whole);
        assert!(in_step(&mut rng, &mut other));
    }
}

#[test]
fn test_weights_that_play_no_part() {
    let tree = DecompositionType::Tree;
    let table = ring_table();
    let betas = numbers(&[0.1, 0.5, 1.0]);
    let run = |score: &ScoreFunction<F64>, seed: u64| {
        let mut rng = SmallRng::seed_from_u64(seed);
        let end = optimize_tree_sa(ring_tree(seed), &table, &betas, 4, score, tree, &mut rng);
        format!("{:?} {:?}", end, rng)
    };
    let mut differ = false;
    for seed in 0..10 {
        let plain = ScoreFunction::new(F64(1.0), F64(1.0), F64(0.5), F64(2.0));
        let heavy = ScoreFunction::new(F64(9.0), F64(1.0), F64(0.5), F64(2.0));
        assert_eq!(run(&plain, seed), run(&heavy, seed));
        let wide = ScoreFunction::new(F64(1.0), F64(1.0), F64(0.0), F64(f64::INFINITY));
        let free = ScoreFunction::new(F64(1.0), F64(99.0), F64(-1.0), F64(f64::INFINITY));
        assert_eq!(run(&wide, seed), run(&free, seed));
        let tight = ScoreFunction::new(F64(1.0), F64(99.0), F64(0.0), F64(2.0));
        differ = differ || run(&tight, seed) != run(&free, seed);
    }
    assert!(differ);
}

#[test]
fn test_warm_start_ignores_the_initializer() {
    let seed = optimize_greedy(&ring(), &ring_sizes(), &Greedy::default()).unwrap();
    let mut config = Annealing::fast().with_niters(2).with_ntrials(3);
    config.initializer = Initializer::Greedy;
    let greedy = optimize_treesa_warm(&seed, &ring(), &ring_sizes(), &config).unwrap();
    config.initializer = Initializer::Random;
    let random = optimize_treesa_warm(&seed, &ring(), &ring_sizes(), &config).unwrap();
    assert_eq!(greedy, random);
    config.initializer = Initializer::Greedy;
    assert_eq!(optimize_treesa(&ring(), &ring_sizes(), &config).unwrap(), greedy);
}

#[test]
fn test_linear_splitting_keeps_the_order() {
    let mut rng = SmallRng::seed_from_u64(0);
    let path = DecompositionType::Path;
    let first = init_random(&ring().ixs, &vec![], 6, path, &mut rng);
    assert_eq!(ids(&first), vec![0, 1, 2, 3, 4]);
    for seed in 1..10 {
        let mut rng = SmallRng::seed_from_u64(seed);
        assert_eq!(init_random(&ring().ixs, &vec![], 6, path, &mut rng), first);
    }
}

#[test]
fn test_the_same_call_gives_the_same_order() {
    let cold = Greedy::default();
    let first = optimize_greedy(&ring(), &ring_sizes(), &cold).unwrap();
    assert_eq!(optimize_greedy(&ring(), &ring_sizes(), &cold).unwrap(), first);
    let hot = Greedy::stochastic(F64(20.0));
    for seed in 0..10 {
        let mut rng = SmallRng::seed_from_u64(seed);
        let mut other = SmallRng::seed_from_u64(seed);
        assert_eq!(
            optimize_greedy_from(&ring(), &ring_sizes(), &hot, &mut rng),
            optimize_greedy_from(&ring(), &ring_sizes(), &hot, &mut other)
        );
        assert!(in_step(&mut rng, &mut other));
    }
    let mut config = Annealing::fast().with_niters(2).with_ntrials(4);
    for initializer in [Initializer::Greedy, Initializer::Random] {
        config.initializer = initializer;
        let first = optimize_treesa(&ring(), &ring_sizes(), &config).unwrap();
        for _ in 0..3 {
            assert_eq!(optimize_code(&ring(), &ring_sizes(), &config).unwrap(), first);
        }
    }
}

#[test]
fn test_more_trials_find_nothing_worse() {
    let mut config = Annealing::fast().with_niters(0);
    config.initializer = Initializer::Random;
    let (map, labels) = build_label_map(&ring());
    let ixs = convert_to_int_indices(&ring().ixs, &map);
    let table: Vec<F64> = labels.iter().map(|l| F64::log2_of(ring_sizes().at(l))).collect();
    let mut last = f64::INFINITY;
    let mut drops = 0;
    for ntrials in 1..12 {
        config.ntrials = ntrials;
        let nested = optimize_treesa(&ring(), &ring_sizes(), &config).unwrap();
        let score = (0..ntrials)
            .map(|k| run_trial(k, &None, &ixs, &vec![], &table, &config))
            .find(|t| expr_tree_to_nested(&t.tree, &ring().ixs, &labels, &vec![], 0) == nested)
            .map(|t| t.score.0)
            .unwrap();
        assert!(score <= last);
        if score < last {
            drops += 1;
        }
        last = score;
    }
    assert!(drops > 1);
}

/// The entry of an input tensor.
fn entry(tensor: usize, ix: &[usize], at: &[usize]) -> i64 {
    let mut place = 1;
    for l in ix {
        place = place * 5 + at[*l] as i64;
    }
    (place * 31 + tensor as i64 * 17) % 11 - 5
}

/// The sum over the labels of `free`, from the first one on.
fn total(free: &[usize], at: &mut Vec<usize>, f: &dyn Fn(&mut Vec<usize>) -> i64) -> i64 {
    match free.split_first() {
        None => f(at),
        Some((l, rest)) => {
            let kept = at[*l];
            let mut sum = 0;
            for v in 0..SIZES[*l] {
                at[*l] = v;
                sum += total(rest, at, f);
            }
            at[*l] = kept;
            sum
        }
    }
}

const SIZES: [usize; 6] = [2, 3, 2, 2, 3, 2];

/// The labels of `ixs` that `iy` does not list.
fn summed(ixs: &[Vec<usize>], iy: &[usize]) -> Vec<usize> {
    let mut free = vec![];
    for l in ixs.iter().flatten() {
        if !iy.contains(l) && !free.contains(l) {
            free.push(*l);
        }
    }
    free
}

fn value(nested: &NestedEinsum<usize>, code: &EinCode<usize>, at: &mut Vec<usize>) -> i64 {
    match nested {
        NestedEinsum::Leaf { tensor_index } => {
            entry(*tensor_index, &code.ixs[*tensor_index], at)
        }
        NestedEinsum::Node { args, eins } => {
            let free = summed(&eins.ixs, &eins.iy);
            total(&free, at, &|at| args.iter().map(|arg| value(arg, code, at)).product())
        }
    }
}

#[test]
fn test_every_order_computes_the_expression() {
    let code = EinCode::new(
        vec![vec![0usize, 1], vec![1, 2, 5], vec![2, 3, 1], vec![3, 4, 5], vec![4, 0]],
        vec![5],
    );
    let sizes = dict(&(0..6).map(|l| (l, SIZES[l])).collect::<Vec<_>>());
    let mut random = Annealing::fast();
    random.initializer = Initializer::Random;
    let orders = [
        optimize_code(&code, &sizes, &Greedy::default()).unwrap(),
        optimize_code(&code, &sizes, &Annealing::fast()).unwrap(),
        optimize_code(&code, &sizes, &random).unwrap(),
        optimize_code(&code, &sizes, &Annealing::path().with_niters(2)).unwrap(),
    ];
    for v in 0..SIZES[5] {
        let mut at = vec![0, 0, 0, 0, 0, v];
        let free = summed(&code.ixs, &code.iy);
        let direct = total(&free, &mut at, &|at| {
            code.ixs.iter().enumerate().map(|(k, ix)| entry(k, ix, at)).product()
        });
        for order in &orders {
            assert_eq!(value(order, &code, &mut at), direct);
        }
    }
}
