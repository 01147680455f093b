//! Contraction orders from both optimizers, what they cost and what they compute.

use omeco::{
    contraction_complexity, optimize_code, Count, EinCode, GreedyMethod, Label, LabelMap,
    NestedEinsum, Scalar, TreeSA,
};
use rand::rngs::SmallRng;
use rand::Rng;

/// Double precision.
#[derive(Debug, Clone, Copy, PartialEq)]
struct F64(f64);

impl Scalar for F64 {
    fn zero() -> Self {
        F64(0.0)
    }

    fn affine(start: u64, step: u64, index: u64) -> Self {
        F64(start as f64 / 100.0 + step as f64 / 100.0 * index as f64)
    }

    fn of_count(count: &Count) -> Self {
        F64(count.digits().iter().rev().fold(0.0, |sum, d| sum * 4294967296.0 + *d as f64))
    }

    fn log2_of(size: usize) -> Self {
        F64((size as f64).log2())
    }

    fn log2(a: &Self) -> Self {
        F64(a.0.log2())
    }

    fn exp2(a: &Self) -> Self {
        F64(a.0.exp2())
    }

    fn exp(a: &Self) -> Self {
        F64(a.0.exp())
    }

    fn negated(a: &Self) -> Self {
        F64(-a.0)
    }

    fn plus(a: &Self, b: &Self) -> Self {
        F64(a.0 + b.0)
    }

    fn minus(a: &Self, b: &Self) -> Self {
        F64(a.0 - b.0)
    }

    fn times(a: &Self, b: &Self) -> Self {
        F64(a.0 * b.0)
    }

    fn quotient(a: &Self, b: &Self) -> Self {
        F64(a.0 / b.0)
    }

    fn maximum(a: &Self, b: &Self) -> Self {
        F64(a.0.max(b.0))
    }

    fn log2_sum_exp2(a: &Self, b: &Self) -> Self {
        let (high, low) = (a.0.max(b.0), a.0.min(b.0));
        F64(high + (1.0 + (low - high).exp2()).log2())
    }

    fn less(a: &Self, b: &Self) -> bool {
        a.0 < b.0
    }

    fn unit(rng: &mut SmallRng) -> Self {
        F64(rng.random())
    }
}

type Annealing = TreeSA<F64>;
type Greedy = GreedyMethod<F64>;

fn dict<L: Label + Copy>(sizes: &[(L, usize)]) -> LabelMap<L> {
    let mut map = LabelMap::new();
    for (label, size) in sizes {
        map.insert(*label, *size);
    }
    map
}

fn log2(count: &Count) -> f64 {
    F64::of_count(count).0.log2()
}

/// A tensor with its entries in row-major order.
#[derive(Debug, Clone)]
struct Dense {
    shape: Vec<usize>,
    data: Vec<f64>,
}

impl Dense {
    fn shape(&self) -> &[usize] {
        &self.shape
    }

    fn ndim(&self) -> usize {
        self.shape.len()
    }
}

/// Evaluates expressions one product at a time.
#[derive(Debug, Clone)]
struct NaiveContractor {
    tensors: Vec<Dense>,
}

impl NaiveContractor {
    fn new() -> Self {
        NaiveContractor { tensors: vec![] }
    }

    fn add_tensor(&mut self, index: usize, shape: Vec<usize>) {
        assert_eq!(index, self.tensors.len());
        let count: usize = shape.iter().product();
        let data = (0..count).map(|k| ((k * 37 + index * 101 + 11) % 97) as f64 / 97.0 - 0.4);
        self.tensors.push(Dense { shape, data: data.collect() });
    }

    fn get_tensor(&self, index: usize) -> Option<&Dense> {
        self.tensors.get(index)
    }
}

fn offset(labels: &[usize], tensor_shape: &[usize], all: &[usize], at: &[usize]) -> usize {
    let mut place = 0;
    for (k, l) in labels.iter().enumerate() {
        let j = all.iter().position(|x| x == l).unwrap();
        place = place * tensor_shape[k] + at[j];
    }
    place
}

fn execute_nested(nested: &NestedEinsum<usize>, contractor: &mut NaiveContractor) -> usize {
    match nested {
        NestedEinsum::Leaf { tensor_index } => *tensor_index,
        NestedEinsum::Node { args, eins } => {
            let inputs: Vec<usize> =
                args.iter().map(|arg| execute_nested(arg, contractor)).collect();
            let all = eins.unique_labels();
            let mut sizes = vec![1; all.len()];
            for (k, ix) in eins.ixs.iter().enumerate() {
                for (j, l) in ix.iter().enumerate() {
                    let place = all.iter().position(|x| x == l).unwrap();
                    sizes[place] = contractor.tensors[inputs[k]].shape[j];
                }
            }
            let shape: Vec<usize> = eins
                .iy
                .iter()
                .map(|l| sizes[all.iter().position(|x| x == l).unwrap()])
                .collect();
            let mut data = vec![0.0; shape.iter().product()];
            let mut at = vec![0; all.len()];
            loop {
                let mut product = 1.0;
                for (k, ix) in eins.ixs.iter().enumerate() {
                    let tensor = &contractor.tensors[inputs[k]];
                    product *= tensor.data[offset(ix, &tensor.shape, &all, &at)];
                }
                data[offset(&eins.iy, &shape, &all, &at)] += product;
                let mut k = all.len();
                while k > 0 && at[k - 1] + 1 == sizes[k - 1] {
                    at[k - 1] = 0;
                    k -= 1;
                }
                if k == 0 {
                    break;
                }
                at[k - 1] += 1;
            }
            contractor.tensors.push(Dense { shape, data });
            contractor.tensors.len() - 1
        }
    }
}

fn tensors_approx_equal(a: &Dense, b: &Dense, rtol: f64, atol: f64) -> bool {
    a.shape == b.shape
        && a.data.iter().zip(b.data.iter()).all(|(x, y)| (x - y).abs() <= atol + rtol * y.abs())
}

#[test]
fn test_optimize_code_greedy() {
    let code = EinCode::new(
        vec![vec!['i', 'j'], vec!['j', 'k'], vec!['k', 'l']],
        vec!['i', 'l'],
    );

    let mut sizes = LabelMap::new();
    sizes.insert('i', 4);
    sizes.insert('j', 8);
    sizes.insert('k', 8);
    sizes.insert('l', 4);

    let result = optimize_code(&code, &sizes, &Greedy::default());
    assert!(result.is_some());

    let nested = result.unwrap();
    assert!(nested.is_binary());
    assert_eq!(nested.leaf_count(), 3);
}

#[test]
fn test_optimize_code_treesa() {
    let code = EinCode::new(vec![vec!['i', 'j'], vec!['j', 'k']], vec!['i', 'k']);

    let mut sizes = LabelMap::new();
    sizes.insert('i', 4);
    sizes.insert('j', 8);
    sizes.insert('k', 4);

    let result = optimize_code(&code, &sizes, &Annealing::fast());
    assert!(result.is_some());

    let nested = result.unwrap();
    assert!(nested.is_binary());
}

#[test]
fn test_contraction_complexity_wrapper() {
    let code = EinCode::new(vec![vec!['i', 'j'], vec!['j', 'k']], vec!['i', 'k']);

    let mut sizes = LabelMap::new();
    sizes.insert('i', 4);
    sizes.insert('j', 8);
    sizes.insert('k', 4);

    let result = optimize_code(&code, &sizes, &Greedy::default()).unwrap();
    let complexity = contraction_complexity(&result, &sizes, &code.ixs);

    assert!(log2(&complexity.tc) > 0.0);
    assert!(log2(&complexity.sc) > 0.0);
}

#[test]
fn test_single_tensor() {
    let code = EinCode::new(vec![vec!['i', 'j']], vec!['i', 'j']);

    let mut sizes = LabelMap::new();
    sizes.insert('i', 4);
    sizes.insert('j', 4);

    let result = optimize_code(&code, &sizes, &Greedy::default());
    assert!(result.is_some());
    assert!(result.unwrap().is_leaf());
}

#[test]
fn test_trace() {
    let code = EinCode::new(
        vec![vec!['i', 'j'], vec!['j', 'i']],
        vec![], // Trace - no output
    );

    let mut sizes = LabelMap::new();
    sizes.insert('i', 4);
    sizes.insert('j', 4);

    let result = optimize_code(&code, &sizes, &Greedy::default());
    assert!(result.is_some());
}

#[test]
fn test_empty_code() {
    let code: EinCode<char> = EinCode::new(vec![], vec![]);
    let sizes: LabelMap<char> = LabelMap::new();

    let result = optimize_code(&code, &sizes, &Greedy::default());
    assert!(result.is_none());
}

#[test]
fn test_contraction_complexity_deep_tree() {
    let code = EinCode::new(
        vec![
            vec!['a', 'b'],
            vec!['b', 'c'],
            vec!['c', 'd'],
            vec!['d', 'e'],
        ],
        vec!['a', 'e'],
    );

    let mut sizes = LabelMap::new();
    sizes.insert('a', 2);
    sizes.insert('b', 2);
    sizes.insert('c', 2);
    sizes.insert('d', 2);
    sizes.insert('e', 2);

    let nested = optimize_code(&code, &sizes, &Greedy::default()).unwrap();
    let complexity = contraction_complexity(&nested, &sizes, &code.ixs);

    // Deep tree should have multiple contractions
    assert!(log2(&complexity.tc) > 0.0);
    assert!(log2(&complexity.sc) > 0.0);
    assert!(log2(&complexity.rwc) > 0.0);
}

#[test]
fn test_optimize_code_treesa_with_path_decomp() {
    let code = EinCode::new(
        vec![vec!['i', 'j'], vec!['j', 'k'], vec!['k', 'l']],
        vec!['i', 'l'],
    );

    let mut sizes = LabelMap::new();
    sizes.insert('i', 4);
    sizes.insert('j', 8);
    sizes.insert('k', 8);
    sizes.insert('l', 4);

    let result = optimize_code(&code, &sizes, &Annealing::path());
    assert!(result.is_some());

    let nested = result.unwrap();
    // Path decomposition should produce a valid tree
    assert!(nested.is_binary() || nested.is_leaf());
}

#[test]
fn test_issue_13_greedy_scalar_output() {
    // A[i,j] @ B[j,k] -> scalar (empty iy)
    let code = EinCode::new(vec![vec![0usize, 1], vec![1usize, 2]], vec![]);

    let sizes: LabelMap<usize> = dict(&[(0, 2), (1, 2), (2, 2)]);
    let optimizer = Greedy::default();

    let tree = optimize_code(&code, &sizes, &optimizer).expect("should optimize");

    match &tree {
        NestedEinsum::Node { eins, .. } => {
            assert_eq!(
                eins.iy, code.iy,
                "Root node's iy should match requested output. Got {:?}, expected {:?}",
                eins.iy, code.iy
            );
        }
        NestedEinsum::Leaf { .. } => {
            panic!("Multi-tensor operation should not return Leaf");
        }
    }
}

#[test]
fn test_issue_13_greedy_partial_output() {
    // A[i,j] @ B[j,k] -> [i] (only keep first index)
    let code = EinCode::new(vec![vec![0usize, 1], vec![1usize, 2]], vec![0usize]);

    let sizes: LabelMap<usize> = dict(&[(0, 2), (1, 2), (2, 2)]);
    let optimizer = Greedy::default();

    let tree = optimize_code(&code, &sizes, &optimizer).expect("should optimize");

    match &tree {
        NestedEinsum::Node { eins, .. } => {
            assert_eq!(
                eins.iy, code.iy,
                "Root node's iy should match requested output. Got {:?}, expected {:?}",
                eins.iy, code.iy
            );
        }
        NestedEinsum::Leaf { .. } => {
            panic!("Multi-tensor operation should not return Leaf");
        }
    }
}

#[test]
fn test_issue_13_treesa_scalar_output() {
    // TreeSA respects the final output indices
    let code = EinCode::new(vec![vec![0usize, 1], vec![1usize, 2]], vec![]);

    let sizes: LabelMap<usize> = dict(&[(0, 2), (1, 2), (2, 2)]);
    let optimizer = Annealing::fast();

    let tree = optimize_code(&code, &sizes, &optimizer).expect("should optimize");

    match &tree {
        NestedEinsum::Node { eins, .. } => {
            assert_eq!(
                eins.iy, code.iy,
                "TreeSA root node's iy should match requested output. Got {:?}, expected {:?}",
                eins.iy, code.iy
            );
        }
        NestedEinsum::Leaf { .. } => {
            panic!("Multi-tensor operation should not return Leaf");
        }
    }
}

#[test]
fn test_issue_13_treesa_partial_output() {
    // A[i,j] @ B[j,k] -> [k] (only keep last index)
    let code = EinCode::new(vec![vec![0usize, 1], vec![1usize, 2]], vec![2usize]);

    let sizes: LabelMap<usize> = dict(&[(0, 2), (1, 2), (2, 2)]);
    let optimizer = Annealing::fast();

    let tree = optimize_code(&code, &sizes, &optimizer).expect("should optimize");

    match &tree {
        NestedEinsum::Node { eins, .. } => {
            assert_eq!(
                eins.iy, code.iy,
                "TreeSA root node's iy should match requested output. Got {:?}, expected {:?}",
                eins.iy, code.iy
            );
        }
        NestedEinsum::Leaf { .. } => {
            panic!("Multi-tensor operation should not return Leaf");
        }
    }
}

#[test]
fn test_issue_13_greedy_chain_scalar_output() {
    // 3 tensors: A[i,j] @ B[j,k] @ C[k,l] -> scalar
    // This exercises the level > 0 branch for intermediate nodes
    let code = EinCode::new(
        vec![vec![0usize, 1], vec![1usize, 2], vec![2usize, 3]],
        vec![],
    );

    let sizes: LabelMap<usize> = dict(&[(0, 2), (1, 2), (2, 2), (3, 2)]);
    let optimizer = Greedy::default();

    let tree = optimize_code(&code, &sizes, &optimizer).expect("should optimize");

    // Verify root has requested output
    match &tree {
        NestedEinsum::Node { eins, .. } => {
            assert_eq!(
                eins.iy, code.iy,
                "Root node's iy should be empty (scalar). Got {:?}",
                eins.iy
            );
        }
        NestedEinsum::Leaf { .. } => {
            panic!("3-tensor operation should not return Leaf");
        }
    }
}

#[test]
fn test_issue_13_greedy_chain_partial_output() {
    // 3 tensors: A[i,j] @ B[j,k] @ C[k,l] -> [i] (only first index)
    let code = EinCode::new(
        vec![vec![0usize, 1], vec![1usize, 2], vec![2usize, 3]],
        vec![0usize],
    );

    let sizes: LabelMap<usize> = dict(&[(0, 2), (1, 2), (2, 2), (3, 2)]);
    let optimizer = Greedy::default();

    let tree = optimize_code(&code, &sizes, &optimizer).expect("should optimize");

    match &tree {
        NestedEinsum::Node { eins, .. } => {
            assert_eq!(
                eins.iy, code.iy,
                "Root node's iy should be [0]. Got {:?}",
                eins.iy
            );
        }
        NestedEinsum::Leaf { .. } => {
            panic!("3-tensor operation should not return Leaf");
        }
    }
}

#[test]
fn test_issue_13_treesa_chain_scalar_output() {
    // 3 tensors with TreeSA
    let code = EinCode::new(
        vec![vec![0usize, 1], vec![1usize, 2], vec![2usize, 3]],
        vec![],
    );

    let sizes: LabelMap<usize> = dict(&[(0, 2), (1, 2), (2, 2), (3, 2)]);
    let optimizer = Annealing::fast();

    let tree = optimize_code(&code, &sizes, &optimizer).expect("should optimize");

    match &tree {
        NestedEinsum::Node { eins, .. } => {
            assert_eq!(
                eins.iy, code.iy,
                "TreeSA root node's iy should be empty (scalar). Got {:?}",
                eins.iy
            );
        }
        NestedEinsum::Leaf { .. } => {
            panic!("3-tensor operation should not return Leaf");
        }
    }
}

#[test]
fn test_issue_13_intermediate_nodes_have_correct_output() {
    // Verify that intermediate nodes have hypergraph-computed output
    // A[i,j] @ B[j,k] @ C[k,l] -> [i,l]
    let code = EinCode::new(
        vec![vec!['i', 'j'], vec!['j', 'k'], vec!['k', 'l']],
        vec!['i', 'l'],
    );

    let sizes: LabelMap<char> = dict(&[('i', 2), ('j', 2), ('k', 2), ('l', 2)]);
    let optimizer = Greedy::default();

    let tree = optimize_code(&code, &sizes, &optimizer).expect("should optimize");

    // Root should have requested output [i, l]
    match &tree {
        NestedEinsum::Node { eins, args, .. } => {
            assert_eq!(eins.iy, vec!['i', 'l'], "Root iy should be [i, l]");

            // Check that we have intermediate nodes (not just leaves)
            let has_intermediate = args.iter().any(|arg| !arg.is_leaf());
            assert!(
                has_intermediate,
                "Should have at least one intermediate node"
            );
        }
        NestedEinsum::Leaf { .. } => {
            panic!("3-tensor operation should not return Leaf");
        }
    }
}

#[test]
fn test_numerical_matrix_chain() {
    // Verify A[i,j] * B[j,k] * C[k,l] * D[l,m] produces same result
    // regardless of contraction order
    let code = EinCode::new(
        vec![vec![1usize, 2], vec![2, 3], vec![3, 4], vec![4, 5]],
        vec![1, 5],
    );

    let sizes: LabelMap<usize> = dict(&[(1, 3), (2, 4), (3, 5), (4, 4), (5, 3)]);
    // Setup identical tensors for both contractors
    let mut contractor_greedy = NaiveContractor::new();
    contractor_greedy.add_tensor(0, vec![3, 4]); // A
    contractor_greedy.add_tensor(1, vec![4, 5]); // B
    contractor_greedy.add_tensor(2, vec![5, 4]); // C
    contractor_greedy.add_tensor(3, vec![4, 3]); // D

    let mut contractor_treesa = contractor_greedy.clone();

    // Optimize with both methods
    let greedy_tree =
        optimize_code(&code, &sizes, &Greedy::default()).expect("Greedy should succeed");
    let treesa_tree =
        optimize_code(&code, &sizes, &Annealing::fast()).expect("TreeSA should succeed");

    // Execute both
    let greedy_idx = execute_nested(&greedy_tree, &mut contractor_greedy);
    let treesa_idx = execute_nested(&treesa_tree, &mut contractor_treesa);

    // Compare results
    let greedy_result = contractor_greedy.get_tensor(greedy_idx).unwrap();
    let treesa_result = contractor_treesa.get_tensor(treesa_idx).unwrap();

    assert_eq!(
        greedy_result.shape(),
        treesa_result.shape(),
        "Shapes should match"
    );
    assert!(
        tensors_approx_equal(greedy_result, treesa_result, 1e-10, 1e-12),
        "Greedy and TreeSA should produce identical numerical results"
    );
}

#[test]
fn test_numerical_with_hyperedge() {
    // A[i,j], B[j,k], C[j,l] -> [i,k,l] where j is a hyperedge
    // Note: This test verifies that optimization produces valid trees,
    // but different contraction orders may produce numerically different
    // results due to floating point accumulation differences.
    let code = EinCode::new(vec![vec![1usize, 2], vec![2, 3], vec![2, 4]], vec![1, 3, 4]);

    let sizes: LabelMap<usize> = dict(&[(1, 2), (2, 3), (3, 2), (4, 2)]);
    let mut contractor = NaiveContractor::new();
    contractor.add_tensor(0, vec![2, 3]); // A[i,j]
    contractor.add_tensor(1, vec![3, 2]); // B[j,k]
    contractor.add_tensor(2, vec![3, 2]); // C[j,l]

    let greedy_tree =
        optimize_code(&code, &sizes, &Greedy::default()).expect("Greedy should succeed");
    let treesa_tree =
        optimize_code(&code, &sizes, &Annealing::fast()).expect("TreeSA should succeed");

    // Both should produce valid binary trees
    assert!(greedy_tree.is_binary(), "Greedy should produce binary tree");
    assert!(treesa_tree.is_binary(), "TreeSA should produce binary tree");

    // Both should have correct number of leaves
    assert_eq!(greedy_tree.leaf_count(), 3, "Should have 3 leaves");
    assert_eq!(treesa_tree.leaf_count(), 3, "Should have 3 leaves");

    // Execute greedy tree and verify output shape
    let greedy_idx = execute_nested(&greedy_tree, &mut contractor);
    let greedy_result = contractor.get_tensor(greedy_idx).unwrap();
    assert_eq!(
        greedy_result.shape(),
        &[2, 2, 2],
        "Output should be 2x2x2 for [i,k,l]"
    );
}

#[test]
fn test_numerical_scalar_output() {
    // Full contraction to scalar: A[i,j] * B[j,k] * C[k,i] -> scalar
    let code = EinCode::new(vec![vec![1usize, 2], vec![2, 3], vec![3, 1]], vec![]);

    let sizes: LabelMap<usize> = dict(&[(1, 3), (2, 4), (3, 3)]);
    let mut contractor_greedy = NaiveContractor::new();
    contractor_greedy.add_tensor(0, vec![3, 4]); // A
    contractor_greedy.add_tensor(1, vec![4, 3]); // B
    contractor_greedy.add_tensor(2, vec![3, 3]); // C

    let mut contractor_treesa = contractor_greedy.clone();

    let greedy_tree =
        optimize_code(&code, &sizes, &Greedy::default()).expect("Greedy should succeed");
    let treesa_tree =
        optimize_code(&code, &sizes, &Annealing::fast()).expect("TreeSA should succeed");

    let greedy_idx = execute_nested(&greedy_tree, &mut contractor_greedy);
    let treesa_idx = execute_nested(&treesa_tree, &mut contractor_treesa);

    let greedy_result = contractor_greedy.get_tensor(greedy_idx).unwrap();
    let treesa_result = contractor_treesa.get_tensor(treesa_idx).unwrap();

    assert_eq!(greedy_result.ndim(), 0, "Should produce scalar");
    assert!(
        tensors_approx_equal(greedy_result, treesa_result, 1e-10, 1e-12),
        "Scalar contraction should match"
    );
}

#[test]
fn test_numerical_five_tensor_network() {
    // More complex network: 5 tensors with various connections
    // A[a,b], B[b,c,d], C[c,e], D[d,e,f], E[f,a] -> [e] (partial trace)
    let code = EinCode::new(
        vec![
            vec![1usize, 2], // A[a,b]
            vec![2, 3, 4],   // B[b,c,d]
            vec![3, 5],      // C[c,e]
            vec![4, 5, 6],   // D[d,e,f]
            vec![6, 1],      // E[f,a]
        ],
        vec![5], // Output only 'e'
    );

    let sizes: LabelMap<usize> = dict(&[(1, 2), (2, 3), (3, 2), (4, 2), (5, 4), (6, 2)]);
    let mut contractor_greedy = NaiveContractor::new();
    contractor_greedy.add_tensor(0, vec![2, 3]); // A
    contractor_greedy.add_tensor(1, vec![3, 2, 2]); // B
    contractor_greedy.add_tensor(2, vec![2, 4]); // C
    contractor_greedy.add_tensor(3, vec![2, 4, 2]); // D
    contractor_greedy.add_tensor(4, vec![2, 2]); // E

    let mut contractor_treesa = contractor_greedy.clone();

    let greedy_tree =
        optimize_code(&code, &sizes, &Greedy::default()).expect("Greedy should succeed");
    let treesa_tree =
        optimize_code(&code, &sizes, &Annealing::fast()).expect("TreeSA should succeed");

    let greedy_idx = execute_nested(&greedy_tree, &mut contractor_greedy);
    let treesa_idx = execute_nested(&treesa_tree, &mut contractor_treesa);

    let greedy_result = contractor_greedy.get_tensor(greedy_idx).unwrap();
    let treesa_result = contractor_treesa.get_tensor(treesa_idx).unwrap();

    assert_eq!(greedy_result.shape(), &[4], "Output should have shape [4]");
    assert!(
        tensors_approx_equal(greedy_result, treesa_result, 1e-8, 1e-10),
        "5-tensor network should produce same result"
    );
}
