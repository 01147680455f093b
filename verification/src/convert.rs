//! From labels to integers and back, for expressions and for contraction orders.

use crate::eincode::{Ein, EinCode, Nested, NestedEinsum};
use crate::expr_tree::{ExprTree, Info, Tree};
use crate::label::Label;
use crate::label_map::LabelMap;
use vstd::prelude::*;

verus! {

/// Whether `map` gives each label of `labels` its place there, and no other label anything.
pub open spec fn numbers<L>(map: Map<L, usize>, labels: Seq<L>) -> bool {
    &&& labels.no_duplicates()
    &&& forall|l: L| #[trigger] map.dom().contains(l) <==> labels.contains(l)
    &&& forall|k: int| 0 <= k < labels.len() ==> map[#[trigger] labels[k]] == k
}

/// Whether `map` has a number for each label of `labels`.
pub open spec fn covers<L>(map: Map<L, usize>, labels: Seq<L>) -> bool {
    forall|k: int| 0 <= k < labels.len() ==> map.dom().contains(#[trigger] labels[k])
}

/// Whether `map` has a number for each label of each list of `ixs`.
pub open spec fn covers_all<L>(map: Map<L, usize>, ixs: Seq<Seq<L>>) -> bool {
    forall|i: int| 0 <= i < ixs.len() ==> covers(map, #[trigger] ixs[i])
}

/// The numbers of `labels`.
pub open spec fn to_ints<L>(labels: Seq<L>, map: Map<L, usize>) -> Seq<usize> {
    labels.map_values(|l: L| map[l])
}

/// The numbers of the labels of each list of `ixs`.
pub open spec fn to_int_lists<L>(ixs: Seq<Seq<L>>, map: Map<L, usize>) -> Seq<Seq<usize>> {
    ixs.map_values(|ix: Seq<L>| to_ints(ix, map))
}

/// Numbers the labels of an expression, in the order in which they first occur.
pub fn build_label_map<L: Label>(code: &EinCode<L>) -> (result: (LabelMap<L>, Vec<L>))
    ensures
        result.1@ == code@.labels(),
        numbers(result.0@, result.1@),
{
    let labels = code.unique_labels();
    proof {
        crate::eincode::lemma_distinct(crate::eincode::concat(code@.ixs) + code@.iy);
    }
    let mut map: LabelMap<L> = LabelMap::new();
    let mut k: usize = 0;
    while k < labels.len()
        invariant
            k <= labels.len(),
            labels@.no_duplicates(),
            forall|l: L| #[trigger] map@.dom().contains(l) <==> labels@.take(k as int).contains(l),
            forall|j: int| 0 <= j < k ==> map@[#[trigger] labels[j]] == j,
        decreases labels.len() - k,
    {
        let ghost before = map@;
        map.insert(labels[k].duplicate(), k);
        proof {
            assert(labels@.take(k + 1) =~= labels@.take(k as int).push(labels@[k as int]));
            assert forall|l: L| #[trigger] map@.dom().contains(l) <==> labels@.take(k + 1).contains(
                l,
            ) by {
                crate::expr_tree::lemma_push_contains(labels@.take(k as int), labels@[k as int], l);
                assert(before.dom().contains(l) <==> labels@.take(k as int).contains(l));
            }
        }
        k = k + 1;
    }
    assert(labels@.take(k as int) =~= labels@);
    (map, labels)
}

/// The numbers of `labels`.
pub fn map_labels<L: Label>(labels: &Vec<L>, label_map: &LabelMap<L>) -> (ints: Vec<usize>)
    requires
        covers(label_map@, labels@),
    ensures
        ints@ == to_ints(labels@, label_map@),
{
    let mut ints: Vec<usize> = Vec::new();
    let mut k: usize = 0;
    while k < labels.len()
        invariant
            k <= labels.len(),
            covers(label_map@, labels@),
            ints@ == to_ints(labels@.take(k as int), label_map@),
        decreases labels.len() - k,
    {
        assert(label_map@.dom().contains(labels@[k as int]));
        ints.push(label_map.at(&labels[k]));
        assert(ints@ =~= to_ints(labels@.take(k + 1), label_map@));
        k = k + 1;
    }
    assert(labels@.take(k as int) =~= labels@);
    ints
}

/// The numbers of the labels of each list of `ixs`.
pub fn convert_to_int_indices<L: Label>(
    ixs: &Vec<Vec<L>>,
    label_map: &LabelMap<L>,
) -> (int_ixs: Vec<Vec<usize>>)
    requires
        covers_all(label_map@, crate::eincode::label_lists(ixs@)),
    ensures
        crate::init::lists(int_ixs@) == to_int_lists(
            crate::eincode::label_lists(ixs@),
            label_map@,
        ),
{
    let mut int_ixs: Vec<Vec<usize>> = Vec::new();
    let ghost all = crate::eincode::label_lists(ixs@);
    let mut i: usize = 0;
    while i < ixs.len()
        invariant
            i <= ixs.len(),
            all == crate::eincode::label_lists(ixs@),
            covers_all(label_map@, all),
            crate::init::lists(int_ixs@) == to_int_lists(all.take(i as int), label_map@),
        decreases ixs.len() - i,
    {
        assert(all[i as int] == ixs[i as int]@);
        let ghost before = int_ixs@;
        int_ixs.push(map_labels(&ixs[i], label_map));
        assert(crate::init::lists(int_ixs@) =~= crate::init::lists(before).push(
            to_ints(all[i as int], label_map@),
        ));
        assert(crate::init::lists(int_ixs@) =~= to_int_lists(all.take(i + 1), label_map@));
        i = i + 1;
    }
    assert(all.take(i as int) =~= all);
    int_ixs
}

/// The integer tree of the argument `arg`, which is handed to its parent with the labels `ix`.
pub open spec fn converted_arg<L>(arg: Nested<L>, ix: Seq<L>, map: Map<L, usize>) -> Option<Tree>
    decreases arg, 1int,
{
    match arg {
        Nested::Leaf { tensor_index } => Some(
            Tree::Leaf(Info { dims: to_ints(ix, map), id: Some(tensor_index) }),
        ),
        Nested::Node { .. } => converted(arg, map),
    }
}

/// The integer tree of a contraction order, or nothing where the order is a single tensor or some
/// expression in it does not take two arguments.
///
/// A leaf gets the labels under which its parent takes it.
pub open spec fn converted<L>(nested: Nested<L>, map: Map<L, usize>) -> Option<Tree>
    decreases nested, 0int,
{
    match nested {
        Nested::Leaf { .. } => None,
        Nested::Node { args, eins } => if args.len() != 2 {
            None
        } else {
            match (
                converted_arg(args[0], eins.ixs[0], map),
                converted_arg(args[1], eins.ixs[1], map),
            ) {
                (Some(left), Some(right)) => Some(Tree::join(left, right, to_ints(eins.iy, map))),
                _ => None,
            }
        },
    }
}

/// Whether the argument `k` of an expression can be read: its labels are there and have numbers.
pub open spec fn arg_readable<L>(
    args: Seq<Nested<L>>,
    eins: Ein<L>,
    k: int,
    map: Map<L, usize>,
) -> bool
    decreases args, 0int,
{
    if 0 <= k < args.len() {
        match args[k] {
            Nested::Leaf { .. } => k < eins.ixs.len() && covers(map, eins.ixs[k]),
            Nested::Node { .. } => readable(args[k], map),
        }
    } else {
        false
    }
}

/// Whether what the conversion of `nested` reads is there: it goes from left to right, and it
/// stops at the first argument that has no integer tree.
pub open spec fn readable<L>(nested: Nested<L>, map: Map<L, usize>) -> bool
    decreases nested, 0int,
{
    match nested {
        Nested::Leaf { .. } => true,
        Nested::Node { args, eins } => args.len() == 2 ==> {
            &&& arg_readable(args, eins, 0, map)
            &&& converted_arg(args[0], eins.ixs[0], map) is Some ==> {
                &&& arg_readable(args, eins, 1, map)
                &&& converted_arg(args[1], eins.ixs[1], map) is Some ==> covers(map, eins.iy)
            }
        },
    }
}

/// The integer tree of a contraction order, or nothing where the order is a single tensor or some
/// expression in it does not take two arguments.
pub fn nested_to_expr_tree_inner<L: Label>(
    nested: &NestedEinsum<L>,
    label_map: &LabelMap<L>,
) -> (tree: Option<ExprTree>)
    requires
        readable(nested@, label_map@),
    ensures
        match tree {
            Some(tree) => converted(nested@, label_map@) == Some(tree@),
            None => converted(nested@, label_map@) is None,
        },
    decreases nested,
{
    match nested {
        NestedEinsum::Leaf { .. } => None,
        NestedEinsum::Node { args, eins } => {
            if args.len() != 2 {
                return None;
            }
            proof {
                crate::eincode::lemma_model_args(*nested, 0);
                crate::eincode::lemma_model_args(*nested, 1);
                assert(nested@->eins == eins@);
            }
            let left = match &args[0] {
                NestedEinsum::Leaf { tensor_index } => {
                    assert(eins@.ixs[0] == eins.ixs[0]@);
                    ExprTree::leaf(map_labels(&eins.ixs[0], label_map), *tensor_index)
                },
                NestedEinsum::Node { .. } => match nested_to_expr_tree_inner(&args[0], label_map) {
                    Some(tree) => tree,
                    None => {
                        return None;
                    },
                },
            };
            let right = match &args[1] {
                NestedEinsum::Leaf { tensor_index } => {
                    assert(eins@.ixs[1] == eins.ixs[1]@);
                    ExprTree::leaf(map_labels(&eins.ixs[1], label_map), *tensor_index)
                },
                NestedEinsum::Node { .. } => match nested_to_expr_tree_inner(&args[1], label_map) {
                    Some(tree) => tree,
                    None => {
                        return None;
                    },
                },
            };
            let out_dims = map_labels(&eins.iy, label_map);
            Some(ExprTree::node(left, right, out_dims))
        },
    }
}

/// The integer tree of a contraction order. The integer labels of the network are not needed for
/// it: the order holds the labels of its leaves.
pub fn nested_to_expr_tree<L: Label>(
    nested: &NestedEinsum<L>,
    _int_ixs: &Vec<Vec<usize>>,
    _int_iy: &Vec<usize>,
    label_map: &LabelMap<L>,
) -> (tree: Option<ExprTree>)
    requires
        readable(nested@, label_map@),
    ensures
        match tree {
            Some(tree) => converted(nested@, label_map@) == Some(tree@),
            None => converted(nested@, label_map@) is None,
        },
{
    nested_to_expr_tree_inner(nested, label_map)
}

/// The labels of what `nested` yields: for an input tensor its labels in `ixs`, or none where
/// `ixs` has no such tensor.
pub open spec fn child_labels<L>(nested: Nested<L>, ixs: Seq<Seq<L>>) -> Seq<L> {
    match nested {
        Nested::Leaf { tensor_index } => if tensor_index < ixs.len() {
            ixs[tensor_index as int]
        } else {
            Seq::empty()
        },
        Nested::Node { eins, .. } => eins.iy,
    }
}

/// The labels with the numbers `dims`.
pub open spec fn from_ints<L>(dims: Seq<usize>, labels: Seq<L>) -> Seq<L> {
    dims.map_values(|k: usize| labels[k as int])
}

/// The contraction order of an integer tree over the tensors `ixs`, where `labels` gives each
/// number its label, and a node yields the labels `iy`.
pub open spec fn ordered_node<L>(
    t: Tree,
    ixs: Seq<Seq<L>>,
    labels: Seq<L>,
    iy: Seq<L>,
) -> Nested<L>
    decreases t,
{
    match t {
        Tree::Leaf(info) => Nested::Leaf {
            tensor_index: match info.id {
                Some(id) => id,
                None => 0,
            },
        },
        Tree::Node { left, right, .. } => {
            let l = ordered_node(*left, ixs, labels, from_ints(left.dims(), labels));
            let r = ordered_node(*right, ixs, labels, from_ints(right.dims(), labels));
            Nested::Node {
                args: seq![l, r],
                eins: Ein { ixs: seq![child_labels(l, ixs), child_labels(r, ixs)], iy },
            }
        },
    }
}

/// Whether every inner node of the tree hands up only numbers below `n`.
pub open spec fn nodes_bounded(t: Tree, n: nat) -> bool
    decreases t,
{
    match t {
        Tree::Leaf(_) => true,
        Tree::Node { left, right, info } => {
            &&& forall|k: int| 0 <= k < info.dims.len() ==> (#[trigger] info.dims[k]) < n
            &&& nodes_bounded(*left, n)
            &&& nodes_bounded(*right, n)
        },
    }
}

/// Another copy of a list of labels.
pub fn copy_labels<L: Label>(labels: &Vec<L>) -> (copy: Vec<L>)
    ensures
        copy@ == labels@,
{
    let mut copy: Vec<L> = Vec::new();
    let mut k: usize = 0;
    while k < labels.len()
        invariant
            k <= labels.len(),
            copy@ == labels@.take(k as int),
        decreases labels.len() - k,
    {
        copy.push(labels[k].duplicate());
        assert(copy@ =~= labels@.take(k + 1));
        k = k + 1;
    }
    assert(labels@.take(k as int) =~= labels@);
    copy
}

/// The labels of what `nested` yields: for an input tensor its labels in `original_ixs`, or none
/// where there is no such tensor.
pub fn get_child_labels<L: Label>(
    nested: &NestedEinsum<L>,
    original_ixs: &Vec<Vec<L>>,
) -> (labels: Vec<L>)
    ensures
        labels@ == child_labels(nested@, crate::eincode::label_lists(original_ixs@)),
{
    match nested {
        NestedEinsum::Leaf { tensor_index } => if *tensor_index < original_ixs.len() {
            copy_labels(&original_ixs[*tensor_index])
        } else {
            Vec::new()
        },
        NestedEinsum::Node { eins, .. } => copy_labels(&eins.iy),
    }
}

/// The contraction order of an integer tree over the tensors `original_ixs`, where `inverse_map`
/// gives each number its label.
///
/// At level 0 the root yields the labels `openedges`. Every other node yields the labels that it
/// hands up in the tree.
pub fn expr_tree_to_nested<L: Label>(
    tree: &ExprTree,
    original_ixs: &Vec<Vec<L>>,
    inverse_map: &Vec<L>,
    openedges: &Vec<L>,
    level: usize,
) -> (nested: NestedEinsum<L>)
    requires
        match tree@ {
            Tree::Leaf(_) => true,
            Tree::Node { left, right, info } => {
                &&& level > 0 ==> nodes_bounded(tree@, inverse_map.len() as nat)
                &&& nodes_bounded(*left, inverse_map.len() as nat)
                &&& nodes_bounded(*right, inverse_map.len() as nat)
            },
        },
    ensures
        nested@ == ordered_node(
            tree@,
            crate::eincode::label_lists(original_ixs@),
            inverse_map@,
            if level == 0 {
                openedges@
            } else {
                from_ints(tree@.dims(), inverse_map@)
            },
        ),
    decreases tree,
{
    match tree {
        ExprTree::Leaf(info) => NestedEinsum::leaf(
            match info.tensor_id {
                Some(id) => id,
                None => 0,
            },
        ),
        ExprTree::Node { left, right, info } => {
            let left_nested = expr_tree_to_nested(left, original_ixs, inverse_map, openedges, 1);
            let right_nested = expr_tree_to_nested(right, original_ixs, inverse_map, openedges, 1);
            let iy: Vec<L> = if level == 0 {
                copy_labels(openedges)
            } else {
                unmap_labels(&info.out_dims, inverse_map)
            };
            let left_labels = get_child_labels(&left_nested, original_ixs);
            let right_labels = get_child_labels(&right_nested, original_ixs);
            let mut ixs: Vec<Vec<L>> = Vec::new();
            ixs.push(left_labels);
            ixs.push(right_labels);
            let mut args: Vec<NestedEinsum<L>> = Vec::new();
            args.push(left_nested);
            args.push(right_nested);
            let eins = EinCode::new(ixs, iy);
            proof {
                assert(eins@.ixs =~= seq![left_labels@, right_labels@]);
                assert(args@.map_values(|arg: NestedEinsum<L>| arg@) =~= seq![
                    left_nested@,
                    right_nested@,
                ]);
            }
            NestedEinsum::node(args, eins)
        },
    }
}

/// The labels with the numbers `dims`.
pub fn unmap_labels<L: Label>(dims: &Vec<usize>, inverse_map: &Vec<L>) -> (labels: Vec<L>)
    requires
        forall|k: int| 0 <= k < dims.len() ==> (#[trigger] dims[k]) < inverse_map.len(),
    ensures
        labels@ == from_ints(dims@, inverse_map@),
{
    let mut labels: Vec<L> = Vec::new();
    let mut k: usize = 0;
    while k < dims.len()
        invariant
            k <= dims.len(),
            forall|k: int| 0 <= k < dims.len() ==> (#[trigger] dims[k]) < inverse_map.len(),
            labels@ == from_ints(dims@.take(k as int), inverse_map@),
        decreases dims.len() - k,
    {
        labels.push(inverse_map[dims[k]].duplicate());
        assert(labels@ =~= from_ints(dims@.take(k + 1), inverse_map@));
        k = k + 1;
    }
    assert(dims@.take(k as int) =~= dims@);
    labels
}

} // verus!
