//! The integer form of an expression, on which the optimizers work.

use crate::convert::{build_label_map, convert_to_int_indices, map_labels};
use crate::eincode::{Ein, EinCode, Nested};
use crate::expr_tree::Tree;
use crate::label::Label;
use crate::label_map::LabelMap;
use vstd::prelude::*;

verus! {

/// The map that gives each label of `labels` its place there.
pub open spec fn numbering<L>(labels: Seq<L>) -> Map<L, usize> {
    Map::new(|l: L| labels.contains(l), |l: L| labels.index_of(l) as usize)
}

/// There is one way to number labels by their places.
pub proof fn lemma_numbering<L>(map: Map<L, usize>, labels: Seq<L>)
    requires
        crate::convert::numbers(map, labels),
        labels.len() <= usize::MAX,
    ensures
        map == numbering(labels),
{
    let other = numbering(labels);
    assert forall|l: L| map.dom().contains(l) <==> other.dom().contains(l) by {}
    assert forall|l: L| map.dom().contains(l) implies map[l] == other[l] by {
        let k = labels.index_of(l);
        assert(labels.contains(l));
        assert(map[labels[k]] == k);
    }
    assert(map =~= other);
}

impl<L> Ein<L> {
    /// The numbers of the labels: the places where they first occur.
    pub open spec fn numbering(self) -> Map<L, usize> {
        numbering(self.labels())
    }

    /// The labels of the input tensors, as numbers.
    pub open spec fn int_ixs(self) -> Seq<Seq<usize>> {
        crate::convert::to_int_lists(self.ixs, self.numbering())
    }

    /// The labels of the output, as numbers.
    pub open spec fn int_iy(self) -> Seq<usize> {
        crate::convert::to_ints(self.iy, self.numbering())
    }

    /// The sizes of the labels, in the order of their numbers.
    pub open spec fn sizes(self, size_dict: Map<L, usize>) -> Seq<usize> {
        crate::convert::to_ints(self.labels(), size_dict)
    }

    /// Whether a machine word can count the labels of the expression, however often they occur.
    pub open spec fn fits(self) -> bool {
        crate::eincode::concat(self.ixs).len() + self.iy.len() <= usize::MAX
    }

    /// The contraction order of an integer tree for the expression.
    pub open spec fn order_of(self, t: Tree) -> Nested<L> {
        crate::convert::ordered_node(t, self.ixs, self.labels(), self.iy)
    }
}

/// An expression and its integer form.
pub struct Network<L> {
    pub label_map: LabelMap<L>,
    pub labels: Vec<L>,
    pub int_ixs: Vec<Vec<usize>>,
    pub int_iy: Vec<usize>,
}

impl<L> Network<L> {
    /// Whether this is the integer form of `code`.
    pub open spec fn is_of(self, code: Ein<L>) -> bool {
        &&& self.label_map@ == code.numbering()
        &&& self.labels@ == code.labels()
        &&& crate::init::lists(self.int_ixs@) == code.int_ixs()
        &&& self.int_iy@ == code.int_iy()
    }
}

/// What holds of the numbers of the labels of an expression.
pub proof fn lemma_numbered<L>(code: Ein<L>)
    requires
        code.labels().len() <= usize::MAX,
    ensures
        crate::convert::numbers(code.numbering(), code.labels()),
        crate::convert::covers_all(code.numbering(), code.ixs),
        crate::convert::covers(code.numbering(), code.iy),
        crate::init::bounded(code.int_ixs(), code.labels().len()),
        crate::energy::below(code.int_iy(), code.labels().len()),
        code.int_ixs().len() == code.ixs.len(),
{
    let labels = code.labels();
    let map = code.numbering();
    crate::eincode::lemma_distinct(crate::eincode::concat(code.ixs) + code.iy);
    assert forall|k: int| 0 <= k < labels.len() implies map[#[trigger] labels[k]] == k by {
        let j = labels.index_of(labels[k]);
        assert(labels.contains(labels[k]));
        assert(labels[j] == labels[k]);
    }
    assert forall|k: int| 0 <= k < labels.len() implies map.dom().contains(
        #[trigger] labels[k],
    ) by {
        assert(labels.contains(labels[k]));
    }
    lemma_covered(map, code);
    crate::order::lemma_to_int_lists_bounded(code.ixs, labels, map);
    assert forall|k: int| 0 <= k < code.int_iy().len() implies (#[trigger] code.int_iy()[k])
        < labels.len() by {
        assert(map.dom().contains(code.iy[k]));
        crate::order::lemma_numbered_below(code.iy[k], labels, map);
    }
}

/// A label of a tensor is a label of the expression.
proof fn lemma_listed<L>(code: Ein<L>, l: L, i: int, k: int)
    requires
        0 <= i < code.ixs.len(),
        0 <= k < code.ixs[i].len(),
        code.ixs[i][k] == l,
    ensures
        code.labels().contains(l),
{
    crate::eincode::lemma_distinct(crate::eincode::concat(code.ixs) + code.iy);
    crate::eincode::lemma_concat(code.ixs, l);
    assert(code.ixs[i].contains(l));
    crate::plan::lemma_concat_contains(crate::eincode::concat(code.ixs), code.iy, l);
}

/// A label of the output is a label of the expression.
proof fn lemma_listed_output<L>(code: Ein<L>, k: int)
    requires
        0 <= k < code.iy.len(),
    ensures
        code.labels().contains(code.iy[k]),
{
    crate::eincode::lemma_distinct(crate::eincode::concat(code.ixs) + code.iy);
    crate::plan::lemma_concat_contains(crate::eincode::concat(code.ixs), code.iy, code.iy[k]);
    assert(code.iy.contains(code.iy[k]));
}

/// What has a number for every label of an expression has one for those of each tensor and of the
/// output.
pub proof fn lemma_covered<L>(map: Map<L, usize>, code: Ein<L>)
    requires
        crate::convert::covers(map, code.labels()),
    ensures
        crate::convert::covers_all(map, code.ixs),
        crate::convert::covers(map, code.iy),
{
    let labels = code.labels();
    assert forall|i: int| 0 <= i < code.ixs.len() implies crate::convert::covers(
        map,
        #[trigger] code.ixs[i],
    ) by {
        assert forall|k: int| 0 <= k < code.ixs[i].len() implies map.dom().contains(
            #[trigger] code.ixs[i][k],
        ) by {
            lemma_listed(code, code.ixs[i][k], i, k);
            let j = labels.index_of(code.ixs[i][k]);
            assert(map.dom().contains(labels[j]));
        }
    }
    assert forall|k: int| 0 <= k < code.iy.len() implies map.dom().contains(
        #[trigger] code.iy[k],
    ) by {
        lemma_listed_output(code, k);
        let j = labels.index_of(code.iy[k]);
        assert(map.dom().contains(labels[j]));
    }
}

impl<L: Label> Network<L> {
    /// The integer form of `code`.
    pub fn new(code: &EinCode<L>) -> (network: Self)
        ensures
            network.is_of(code@),
            network.labels.len() == code@.labels().len(),
            network.int_ixs.len() == code@.ixs.len(),
    {
        let (label_map, labels) = build_label_map(code);
        proof {
            assert(labels@.len() == labels.len());
            lemma_numbering(label_map@, labels@);
            lemma_numbered(code@);
        }
        let int_ixs: Vec<Vec<usize>> = convert_to_int_indices(&code.ixs, &label_map);
        let int_iy: Vec<usize> = map_labels(&code.iy, &label_map);
        assert(crate::init::lists(int_ixs@).len() == code@.ixs.len());
        Network { label_map, labels, int_ixs, int_iy }
    }
}

/// A label occurs in a list at most as often as the list is long.
proof fn lemma_count_len(dims: Seq<usize>, l: usize)
    ensures
        crate::init::count(dims, l) <= dims.len(),
    decreases dims.len(),
{
    if dims.len() > 0 {
        lemma_count_len(dims.drop_last(), l);
    }
}

/// A label occurs in lists at most as often as they are long together.
proof fn lemma_total_len<L>(ixs: Seq<Seq<L>>, map: Map<L, usize>, l: usize)
    ensures
        crate::init::total(crate::convert::to_int_lists(ixs, map), l) <= crate::eincode::concat(
            ixs,
        ).len(),
    decreases ixs.len(),
{
    let ints = crate::convert::to_int_lists(ixs, map);
    if ixs.len() > 0 {
        lemma_total_len(ixs.drop_last(), map, l);
        assert(ints.drop_last() =~= crate::convert::to_int_lists(ixs.drop_last(), map));
        lemma_count_len(ints.last(), l);
    }
}

/// The labels of an expression that fits can be counted.
pub proof fn lemma_countable<L>(code: Ein<L>)
    requires
        code.labels().len() <= usize::MAX,
        code.fits(),
    ensures
        crate::init::countable(code.int_ixs(), code.int_iy(), code.labels().len()),
{
    lemma_numbered(code);
    let iy = code.int_iy();
    assert forall|l: usize| l < code.labels().len() implies #[trigger] crate::init::total(
        code.int_ixs(),
        l,
    ) + crate::init::count(iy, l) <= usize::MAX by {
        lemma_total_len(code.ixs, code.numbering(), l);
        lemma_count_len(iy, l);
    }
    assert forall|i: int, j: int|
        0 <= i < seq![iy].len() && 0 <= j < seq![iy][i].len() implies #[trigger] seq![iy][i][j]
        < code.labels().len() by {
        assert(seq![iy][i] == iy);
        assert(iy[j] < code.labels().len());
    }
}

/// Labels below `n` at all nodes are below `n` at the inner ones.
pub proof fn lemma_nodes_bounded(t: Tree, n: nat)
    requires
        t.labels_below(n),
    ensures
        crate::convert::nodes_bounded(t, n),
    decreases t,
{
    match t {
        Tree::Leaf(_) => {},
        Tree::Node { left, right, info } => {
            lemma_nodes_bounded(*left, n);
            lemma_nodes_bounded(*right, n);
            assert(info.dims == t.dims());
        },
    }
}

/// The numbers of labels that have some are below how many there are.
proof fn lemma_to_ints_below<L>(ix: Seq<L>, labels: Seq<L>, map: Map<L, usize>)
    requires
        crate::convert::numbers(map, labels),
        crate::convert::covers(map, ix),
        labels.len() <= usize::MAX,
    ensures
        crate::energy::below(crate::convert::to_ints(ix, map), labels.len()),
{
    let dims = crate::convert::to_ints(ix, map);
    assert forall|k: int| 0 <= k < dims.len() implies (#[trigger] dims[k]) < labels.len() by {
        assert(map.dom().contains(ix[k]));
        crate::order::lemma_numbered_below(ix[k], labels, map);
    }
}

/// The integer tree of an order holds only numbers of labels.
pub proof fn lemma_converted_below<L>(
    nested: Nested<L>,
    labels: Seq<L>,
    map: Map<L, usize>,
    t: Tree,
)
    requires
        crate::convert::numbers(map, labels),
        labels.len() <= usize::MAX,
        crate::convert::readable(nested, map),
        crate::convert::converted(nested, map) == Some(t),
    ensures
        t.labels_below(labels.len()),
    decreases nested,
{
    match nested {
        Nested::Leaf { .. } => {
            assert(crate::convert::converted(nested, map) is None);
        },
        Nested::Node { args, eins } => {
            let left = crate::convert::converted_arg(args[0], eins.ixs[0], map)->0;
            let right = crate::convert::converted_arg(args[1], eins.ixs[1], map)->0;
            assert(crate::convert::arg_readable(args, eins, 0, map));
            assert(crate::convert::arg_readable(args, eins, 1, map));
            lemma_to_ints_below(eins.iy, labels, map);
            match args[0] {
                Nested::Leaf { .. } => {
                    lemma_to_ints_below(eins.ixs[0], labels, map);
                    assert(left.dims() == crate::convert::to_ints(eins.ixs[0], map));
                },
                Nested::Node { .. } => lemma_converted_below(args[0], labels, map, left),
            }
            match args[1] {
                Nested::Leaf { .. } => {
                    lemma_to_ints_below(eins.ixs[1], labels, map);
                    assert(right.dims() == crate::convert::to_ints(eins.ixs[1], map));
                },
                Nested::Node { .. } => lemma_converted_below(args[1], labels, map, right),
            }
            assert(t == Tree::join(left, right, crate::convert::to_ints(eins.iy, map)));
            assert(t.dims() == crate::convert::to_ints(eins.iy, map));
            assert(left.labels_below(labels.len()) && right.labels_below(labels.len()));
        },
    }
}

/// The integer tree of an order has the tensors of the order, in their order.
pub proof fn lemma_converted_ids<L>(nested: Nested<L>, map: Map<L, usize>, t: Tree)
    requires
        crate::convert::converted(nested, map) == Some(t),
    ensures
        t.ids() == nested.leaves(),
        t is Node,
    decreases nested,
{
    match nested {
        Nested::Leaf { .. } => {
            assert(crate::convert::converted(nested, map) is None);
        },
        Nested::Node { args, eins } => {
            let left = crate::convert::converted_arg(args[0], eins.ixs[0], map)->0;
            let right = crate::convert::converted_arg(args[1], eins.ixs[1], map)->0;
            assert(t == Tree::join(left, right, crate::convert::to_ints(eins.iy, map)));
            match args[0] {
                Nested::Leaf { .. } => {
                    assert(left.ids() =~= args[0].leaves());
                },
                Nested::Node { .. } => lemma_converted_ids(args[0], map, left),
            }
            match args[1] {
                Nested::Leaf { .. } => {
                    assert(right.ids() =~= args[1].leaves());
                },
                Nested::Node { .. } => lemma_converted_ids(args[1], map, right),
            }
            crate::eincode::lemma_two_leaves(args);
            assert(t.ids() =~= left.ids() + right.ids());
        },
    }
}

/// The order of a linear tree is linear.
pub proof fn lemma_linear<L>(t: Tree, ixs: Seq<Seq<L>>, labels: Seq<L>, iy: Seq<L>)
    requires
        t.left_deep(),
    ensures
        crate::convert::ordered_node(t, ixs, labels, iy).linear(),
    decreases t,
{
    match t {
        Tree::Leaf(_) => {},
        Tree::Node { left, right, .. } => {
            let n = crate::convert::ordered_node(t, ixs, labels, iy);
            lemma_linear(*left, ixs, labels, crate::convert::from_ints(left.dims(), labels));
            lemma_linear(*right, ixs, labels, crate::convert::from_ints(right.dims(), labels));
            assert(n->args[1] is Leaf);
            assert(n->args.len() == 2);
        },
    }
}

} // verus!
