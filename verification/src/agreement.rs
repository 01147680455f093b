//! That the costs by which annealing compares trees are those of the orders which it returns.

use crate::counting::{choices, size_at, size_in};
use crate::eincode::{Ein, Nested};
use crate::expr_tree::Tree;
use crate::reading::{amount_of, measures, Reading};
use crate::scalar::Scalar;
use crate::score::TreeCost;
use vstd::prelude::*;

verus! {

impl Tree {
    /// Whether every node hands up labels of its children only.
    pub open spec fn hands_up_own(self) -> bool
        decreases self,
    {
        match self {
            Tree::Leaf(_) => true,
            Tree::Node { left, right, info } => {
                &&& forall|l: usize| #[trigger]
                    info.dims.contains(l) ==> left.dims().contains(l) || right.dims().contains(l)
                &&& left.hands_up_own()
                &&& right.hands_up_own()
            },
        }
    }
}

/// The part of the order of a tree for `code` that its subtree `t` stands for.
pub open spec fn part_of<L>(code: Ein<L>, t: Tree) -> Nested<L> {
    crate::convert::ordered_node(
        t,
        code.ixs,
        code.labels(),
        crate::convert::from_ints(t.dims(), code.labels()),
    )
}

/// A part of an order yields the labels that the numbers of its subtree stand for.
proof fn lemma_part_labels<L>(code: Ein<L>, t: Tree)
    requires
        code.labels().len() <= usize::MAX,
        t.leaves_from(code.int_ixs()),
    ensures
        crate::convert::child_labels(part_of(code, t), code.ixs) == crate::convert::from_ints(
            t.dims(),
            code.labels(),
        ),
{
    if let Tree::Leaf(info) = t {
        let id = info.id->0;
        crate::network::lemma_numbered(code);
        assert(code.int_ixs()[id as int] == crate::convert::to_ints(
            code.ixs[id as int],
            code.numbering(),
        ));
        crate::order::lemma_from_to_ints(code.ixs[id as int], code.labels(), code.numbering());
    }
}

/// There are as many ways to give indices to labels as to their numbers.
proof fn lemma_named_ways<L>(code: Ein<L>, size_dict: Map<L, usize>, dims: Seq<usize>)
    requires
        crate::energy::below(dims, code.labels().len()),
    ensures
        choices(crate::convert::from_ints(dims, code.labels()), size_in(size_dict)) == choices(
            dims,
            size_at(code.sizes(size_dict)),
        ),
{
    let sizes = code.sizes(size_dict);
    crate::counting::int_volume_is_volume(dims, code.labels(), size_dict, sizes);
    crate::counting::int_volume_counts_entries(dims, sizes);
    crate::counting::volume_counts_entries(
        crate::convert::from_ints(dims, code.labels()),
        size_dict,
    );
}

/// Labels whose numbers are listed are listed.
proof fn lemma_named<L>(dims: Seq<usize>, labels: Seq<L>, x: L)
    requires
        crate::energy::below(dims, labels.len()),
        labels.no_duplicates(),
    ensures
        crate::convert::from_ints(dims, labels).contains(x) <==> exists|l: usize| #[trigger]
            dims.contains(l) && labels[l as int] == x,
        dims.no_duplicates() ==> crate::convert::from_ints(dims, labels).no_duplicates(),
{
    let named = crate::convert::from_ints(dims, labels);
    if named.contains(x) {
        let k = named.index_of(x);
        assert(dims.contains(dims[k]));
    }
    if exists|l: usize| #[trigger] dims.contains(l) && labels[l as int] == x {
        let l = choose|l: usize| #[trigger] dims.contains(l) && labels[l as int] == x;
        assert(named[dims.index_of(l)] == x);
    }
    if dims.no_duplicates() {
        assert forall|i: int, j: int|
            0 <= i < named.len() && 0 <= j < named.len() && i != j implies named[i] != named[j] by {
            assert(dims[i] != dims[j]);
            assert(dims[i] < labels.len() && dims[j] < labels.len());
        }
    }
}

/// The products, and the entries read and written, by which a tree is scored are those that the
/// order of the tree is said to cost.
pub proof fn tree_cost_is_order_cost<L, R: Scalar>(
    e: Reading<R>,
    code: Ein<L>,
    size_dict: Map<L, usize>,
    t: Tree,
    table: Seq<R>,
    c: TreeCost<R>,
)
    requires
        e.exact(),
        measures(table, code.sizes(size_dict)),
        code.labels().len() <= usize::MAX,
        t.leaves_from(code.int_ixs()),
        t.neat(),
        t.hands_up_own(),
        t.labels_below(code.labels().len()),
        crate::score::tree_cost_is(t, table, c),
    ensures
        amount_of(e, c.tc) == part_of(code, t).flops(code.ixs, size_dict) as real,
        amount_of(e, c.rw) == part_of(code, t).traffic(code.ixs, size_dict) as real,
    decreases t,
{
    let labels = code.labels();
    let sizes = code.sizes(size_dict);
    let n = part_of(code, t);
    match t {
        Tree::Leaf(_) => {},
        Tree::Node { left, right, info } => {
            reveal_with_fuel(Tree::neat, 2);
            reveal_with_fuel(Tree::labels_below, 2);
            let (lc, rc) = crate::acceptance::lemma_parts(e, t, table, sizes, c);
            tree_cost_is_order_cost(e, code, size_dict, *left, table, lc);
            tree_cost_is_order_cost(e, code, size_dict, *right, table, rc);
            let a = part_of(code, *left);
            let b = part_of(code, *right);
            lemma_part_labels(code, *left);
            lemma_part_labels(code, *right);
            let x = left.dims();
            let y = right.dims();
            let d = info.dims;
            let all = crate::eincode::distinct(x + y);
            crate::acceptance::lemma_products_at(t);
            crate::eincode::lemma_distinct(crate::eincode::concat(code.ixs) + code.iy);
            assert(crate::energy::below(all, labels.len())) by {
                assert forall|k: int| 0 <= k < all.len() implies (#[trigger] all[k])
                    < labels.len() by {
                    let l = all[k];
                    assert(all.contains(l));
                    if x.contains(l) {
                        assert(x[x.index_of(l)] == l);
                    } else {
                        assert(y[y.index_of(l)] == l);
                    }
                }
            }
            let xs = crate::convert::from_ints(x, labels);
            let ys = crate::convert::from_ints(y, labels);
            let ds = crate::convert::from_ints(d, labels);
            let named = crate::convert::from_ints(all, labels);
            assert(crate::counting::lists_all(named, xs, ys, ds)) by {
                if all.len() > 0 {
                    lemma_named(all, labels, labels[all[0] as int]);
                }
                assert forall|l: L| #[trigger]
                    named.contains(l) <==> xs.contains(l) || ys.contains(l) || ds.contains(l) by {
                    lemma_named(all, labels, l);
                    lemma_named(x, labels, l);
                    lemma_named(y, labels, l);
                    lemma_named(d, labels, l);
                    if named.contains(l) {
                        let k = choose|k: usize| #[trigger]
                            all.contains(k) && labels[k as int] == l;
                        assert(x.contains(k) || y.contains(k));
                    }
                    if xs.contains(l) {
                        let k = choose|k: usize| #[trigger]
                            x.contains(k) && labels[k as int] == l;
                        assert(all.contains(k));
                    }
                    if ys.contains(l) {
                        let k = choose|k: usize| #[trigger]
                            y.contains(k) && labels[k as int] == l;
                        assert(all.contains(k));
                    }
                    if ds.contains(l) {
                        let k = choose|k: usize| #[trigger]
                            d.contains(k) && labels[k as int] == l;
                        assert(all.contains(k));
                    }
                }
            }
            let eins = n->eins;
            assert(n->args =~= seq![a, b]);
            assert(n == Nested::Node { args: seq![a, b], eins });
            crate::counting::node_is_counted(a, b, eins, named, code.ixs, size_dict, 0);
            lemma_named_ways(code, size_dict, all);
            lemma_named_ways(code, size_dict, x);
            lemma_named_ways(code, size_dict, y);
            lemma_named_ways(code, size_dict, d);
        },
    }
}

/// The costs by which a tree for `code` is scored are those of the order that is returned for it,
/// where the root of the tree hands up the labels of the output.
pub proof fn scored_cost_is_returned_cost<L, R: Scalar>(
    e: Reading<R>,
    code: Ein<L>,
    size_dict: Map<L, usize>,
    t: Tree,
    table: Seq<R>,
    c: TreeCost<R>,
)
    requires
        e.exact(),
        measures(table, code.sizes(size_dict)),
        code.labels().len() <= usize::MAX,
        t is Node,
        t.leaves_from(code.int_ixs()),
        t.neat(),
        t.hands_up_own(),
        t.labels_below(code.labels().len()),
        code.iy.no_duplicates(),
        forall|l: L| #[trigger]
            code.iy.contains(l) <==> crate::convert::from_ints(
                t.dims(),
                code.labels(),
            ).contains(l),
        crate::score::tree_cost_is(t, table, c),
    ensures
        amount_of(e, c.tc) == code.order_of(t).flops(code.ixs, size_dict) as real,
        amount_of(e, c.rw) == code.order_of(t).traffic(code.ixs, size_dict) as real,
        code.order_of(t).space(size_dict) as real <= (e.amount)(c.sc),
{
    let labels = code.labels();
    let part = part_of(code, t);
    let order = code.order_of(t);
    let a = part->args[0];
    let b = part->args[1];
    let ds = crate::convert::from_ints(t.dims(), labels);
    tree_cost_is_order_cost(e, code, size_dict, t, table, c);
    order_space_is_bounded(e, code, size_dict, t, table, c);
    assert(part->args =~= seq![a, b]);
    assert(order->args =~= seq![a, b]);
    assert(part == Nested::Node { args: seq![a, b], eins: part->eins });
    assert(order == Nested::Node { args: seq![a, b], eins: order->eins });
    let x = crate::convert::child_labels(a, code.ixs);
    let y = crate::convert::child_labels(b, code.ixs);
    let all = crate::eincode::distinct(x + y + ds);
    crate::eincode::lemma_distinct(x + y + ds);
    assert forall|l: L| #[trigger]
        all.contains(l) <==> x.contains(l) || y.contains(l) || ds.contains(l) by {
        crate::plan::lemma_concat_contains(x + y, ds, l);
        crate::plan::lemma_concat_contains(x, y, l);
    }
    assert(crate::counting::lists_all(all, x, y, ds));
    assert(crate::counting::lists_all(all, x, y, code.iy));
    crate::counting::node_is_counted(a, b, part->eins, all, code.ixs, size_dict, 0);
    crate::counting::node_is_counted(a, b, order->eins, all, code.ixs, size_dict, 0);
    crate::eincode::lemma_distinct(crate::eincode::concat(code.ixs) + code.iy);
    crate::energy::lemma_below(t, labels.len());
    if t.dims().len() > 0 {
        lemma_named(t.dims(), labels, labels[t.dims()[0] as int]);
    }
    crate::counting::choices_ignore_order(code.iy, ds, size_in(size_dict));
    crate::counting::volume_counts_entries(code.iy, size_dict);
    crate::counting::volume_counts_entries(ds, size_dict);
}

/// No contraction in the part of an order that a tree stands for yields more entries than the tree
/// is scored for.
pub proof fn order_space_is_bounded<L, R: Scalar>(
    e: Reading<R>,
    code: Ein<L>,
    size_dict: Map<L, usize>,
    t: Tree,
    table: Seq<R>,
    c: TreeCost<R>,
)
    requires
        e.exact(),
        measures(table, code.sizes(size_dict)),
        t.neat(),
        t.labels_below(code.labels().len()),
        crate::score::tree_cost_is(t, table, c),
    ensures
        part_of(code, t).space(size_dict) as real <= (e.amount)(c.sc),
    decreases t,
{
    let sizes = code.sizes(size_dict);
    match t {
        Tree::Leaf(_) => {
            reveal(Reading::logarithmic);
            assert((e.amount)(c.sc) > 0 as real);
        },
        Tree::Node { left, right, info } => {
            reveal_with_fuel(Tree::neat, 2);
            reveal_with_fuel(Tree::labels_below, 2);
            let (lc, rc) = crate::acceptance::lemma_parts(e, t, table, sizes, c);
            let all = crate::eincode::distinct(left.dims() + right.dims());
            crate::acceptance::lemma_products_at(t);
            crate::reading::tree_cost_adds_up(e, t, all, table, sizes, c, lc, rc);
            order_space_is_bounded(e, code, size_dict, *left, table, lc);
            order_space_is_bounded(e, code, size_dict, *right, table, rc);
            lemma_named_ways(code, size_dict, info.dims);
            crate::counting::volume_counts_entries(
                crate::convert::from_ints(info.dims, code.labels()),
                size_dict,
            );
            let n = part_of(code, t);
            let a = part_of(code, *left);
            let b = part_of(code, *right);
            assert(n->args =~= seq![a, b]);
            crate::counting::lemma_space_of(n->args, size_dict);
            assert(n->args[0] == a && n->args[1] == b);
            assert((e.amount)(c.sc) > 0 as real) by {
                reveal(Reading::logarithmic);
            }
            assert(a.space(size_dict) as real <= (e.amount)(lc.sc));
            assert(b.space(size_dict) as real <= (e.amount)(rc.sc));
            assert(choices(info.dims, size_at(sizes)) as real <= (e.amount)(c.sc));
        },
    }
}

} // verus!
