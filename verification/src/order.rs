//! When a contraction order is one for a given expression.

use crate::eincode::{Ein, Nested};
use crate::expr_tree::{Info, Tree};
use vstd::prelude::*;

verus! {

impl<L> Nested<L> {
    /// Whether some tensor of the order, whose labels are in `ixs`, carries the label `l`.
    pub open spec fn occurs(self, ixs: Seq<Seq<L>>, l: L) -> bool
        decreases self,
    {
        match self {
            Nested::Leaf { tensor_index } => tensor_index < ixs.len()
                && ixs[tensor_index as int].contains(l),
            Nested::Node { args, .. } => exists|k: int|
                0 <= k < args.len() && (#[trigger] args[k]).occurs(ixs, l),
        }
    }

    /// The labels that the tensors of the order carry.
    pub open spec fn label_set(self, ixs: Seq<Seq<L>>) -> Set<L> {
        Set::new(|l: L| self.occurs(ixs, l))
    }

    /// Whether the expression at the root takes two arguments, each under the labels that it
    /// yields.
    pub open spec fn pairs_up(self, ixs: Seq<Seq<L>>) -> bool {
        match self {
            Nested::Leaf { .. } => false,
            Nested::Node { args, eins } => {
                &&& args.len() == 2
                &&& eins.ixs == seq![
                    crate::convert::child_labels(args[0], ixs),
                    crate::convert::child_labels(args[1], ixs),
                ]
            },
        }
    }

    /// Whether the order contracts pairwise some of the tensors `ixs`, and every expression in it
    /// yields exactly those labels of its tensors that occur outside of it, where `outside` holds
    /// the labels that occur outside of the order.
    pub open spec fn contracts(self, ixs: Seq<Seq<L>>, outside: Set<L>) -> bool
        decreases self,
    {
        match self {
            Nested::Leaf { tensor_index } => tensor_index < ixs.len(),
            Nested::Node { args, eins } => {
                &&& self.pairs_up(ixs)
                &&& forall|l: L| #[trigger]
                    eins.iy.contains(l) <==> self.occurs(ixs, l) && outside.contains(l)
                &&& args.len() == 2 && args[0].contracts(ixs, outside + args[1].label_set(ixs))
                &&& args.len() == 2 && args[1].contracts(ixs, outside + args[0].label_set(ixs))
            },
        }
    }

    /// Whether the order contracts all tensors of `code` pairwise, each once, and yields the
    /// output of `code`, while every inner expression yields exactly those labels of its tensors
    /// that are needed outside of it.
    pub open spec fn is_order_of(self, code: Ein<L>) -> bool {
        match self {
            Nested::Leaf { .. } => false,
            Nested::Node { args, eins } => {
                &&& self.pairs_up(code.ixs)
                &&& eins.iy == code.iy
                &&& args[0].contracts(code.ixs, code.iy.to_set() + args[1].label_set(code.ixs))
                &&& args[1].contracts(code.ixs, code.iy.to_set() + args[0].label_set(code.ixs))
                &&& self.leaves().to_multiset() == crate::init::first_ids(
                    code.ixs.len(),
                ).to_multiset()
            },
        }
    }
}

impl Tree {
    /// Whether every leaf stands for a tensor of `ixs`, with its labels.
    pub open spec fn leaves_from(self, ixs: Seq<Seq<usize>>) -> bool
        decreases self,
    {
        match self {
            Tree::Leaf(info) => match info.id {
                Some(id) => id < ixs.len() && info.dims == ixs[id as int],
                None => false,
            },
            Tree::Node { left, right, .. } => left.leaves_from(ixs) && right.leaves_from(ixs),
        }
    }

    /// Whether every label in the tree is below `n`.
    pub open spec fn labels_below(self, n: nat) -> bool
        decreases self,
    {
        &&& forall|k: int| 0 <= k < self.dims().len() ==> (#[trigger] self.dims()[k]) < n
        &&& match self {
            Tree::Leaf(_) => true,
            Tree::Node { left, right, .. } => left.labels_below(n) && right.labels_below(n),
        }
    }

    /// The indices of the tensors at the leaves, from left to right.
    pub open spec fn ids(self) -> Seq<usize> {
        self.leaves().map_values(
            |info: Info|
                match info.id {
                    Some(id) => id,
                    None => 0,
                },
        )
    }

    /// Whether the tree contracts the tensors `ixs` to the output `iy`: each tensor stands at one
    /// leaf, and every node hands up exactly what is needed outside of it.
    pub open spec fn is_plan_of(self, ixs: Seq<Seq<usize>>, iy: Seq<usize>) -> bool {
        &&& self is Node
        &&& self.root_consistent(iy.to_set())
        &&& self.leaf_set() == crate::init::leaf_infos(
            ixs,
            crate::init::first_ids(ixs.len()),
        ).to_multiset()
    }
}

/// Where all leaves are leaves for `ixs`, every single one is.
pub proof fn lemma_leaves_from(t: Tree, ixs: Seq<Seq<usize>>)
    requires
        ixs.len() <= usize::MAX,
        forall|k: int|
            0 <= k < t.leaves().len() ==> crate::init::leaf_infos(
                ixs,
                crate::init::first_ids(ixs.len()),
            ).contains(#[trigger] t.leaves()[k]),
    ensures
        t.leaves_from(ixs),
    decreases t,
{
    let infos = crate::init::leaf_infos(ixs, crate::init::first_ids(ixs.len()));
    match t {
        Tree::Leaf(info) => {
            assert(infos.contains(t.leaves()[0]));
        },
        Tree::Node { left, right, .. } => {
            assert forall|k: int| 0 <= k < left.leaves().len() implies infos.contains(
                #[trigger] left.leaves()[k],
            ) by {
                assert(t.leaves()[k] == left.leaves()[k]);
            }
            assert forall|k: int| 0 <= k < right.leaves().len() implies infos.contains(
                #[trigger] right.leaves()[k],
            ) by {
                assert(t.leaves()[left.leaves().len() + k] == right.leaves()[k]);
            }
            lemma_leaves_from(*left, ixs);
            lemma_leaves_from(*right, ixs);
        },
    }
}

/// A plan has only leaves for its tensors.
pub proof fn lemma_plan_leaves(t: Tree, ixs: Seq<Seq<usize>>)
    requires
        ixs.len() <= usize::MAX,
        t.leaf_set() == crate::init::leaf_infos(
            ixs,
            crate::init::first_ids(ixs.len()),
        ).to_multiset(),
    ensures
        t.leaves_from(ixs),
{
    let infos = crate::init::leaf_infos(ixs, crate::init::first_ids(ixs.len()));
    assert forall|k: int| 0 <= k < t.leaves().len() implies infos.contains(
        #[trigger] t.leaves()[k],
    ) by {
        t.leaves().to_multiset_ensures();
        infos.to_multiset_ensures();
        assert(t.leaves().contains(t.leaves()[k]));
        assert(t.leaf_set().count(t.leaves()[k]) > 0);
    }
    lemma_leaves_from(t, ixs);
}

/// What the labels of a tree say of the integers, the order of the tree says of the labels.
proof fn lemma_ordered_occurs<L>(
    t: Tree,
    ixs: Seq<Seq<L>>,
    labels: Seq<L>,
    map: Map<L, usize>,
    iy: Seq<L>,
    l: L,
)
    requires
        crate::convert::numbers(map, labels),
        labels.len() <= usize::MAX,
        crate::convert::covers_all(map, ixs),
        t.leaves_from(crate::convert::to_int_lists(ixs, map)),
    ensures
        crate::convert::ordered_node(t, ixs, labels, iy).occurs(ixs, l) <==> labels.contains(l)
            && t.occurs(map[l]),
    decreases t,
{
    let n = crate::convert::ordered_node(t, ixs, labels, iy);
    match t {
        Tree::Leaf(info) => {
            let id = info.id->0 as int;
            let ix = ixs[id];
            assert(info.dims == crate::convert::to_ints(ix, map));
            lemma_to_ints_contains(ix, labels, map, l);
        },
        Tree::Node { left, right, .. } => {
            let liy = crate::convert::from_ints(left.dims(), labels);
            let riy = crate::convert::from_ints(right.dims(), labels);
            lemma_ordered_occurs(*left, ixs, labels, map, liy, l);
            lemma_ordered_occurs(*right, ixs, labels, map, riy, l);
            lemma_two_occurs(n, ixs, l);
        },
    }
}

/// A label occurs in an order of two arguments where it occurs in one of them.
pub proof fn lemma_two_occurs<L>(n: Nested<L>, ixs: Seq<Seq<L>>, l: L)
    requires
        n is Node,
        n->args.len() == 2,
    ensures
        n.occurs(ixs, l) <==> n->args[0].occurs(ixs, l) || n->args[1].occurs(ixs, l),
{
    if n->args[0].occurs(ixs, l) {
        assert(n->args[0].occurs(ixs, l));
    }
    if n->args[1].occurs(ixs, l) {
        assert(n->args[1].occurs(ixs, l));
    }
}

/// A label is listed where its number is.
pub proof fn lemma_to_ints_contains<L>(ix: Seq<L>, labels: Seq<L>, map: Map<L, usize>, l: L)
    requires
        crate::convert::numbers(map, labels),
        crate::convert::covers(map, ix),
    ensures
        ix.contains(l) <==> labels.contains(l) && crate::convert::to_ints(ix, map).contains(map[l]),
{
    let ints = crate::convert::to_ints(ix, map);
    if ix.contains(l) {
        let k = ix.index_of(l);
        assert(map.dom().contains(ix[k]));
        assert(ints[k] == map[l]);
    }
    if labels.contains(l) && ints.contains(map[l]) {
        let k = ints.index_of(map[l]);
        let i = labels.index_of(l);
        assert(map.dom().contains(ix[k]));
        let j = labels.index_of(ix[k]);
        assert(map[labels[i]] == i && map[labels[j]] == j);
        assert(ix[k] == l);
    }
}

/// A label is listed where its number is.
pub proof fn lemma_from_ints_contains<L>(dims: Seq<usize>, labels: Seq<L>, map: Map<L, usize>, l: L)
    requires
        crate::convert::numbers(map, labels),
        forall|k: int| 0 <= k < dims.len() ==> (#[trigger] dims[k]) < labels.len(),
    ensures
        crate::convert::from_ints(dims, labels).contains(l) <==> labels.contains(l)
            && dims.contains(map[l]),
{
    let named = crate::convert::from_ints(dims, labels);
    if named.contains(l) {
        let k = named.index_of(l);
        assert(labels[dims[k] as int] == l);
        assert(map[labels[dims[k] as int]] == dims[k]);
    }
    if labels.contains(l) && dims.contains(map[l]) {
        let k = dims.index_of(map[l]);
        let i = labels.index_of(l);
        assert(map[labels[i]] == i);
        assert(named[k] == l);
    }
}

/// The labels of some numbers, as a set.
pub open spec fn named_set<L>(outside: Set<usize>, labels: Seq<L>, map: Map<L, usize>) -> Set<L> {
    Set::new(|l: L| labels.contains(l) && outside.contains(map[l]))
}

/// The order of a consistent tree hands on the right labels.
proof fn lemma_ordered_contracts<L>(
    t: Tree,
    ixs: Seq<Seq<L>>,
    labels: Seq<L>,
    map: Map<L, usize>,
    outside: Set<usize>,
)
    requires
        crate::convert::numbers(map, labels),
        labels.len() <= usize::MAX,
        crate::convert::covers_all(map, ixs),
        t.leaves_from(crate::convert::to_int_lists(ixs, map)),
        t.labels_below(labels.len()),
        t.consistent(outside),
    ensures
        crate::convert::ordered_node(
            t,
            ixs,
            labels,
            crate::convert::from_ints(t.dims(), labels),
        ).contracts(ixs, named_set(outside, labels, map)),
    decreases t,
{
    let iy = crate::convert::from_ints(t.dims(), labels);
    let n = crate::convert::ordered_node(t, ixs, labels, iy);
    let ext = named_set(outside, labels, map);
    match t {
        Tree::Leaf(info) => {},
        Tree::Node { left, right, info } => {
            let liy = crate::convert::from_ints(left.dims(), labels);
            let riy = crate::convert::from_ints(right.dims(), labels);
            let l = crate::convert::ordered_node(*left, ixs, labels, liy);
            let r = crate::convert::ordered_node(*right, ixs, labels, riy);
            lemma_ordered_contracts(*left, ixs, labels, map, outside + right.label_set());
            lemma_ordered_contracts(*right, ixs, labels, map, outside + left.label_set());
            assert forall|x: L| #[trigger] iy.contains(x) <==> n.occurs(ixs, x) && ext.contains(
                x,
            ) by {
                lemma_ordered_occurs(t, ixs, labels, map, iy, x);
                lemma_from_ints_contains(t.dims(), labels, map, x);
                assert(info.dims == t.dims());
                assert(info.dims.contains(map[x]) <==> t.occurs(map[x]) && outside.contains(map[x]));
            }
            assert forall|x: L| named_set(outside + right.label_set(), labels, map).contains(x)
                <==> (ext + r.label_set(ixs)).contains(x) by {
                lemma_ordered_occurs(*right, ixs, labels, map, riy, x);
            }
            assert forall|x: L| named_set(outside + left.label_set(), labels, map).contains(x)
                <==> (ext + l.label_set(ixs)).contains(x) by {
                lemma_ordered_occurs(*left, ixs, labels, map, liy, x);
            }
            assert(named_set(outside + right.label_set(), labels, map) =~= ext + r.label_set(ixs));
            assert(named_set(outside + left.label_set(), labels, map) =~= ext + l.label_set(ixs));
            assert(n->args[0] == l && n->args[1] == r);
        },
    }
}

/// The order of a tree has the tensors of the tree, in their order.
pub proof fn lemma_ordered_leaves<L>(t: Tree, ixs: Seq<Seq<L>>, labels: Seq<L>, iy: Seq<L>)
    ensures
        crate::convert::ordered_node(t, ixs, labels, iy).leaves() == t.ids(),
        crate::convert::ordered_node(t, ixs, labels, iy).binary(),
    decreases t,
{
    let n = crate::convert::ordered_node(t, ixs, labels, iy);
    match t {
        Tree::Leaf(info) => {
            assert(n.leaves() =~= t.ids());
        },
        Tree::Node { left, right, .. } => {
            lemma_ordered_leaves(
                *left,
                ixs,
                labels,
                crate::convert::from_ints(left.dims(), labels),
            );
            lemma_ordered_leaves(
                *right,
                ixs,
                labels,
                crate::convert::from_ints(right.dims(), labels),
            );
            crate::eincode::lemma_two_leaves(n->args);
            assert(n.leaves() =~= t.ids());
        },
    }
}

/// The labels that occur in a tree over `ixs` are those of `ixs`.
proof fn lemma_occurs_below(t: Tree, ixs: Seq<Seq<usize>>, n: nat, l: usize)
    requires
        t.leaves_from(ixs),
        crate::init::bounded(ixs, n),
    ensures
        t.occurs(l) ==> l < n,
    decreases t,
{
    match t {
        Tree::Leaf(info) => {
            let id = info.id->0 as int;
            if info.dims.contains(l) {
                let j = info.dims.index_of(l);
                assert(ixs[id][j] < n);
            }
        },
        Tree::Node { left, right, .. } => {
            lemma_occurs_below(*left, ixs, n, l);
            lemma_occurs_below(*right, ixs, n, l);
        },
    }
}

/// A consistent tree hands up only labels that occur in it.
pub proof fn lemma_consistent_below(t: Tree, outside: Set<usize>, ixs: Seq<Seq<usize>>, n: nat)
    requires
        t.consistent(outside),
        t.leaves_from(ixs),
        crate::init::bounded(ixs, n),
    ensures
        t.labels_below(n),
    decreases t,
{
    assert forall|k: int| 0 <= k < t.dims().len() implies (#[trigger] t.dims()[k]) < n by {
        let l = t.dims()[k];
        assert(t.dims().contains(l));
        lemma_occurs_below(t, ixs, n, l);
        match t {
            Tree::Leaf(_) => {},
            Tree::Node { info, .. } => {
                assert(info.dims.contains(l));
            },
        }
    }
    match t {
        Tree::Leaf(_) => {},
        Tree::Node { left, right, .. } => {
            lemma_consistent_below(*left, outside + right.label_set(), ixs, n);
            lemma_consistent_below(*right, outside + left.label_set(), ixs, n);
        },
    }
}

/// Two sequences with the same elements have the same images.
pub proof fn lemma_map_multiset<A, B>(a: Seq<A>, b: Seq<A>, f: spec_fn(A) -> B)
    requires
        a.to_multiset() == b.to_multiset(),
    ensures
        a.map_values(f).to_multiset() == b.map_values(f).to_multiset(),
    decreases a.len(),
{
    broadcast use vstd::seq_lib::group_to_multiset_ensures;

    assert(a.to_multiset().len() == a.len() && b.to_multiset().len() == b.len());
    if a.len() == 0 {
        assert(a.map_values(f) =~= b.map_values(f));
    } else {
        let x = a.last();
        assert(a.contains(x));
        assert(b.to_multiset().count(x) > 0);
        let k = b.index_of(x);
        let rest = b.remove(k);
        assert(a.drop_last() =~= a.remove(a.len() - 1));
        assert(a.remove(a.len() - 1).to_multiset() =~= rest.to_multiset());
        lemma_map_multiset(a.drop_last(), rest, f);
        assert(a.map_values(f) =~= a.drop_last().map_values(f).push(f(x)));
        assert(b.map_values(f).remove(k) =~= rest.map_values(f));
        assert(b.map_values(f)[k] == f(x));
        assert(b.map_values(f).contains(f(x)));
        assert(b.map_values(f).to_multiset() =~= rest.map_values(f).to_multiset().insert(f(x)));
    }
}

/// The numbers of the labels of a network are below how many labels there are.
pub proof fn lemma_to_int_lists_bounded<L>(ixs: Seq<Seq<L>>, labels: Seq<L>, map: Map<L, usize>)
    requires
        crate::convert::numbers(map, labels),
        crate::convert::covers_all(map, ixs),
    ensures
        crate::init::bounded(crate::convert::to_int_lists(ixs, map), labels.len()),
{
    let ints = crate::convert::to_int_lists(ixs, map);
    assert forall|i: int, j: int| 0 <= i < ints.len() && 0 <= j < ints[i].len() implies #[trigger] ints[i][j]
        < labels.len() by {
        assert(crate::convert::covers(map, ixs[i]));
        lemma_numbered_below(ixs[i][j], labels, map);
    }
}

/// The number of a label is below how many labels there are.
pub proof fn lemma_numbered_below<L>(l: L, labels: Seq<L>, map: Map<L, usize>)
    requires
        crate::convert::numbers(map, labels),
        map.dom().contains(l),
    ensures
        map[l] < labels.len(),
        labels[map[l] as int] == l,
{
    let k = labels.index_of(l);
    assert(map[labels[k]] == k);
}

/// The indices at the leaves of a plan are those of the tensors, each once.
pub proof fn lemma_plan_ids(t: Tree, ixs: Seq<Seq<usize>>)
    requires
        ixs.len() <= usize::MAX,
        t.leaf_set() == crate::init::leaf_infos(
            ixs,
            crate::init::first_ids(ixs.len()),
        ).to_multiset(),
    ensures
        t.ids().to_multiset() == crate::init::first_ids(ixs.len()).to_multiset(),
{
    let ids = crate::init::first_ids(ixs.len());
    let infos = crate::init::leaf_infos(ixs, ids);
    let f = |info: Info|
        match info.id {
            Some(id) => id,
            None => 0usize,
        };
    lemma_map_multiset(t.leaves(), infos, f);
    assert(infos.map_values(f) =~= ids);
    assert(t.leaves().map_values(f) =~= t.ids());
}

/// Trees with the same leaves have the same tensors.
pub proof fn lemma_same_ids(t: Tree, u: Tree)
    requires
        t.leaf_set() == u.leaf_set(),
    ensures
        t.ids().to_multiset() == u.ids().to_multiset(),
{
    let f = |info: Info|
        match info.id {
            Some(id) => id,
            None => 0usize,
        };
    lemma_map_multiset(t.leaves(), u.leaves(), f);
    assert(t.leaves().map_values(f) =~= t.ids());
    assert(u.leaves().map_values(f) =~= u.ids());
}

/// The order of a plan for a network is an order of the network.
pub proof fn plan_gives_order<L>(t: Tree, code: Ein<L>, labels: Seq<L>, map: Map<L, usize>)
    requires
        crate::convert::numbers(map, labels),
        labels.len() <= usize::MAX,
        code.ixs.len() <= usize::MAX,
        crate::convert::covers_all(map, code.ixs),
        crate::convert::covers(map, code.iy),
        t.is_plan_of(
            crate::convert::to_int_lists(code.ixs, map),
            crate::convert::to_ints(code.iy, map),
        ),
    ensures
        crate::convert::ordered_node(t, code.ixs, labels, code.iy).is_order_of(code),
{
    let ixs = crate::convert::to_int_lists(code.ixs, map);
    let iy = crate::convert::to_ints(code.iy, map);
    let n = crate::convert::ordered_node(t, code.ixs, labels, code.iy);
    let left = *t->left;
    let right = *t->right;
    let liy = crate::convert::from_ints(left.dims(), labels);
    let riy = crate::convert::from_ints(right.dims(), labels);
    let l = crate::convert::ordered_node(left, code.ixs, labels, liy);
    let r = crate::convert::ordered_node(right, code.ixs, labels, riy);
    let outside = iy.to_set();
    lemma_to_int_lists_bounded(code.ixs, labels, map);
    lemma_plan_leaves(t, ixs);
    lemma_consistent_below(left, outside + right.label_set(), ixs, labels.len());
    lemma_consistent_below(right, outside + left.label_set(), ixs, labels.len());
    lemma_ordered_contracts(left, code.ixs, labels, map, outside + right.label_set());
    lemma_ordered_contracts(right, code.ixs, labels, map, outside + left.label_set());
    assert forall|x: L| named_set(outside + right.label_set(), labels, map).contains(x) <==> (
    code.iy.to_set() + r.label_set(code.ixs)).contains(x) by {
        lemma_to_ints_contains(code.iy, labels, map, x);
        lemma_ordered_occurs(right, code.ixs, labels, map, riy, x);
    }
    assert forall|x: L| named_set(outside + left.label_set(), labels, map).contains(x) <==> (
    code.iy.to_set() + l.label_set(code.ixs)).contains(x) by {
        lemma_to_ints_contains(code.iy, labels, map, x);
        lemma_ordered_occurs(left, code.ixs, labels, map, liy, x);
    }
    assert(named_set(outside + right.label_set(), labels, map) =~= code.iy.to_set() + r.label_set(
        code.ixs,
    ));
    assert(named_set(outside + left.label_set(), labels, map) =~= code.iy.to_set() + l.label_set(
        code.ixs,
    ));
    lemma_ordered_leaves(t, code.ixs, labels, code.iy);
    lemma_plan_ids(t, ixs);
    assert(n->args[0] == l && n->args[1] == r);
}

/// The numbers of a set of labels.
pub open spec fn numbered_set<L>(outside: Set<L>, labels: Seq<L>) -> Set<usize> {
    Set::new(|k: usize| k < labels.len() && outside.contains(labels[k as int]))
}

/// The labels that occur in an order have numbers.
proof fn lemma_occurs_covered<L>(
    n: Nested<L>,
    ixs: Seq<Seq<L>>,
    outside: Set<L>,
    map: Map<L, usize>,
    l: L,
)
    requires
        n.contracts(ixs, outside),
        crate::convert::covers_all(map, ixs),
        n.occurs(ixs, l),
    ensures
        map.dom().contains(l),
    decreases n,
{
    match n {
        Nested::Leaf { tensor_index } => {
            let ix = ixs[tensor_index as int];
            assert(crate::convert::covers(map, ix));
            let k = ix.index_of(l);
            assert(map.dom().contains(ix[k]));
        },
        Nested::Node { args, .. } => {
            lemma_two_occurs(n, ixs, l);
            if args[0].occurs(ixs, l) {
                lemma_occurs_covered(args[0], ixs, outside + args[1].label_set(ixs), map, l);
            } else {
                lemma_occurs_covered(args[1], ixs, outside + args[0].label_set(ixs), map, l);
            }
        },
    }
}

/// The labels that an order yields have numbers.
pub proof fn lemma_child_labels_covered<L>(
    n: Nested<L>,
    ixs: Seq<Seq<L>>,
    outside: Set<L>,
    map: Map<L, usize>,
)
    requires
        n.contracts(ixs, outside),
        crate::convert::covers_all(map, ixs),
    ensures
        crate::convert::covers(map, crate::convert::child_labels(n, ixs)),
{
    match n {
        Nested::Leaf { tensor_index } => {
            assert(crate::convert::covers(map, ixs[tensor_index as int]));
        },
        Nested::Node { eins, .. } => {
            assert forall|k: int| 0 <= k < eins.iy.len() implies map.dom().contains(
                #[trigger] eins.iy[k],
            ) by {
                assert(eins.iy.contains(eins.iy[k]));
                lemma_occurs_covered(n, ixs, outside, map, eins.iy[k]);
            }
        },
    }
}

/// Numbering labels and naming the numbers gives the labels back.
pub proof fn lemma_from_to_ints<L>(ix: Seq<L>, labels: Seq<L>, map: Map<L, usize>)
    requires
        crate::convert::numbers(map, labels),
        crate::convert::covers(map, ix),
    ensures
        crate::convert::from_ints(crate::convert::to_ints(ix, map), labels) == ix,
{
    let back = crate::convert::from_ints(crate::convert::to_ints(ix, map), labels);
    assert forall|k: int| 0 <= k < ix.len() implies #[trigger] back[k] == ix[k] by {
        assert(map.dom().contains(ix[k]));
        lemma_numbered_below(ix[k], labels, map);
    }
    assert(back =~= ix);
}

/// A part of an order has an integer tree that is consistent and goes back to it.
proof fn lemma_contracts_converted<L>(
    n: Nested<L>,
    ixs: Seq<Seq<L>>,
    labels: Seq<L>,
    map: Map<L, usize>,
    outside: Set<L>,
) -> (t: Tree)
    requires
        crate::convert::numbers(map, labels),
        labels.len() <= usize::MAX,
        crate::convert::covers_all(map, ixs),
        n.contracts(ixs, outside),
    ensures
        crate::convert::converted_arg(n, crate::convert::child_labels(n, ixs), map) == Some(t),
        crate::convert::readable(n, map),
        t is Node <==> n is Node,
        t.dims() == crate::convert::to_ints(crate::convert::child_labels(n, ixs), map),
        t.leaves_from(crate::convert::to_int_lists(ixs, map)),
        t.consistent(numbered_set(outside, labels)),
        forall|k: usize| #[trigger]
            t.occurs(k) <==> k < labels.len() && n.occurs(ixs, labels[k as int]),
        crate::convert::ordered_node(t, ixs, labels, crate::convert::child_labels(n, ixs)) == n,
    decreases n,
{
    let ints = crate::convert::to_int_lists(ixs, map);
    match n {
        Nested::Leaf { tensor_index } => {
            let ix = ixs[tensor_index as int];
            let t = Tree::Leaf(
                Info { dims: crate::convert::to_ints(ix, map), id: Some(tensor_index) },
            );
            assert(crate::convert::covers(map, ix));
            assert forall|k: usize| #[trigger] t.occurs(k) <==> k < labels.len() && n.occurs(
                ixs,
                labels[k as int],
            ) by {
                if k < labels.len() {
                    assert(map[labels[k as int]] == k);
                    assert(labels.contains(labels[k as int]));
                    lemma_to_ints_contains(ix, labels, map, labels[k as int]);
                } else if t.occurs(k) {
                    let j = t.dims().index_of(k);
                    assert(map.dom().contains(ix[j]));
                    lemma_numbered_below(ix[j], labels, map);
                }
            }
            t
        },
        Nested::Node { args, eins } => {
            let a = args[0];
            let b = args[1];
            let (aix, bix) = (
                crate::convert::child_labels(a, ixs),
                crate::convert::child_labels(b, ixs),
            );
            let (aout, bout) = (outside + b.label_set(ixs), outside + a.label_set(ixs));
            let l = lemma_contracts_converted(a, ixs, labels, map, aout);
            let r = lemma_contracts_converted(b, ixs, labels, map, bout);
            let t = Tree::join(l, r, crate::convert::to_ints(eins.iy, map));
            let ext = numbered_set(outside, labels);
            lemma_child_labels_covered(n, ixs, outside, map);
            lemma_child_labels_covered(a, ixs, aout, map);
            lemma_child_labels_covered(b, ixs, bout, map);
            assert(eins.ixs[0] == aix && eins.ixs[1] == bix);
            assert forall|k: usize| #[trigger] t.occurs(k) <==> k < labels.len() && n.occurs(
                ixs,
                labels[k as int],
            ) by {
                assert(t.occurs(k) == (l.occurs(k) || r.occurs(k)));
                if k < labels.len() {
                    lemma_two_occurs(n, ixs, labels[k as int]);
                }
            }
            assert forall|k: usize| #[trigger] t.dims().contains(k) <==> t.occurs(k)
                && ext.contains(k) by {
                if k < labels.len() {
                    let x = labels[k as int];
                    assert(map[x] == k);
                    assert(labels.contains(x));
                    lemma_to_ints_contains(eins.iy, labels, map, x);
                    assert(eins.iy.contains(x) <==> n.occurs(ixs, x) && outside.contains(x));
                } else if t.dims().contains(k) {
                    let j = t.dims().index_of(k);
                    assert(map.dom().contains(eins.iy[j]));
                    lemma_numbered_below(eins.iy[j], labels, map);
                }
            }
            assert forall|k: usize| numbered_set(aout, labels).contains(k) <==> (ext
                + r.label_set()).contains(k) by {
                assert(r.occurs(k) <==> k < labels.len() && b.occurs(ixs, labels[k as int]));
            }
            assert forall|k: usize| numbered_set(bout, labels).contains(k) <==> (ext
                + l.label_set()).contains(k) by {
                assert(l.occurs(k) <==> k < labels.len() && a.occurs(ixs, labels[k as int]));
            }
            assert(numbered_set(aout, labels) =~= ext + r.label_set());
            assert(numbered_set(bout, labels) =~= ext + l.label_set());
            assert(t.consistent(ext)) by {
                assert(t->Node_info.dims == t.dims());
                assert(*t->left == l && *t->right == r);
            }
            lemma_from_to_ints(aix, labels, map);
            lemma_from_to_ints(bix, labels, map);
            let back = crate::convert::ordered_node(t, ixs, labels, eins.iy);
            assert(back->args =~= args);
            assert(back->eins.ixs =~= eins.ixs);
            t
        },
    }
}

/// An order of a network has an integer tree, which is a plan for the network, and the order of
/// that tree is the order itself.
pub proof fn order_gives_plan<L>(
    n: Nested<L>,
    code: Ein<L>,
    labels: Seq<L>,
    map: Map<L, usize>,
) -> (t: Tree)
    requires
        crate::convert::numbers(map, labels),
        labels.len() <= usize::MAX,
        code.ixs.len() <= usize::MAX,
        crate::convert::covers_all(map, code.ixs),
        crate::convert::covers(map, code.iy),
        n.is_order_of(code),
    ensures
        crate::convert::readable(n, map),
        crate::convert::converted(n, map) == Some(t),
        t.is_plan_of(
            crate::convert::to_int_lists(code.ixs, map),
            crate::convert::to_ints(code.iy, map),
        ),
        crate::convert::ordered_node(t, code.ixs, labels, code.iy) == n,
{
    let ixs = crate::convert::to_int_lists(code.ixs, map);
    let iy = crate::convert::to_ints(code.iy, map);
    let a = n->args[0];
    let b = n->args[1];
    let aout = code.iy.to_set() + b.label_set(code.ixs);
    let bout = code.iy.to_set() + a.label_set(code.ixs);
    let l = lemma_contracts_converted(a, code.ixs, labels, map, aout);
    let r = lemma_contracts_converted(b, code.ixs, labels, map, bout);
    let t = Tree::join(l, r, iy);
    let outside = iy.to_set();
    assert forall|k: usize| outside.contains(k) <==> numbered_set(
        code.iy.to_set(),
        labels,
    ).contains(k) by {
        if k < labels.len() {
            let x = labels[k as int];
            assert(map[x] == k);
            assert(labels.contains(x));
            lemma_to_ints_contains(code.iy, labels, map, x);
        } else if iy.contains(k) {
            let j = iy.index_of(k);
            assert(map.dom().contains(code.iy[j]));
            lemma_numbered_below(code.iy[j], labels, map);
        }
    }
    assert forall|k: usize| numbered_set(aout, labels).contains(k) <==> (outside
        + r.label_set()).contains(k) by {
        assert(r.occurs(k) <==> k < labels.len() && b.occurs(code.ixs, labels[k as int]));
        assert(outside.contains(k) <==> numbered_set(code.iy.to_set(), labels).contains(k));
    }
    assert forall|k: usize| numbered_set(bout, labels).contains(k) <==> (outside
        + l.label_set()).contains(k) by {
        assert(l.occurs(k) <==> k < labels.len() && a.occurs(code.ixs, labels[k as int]));
        assert(outside.contains(k) <==> numbered_set(code.iy.to_set(), labels).contains(k));
    }
    assert(numbered_set(aout, labels) =~= outside + r.label_set());
    assert(numbered_set(bout, labels) =~= outside + l.label_set());
    let aix = crate::convert::child_labels(a, code.ixs);
    let bix = crate::convert::child_labels(b, code.ixs);
    lemma_child_labels_covered(a, code.ixs, aout, map);
    lemma_child_labels_covered(b, code.ixs, bout, map);
    lemma_from_to_ints(aix, labels, map);
    lemma_from_to_ints(bix, labels, map);
    assert(n->eins.ixs[0] == aix && n->eins.ixs[1] == bix);
    let back = crate::convert::ordered_node(t, code.ixs, labels, code.iy);
    assert(back->args =~= n->args);
    assert(back->eins.ixs =~= n->eins.ixs);
    assert(back == n);
    lemma_ordered_leaves(t, code.ixs, labels, code.iy);
    let ids = crate::init::first_ids(ixs.len());
    let infos = crate::init::leaf_infos(ixs, ids);
    let g = |id: usize| Info { dims: ixs[id as int], id: Some(id) };
    lemma_map_multiset(t.ids(), ids, g);
    lemma_leaves_by_id(t, ixs);
    assert(t.ids().map_values(g) =~= t.leaves());
    assert(ids.map_values(g) =~= infos);
    t
}

/// A leaf is given by the index of its tensor.
proof fn lemma_leaves_by_id(t: Tree, ixs: Seq<Seq<usize>>)
    requires
        t.leaves_from(ixs),
    ensures
        forall|k: int|
            0 <= k < t.leaves().len() ==> #[trigger] t.leaves()[k] == (Info {
                dims: ixs[t.ids()[k] as int],
                id: Some(t.ids()[k]),
            }),
    decreases t,
{
    match t {
        Tree::Leaf(_) => {},
        Tree::Node { left, right, .. } => {
            lemma_leaves_by_id(*left, ixs);
            lemma_leaves_by_id(*right, ixs);
            assert forall|k: int| 0 <= k < t.leaves().len() implies #[trigger] t.leaves()[k] == (
            Info { dims: ixs[t.ids()[k] as int], id: Some(t.ids()[k]) }) by {
                if k < left.leaves().len() {
                    assert(t.leaves()[k] == left.leaves()[k]);
                    assert(t.ids()[k] == left.ids()[k]);
                } else {
                    let j = k - left.leaves().len();
                    assert(t.leaves()[k] == right.leaves()[j]);
                    assert(t.ids()[k] == right.ids()[j]);
                }
            }
        },
    }
}

} // verus!
