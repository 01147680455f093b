//! What annealing can make of a contraction tree, and what it leaves as it was.

use crate::expr_tree::{DecompositionType, Rule, Tree};
use vstd::multiset::Multiset;
use vstd::prelude::*;

verus! {

impl Tree {
    /// Whether `self` turns into `other` by at most one rewrite at the root.
    pub open spec fn moved(self, other: Tree, decomp: DecompositionType) -> bool {
        other == self || exists|rule: Rule|
            self.applicable(decomp).contains(rule) && other == #[trigger] self.applied(rule)
    }

    /// Whether one sweep can turn `self` into `other`.
    ///
    /// A sweep tries a rewrite at the root and then sweeps the two children. It stops at a node
    /// at which no rule applies.
    pub open spec fn swept(self, other: Tree, decomp: DecompositionType) -> bool
        decreases other,
    {
        if self.applicable(decomp).len() == 0 {
            other == self
        } else {
            &&& other is Node
            &&& exists|mid: Tree| #[trigger]
                self.moved(mid, decomp) && mid is Node && other.info() == mid.info()
                    && mid->left.swept(*other->left, decomp) && mid->right.swept(
                    *other->right,
                    decomp,
                )
        }
    }

    /// Whether `sweeps` sweeps can turn `self` into `other`.
    pub open spec fn annealed(self, other: Tree, sweeps: nat, decomp: DecompositionType) -> bool
        decreases sweeps,
    {
        if sweeps == 0 {
            other == self
        } else {
            exists|mid: Tree|
                self.annealed(mid, (sweeps - 1) as nat, decomp) && #[trigger] mid.swept(
                    other,
                    decomp,
                )
        }
    }

    /// The leaves, without their order.
    pub open spec fn leaf_set(self) -> Multiset<crate::expr_tree::Info> {
        self.leaves().to_multiset()
    }
}

/// The leaves of a node are those of its children.
proof fn lemma_node_leaf_set(t: Tree)
    requires
        t is Node,
    ensures
        t.leaf_set() == t->left.leaf_set().add(t->right.leaf_set()),
{
    vstd::seq_lib::lemma_multiset_commutative(t->left.leaves(), t->right.leaves());
}

/// A rewrite at the root moves the leaves but neither drops nor adds one, and leaves the root as
/// it is.
pub proof fn rule_keeps_leaves(t: Tree, rule: Rule)
    ensures
        t.applied(rule).leaf_set() == t.leaf_set(),
        t.applied(rule).leaf_count() == t.leaf_count(),
        t.applied(rule).info() == t.info(),
        t is Node ==> t.applied(rule) is Node,
{
    if t.fits(rule) {
        let u = t.applied(rule);
        lemma_node_leaf_set(t);
        lemma_node_leaf_set(u);
        match rule {
            Rule::Rule1 | Rule::Rule2 => {
                lemma_node_leaf_set(*t->left);
                lemma_node_leaf_set(*u->left);
            },
            Rule::Rule3 | Rule::Rule4 => {
                lemma_node_leaf_set(*t->right);
                lemma_node_leaf_set(*u->right);
            },
            Rule::Rule5 => {},
        }
        assert(u.leaf_set() =~= t.leaf_set());
        reveal_with_fuel(Tree::leaf_count, 3);
    }
}

/// A rewrite that is tried on a linear order gives a linear order.
pub proof fn rule_keeps_path(t: Tree, rule: Rule)
    requires
        t.left_deep(),
        t.applicable(DecompositionType::Path).contains(rule),
    ensures
        t.applied(rule).left_deep(),
{
    reveal_with_fuel(Tree::left_deep, 3);
}

/// A sweep keeps the leaves and the labels of the root.
pub proof fn sweep_keeps_leaves(t: Tree, u: Tree, decomp: DecompositionType)
    requires
        t.swept(u, decomp),
    ensures
        u.leaf_set() == t.leaf_set(),
        u.leaf_count() == t.leaf_count(),
        u.info() == t.info(),
        u is Leaf <==> t is Leaf,
    decreases u,
{
    if t.applicable(decomp).len() > 0 {
        let mid = choose|mid: Tree| #[trigger]
            t.moved(mid, decomp) && mid is Node && u.info() == mid.info() && mid->left.swept(
                *u->left,
                decomp,
            ) && mid->right.swept(*u->right, decomp);
        if mid != t {
            let rule = choose|rule: Rule|
                t.applicable(decomp).contains(rule) && mid == #[trigger] t.applied(rule);
            rule_keeps_leaves(t, rule);
        }
        sweep_keeps_leaves(*mid->left, *u->left, decomp);
        sweep_keeps_leaves(*mid->right, *u->right, decomp);
        lemma_node_leaf_set(mid);
        lemma_node_leaf_set(u);
    }
}

/// A sweep keeps the labels that occur at the leaves.
pub proof fn sweep_keeps_labels(t: Tree, u: Tree, decomp: DecompositionType)
    requires
        t.swept(u, decomp),
    ensures
        u.label_set() == t.label_set(),
    decreases u,
{
    if t.applicable(decomp).len() > 0 {
        let mid = choose|mid: Tree| #[trigger]
            t.moved(mid, decomp) && mid is Node && u.info() == mid.info() && mid->left.swept(
                *u->left,
                decomp,
            ) && mid->right.swept(*u->right, decomp);
        sweep_keeps_labels(*mid->left, *u->left, decomp);
        sweep_keeps_labels(*mid->right, *u->right, decomp);
        assert forall|l: usize| u.occurs(l) == t.occurs(l) by {
            if mid != t {
                let rule = choose|rule: Rule|
                    t.applicable(decomp).contains(rule) && mid == #[trigger] t.applied(rule);
                crate::plan::lemma_applied_occurs(t, rule, t.inner_dims(rule), l);
            }
            assert(mid->left.label_set().contains(l) == u->left.label_set().contains(l));
            assert(mid->right.label_set().contains(l) == u->right.label_set().contains(l));
        }
        assert(u.label_set() =~= t.label_set());
    }
}

/// A sweep keeps the labels along the tree right.
pub proof fn sweep_keeps_consistency(
    t: Tree,
    u: Tree,
    decomp: DecompositionType,
    outside: Set<usize>,
)
    requires
        t.swept(u, decomp),
        t.root_consistent(outside),
    ensures
        u.root_consistent(outside),
        t.consistent(outside) ==> u.consistent(outside),
    decreases u,
{
    if t.applicable(decomp).len() > 0 {
        let mid = choose|mid: Tree| #[trigger]
            t.moved(mid, decomp) && mid is Node && u.info() == mid.info() && mid->left.swept(
                *u->left,
                decomp,
            ) && mid->right.swept(*u->right, decomp);
        if mid != t {
            let rule = choose|rule: Rule|
                t.applicable(decomp).contains(rule) && mid == #[trigger] t.applied(rule);
            crate::plan::rule_keeps_consistency(t, rule, outside);
        }
        let ml = *mid->left;
        let mr = *mid->right;
        crate::plan::lemma_consistent_is_root_consistent(ml, outside + mr.label_set());
        crate::plan::lemma_consistent_is_root_consistent(mr, outside + ml.label_set());
        sweep_keeps_consistency(ml, *u->left, decomp, outside + mr.label_set());
        sweep_keeps_consistency(mr, *u->right, decomp, outside + ml.label_set());
        sweep_keeps_labels(ml, *u->left, decomp);
        sweep_keeps_labels(mr, *u->right, decomp);
        assert forall|l: usize| u.occurs(l) == mid.occurs(l) by {
            assert(ml.label_set().contains(l) == u->left.label_set().contains(l));
            assert(mr.label_set().contains(l) == u->right.label_set().contains(l));
        }
    }
}

/// A sweep of a linear order with the rewrites for linear orders gives a linear order.
pub proof fn sweep_keeps_path(t: Tree, u: Tree)
    requires
        t.swept(u, DecompositionType::Path),
        t.left_deep(),
    ensures
        u.left_deep(),
    decreases u,
{
    let decomp = DecompositionType::Path;
    if t.applicable(decomp).len() > 0 {
        let mid = choose|mid: Tree| #[trigger]
            t.moved(mid, decomp) && mid is Node && u.info() == mid.info() && mid->left.swept(
                *u->left,
                decomp,
            ) && mid->right.swept(*u->right, decomp);
        if mid != t {
            let rule = choose|rule: Rule|
                t.applicable(decomp).contains(rule) && mid == #[trigger] t.applied(rule);
            rule_keeps_path(t, rule);
        }
        sweep_keeps_path(*mid->left, *u->left);
        sweep_keeps_leaves(*mid->right, *u->right, decomp);
    }
}

/// Annealing rearranges a contraction tree and nothing more: every input tensor stays in it as
/// often as it was, the labels that occur stay the same, the root hands up the same labels, and
/// every inner node hands up exactly what is needed outside of it if that was so before.
pub proof fn annealing_rearranges(
    t: Tree,
    u: Tree,
    sweeps: nat,
    decomp: DecompositionType,
    outside: Set<usize>,
)
    requires
        t.annealed(u, sweeps, decomp),
    ensures
        u.leaf_set() == t.leaf_set(),
        u.leaf_count() == t.leaf_count(),
        u.label_set() == t.label_set(),
        u.info() == t.info(),
        u is Leaf <==> t is Leaf,
        t.root_consistent(outside) ==> u.root_consistent(outside),
        decomp == DecompositionType::Path && t.left_deep() ==> u.left_deep(),
    decreases sweeps,
{
    if sweeps > 0 {
        let mid = choose|mid: Tree|
            t.annealed(mid, (sweeps - 1) as nat, decomp) && #[trigger] mid.swept(u, decomp);
        annealing_rearranges(t, mid, (sweeps - 1) as nat, decomp, outside);
        sweep_keeps_leaves(mid, u, decomp);
        sweep_keeps_labels(mid, u, decomp);
        if mid.root_consistent(outside) {
            sweep_keeps_consistency(mid, u, decomp, outside);
        }
        if decomp == DecompositionType::Path && mid.left_deep() {
            sweep_keeps_path(mid, u);
        }
    }
}

} // verus!
