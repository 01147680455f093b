//! When the labels along a contraction tree are the right ones.
//!
//! A node has to hand up exactly those labels of its leaves that are still needed outside of it:
//! by another tensor of the network or by the output.

use crate::expr_tree::{Rule, Tree};
use vstd::prelude::*;

verus! {

impl Tree {
    /// The labels that occur at the leaves of the tree.
    pub open spec fn label_set(self) -> Set<usize> {
        Set::new(|l: usize| self.occurs(l))
    }

    /// Whether every node of the tree hands up exactly the labels of its leaves that occur outside
    /// of it, where `outside` holds the labels that occur outside of the tree.
    pub open spec fn consistent(self, outside: Set<usize>) -> bool
        decreases self,
    {
        match self {
            Tree::Leaf(_) => true,
            Tree::Node { left, right, info } => {
                &&& forall|l: usize| #[trigger]
                    info.dims.contains(l) <==> self.occurs(l) && outside.contains(l)
                &&& left.consistent(outside + right.label_set())
                &&& right.consistent(outside + left.label_set())
            },
        }
    }

    /// As [`Tree::consistent`], but the root may also hand up labels that none of its leaves
    /// carries.
    pub open spec fn root_consistent(self, outside: Set<usize>) -> bool {
        match self {
            Tree::Leaf(_) => true,
            Tree::Node { left, right, info } => {
                &&& forall|l: usize| #[trigger]
                    self.occurs(l) ==> (info.dims.contains(l) <==> outside.contains(l))
                &&& left.consistent(outside + right.label_set())
                &&& right.consistent(outside + left.label_set())
            },
        }
    }
}

/// What the labels of a consistent tree say of one label.
pub proof fn lemma_handed_up(t: Tree, outside: Set<usize>, l: usize)
    requires
        t.consistent(outside),
    ensures
        t.dims().contains(l) ==> t.occurs(l),
        t.occurs(l) && outside.contains(l) ==> t.dims().contains(l),
{
}

/// A consistent tree is consistent at its root.
pub proof fn lemma_consistent_is_root_consistent(t: Tree, outside: Set<usize>)
    requires
        t.consistent(outside),
    ensures
        t.root_consistent(outside),
{
}

/// Joining two subtrees `x` and `y` beside `z`, under a root that hands up `d`, with the labels
/// that `z` and `d` need, gives a consistent tree.
proof fn lemma_inner(x: Tree, y: Tree, z: Tree, d: Seq<usize>, outside: Set<usize>)
    requires
        x.consistent(outside + y.label_set() + z.label_set()),
        y.consistent(outside + x.label_set() + z.label_set()),
        z.consistent(outside + x.label_set() + y.label_set()),
        forall|l: usize|
            x.occurs(l) || y.occurs(l) || z.occurs(l) ==> (d.contains(l) <==> outside.contains(l)),
    ensures
        Tree::join(
            x,
            y,
            crate::expr_tree::needed(x.dims() + y.dims(), z.dims(), d),
        ).consistent(outside + z.label_set()),
{
    let dims = crate::expr_tree::needed(x.dims() + y.dims(), z.dims(), d);
    let t = Tree::join(x, y, dims);
    let ext = outside + z.label_set();
    crate::expr_tree::lemma_needed(x.dims() + y.dims(), z.dims(), d);
    assert forall|l: usize| #[trigger] dims.contains(l) <==> t.occurs(l) && ext.contains(l) by {
        lemma_handed_up(x, outside + y.label_set() + z.label_set(), l);
        lemma_handed_up(y, outside + x.label_set() + z.label_set(), l);
        lemma_handed_up(z, outside + x.label_set() + y.label_set(), l);
        lemma_concat_contains(x.dims(), y.dims(), l);
    }
    assert(ext + y.label_set() =~= outside + y.label_set() + z.label_set());
    assert(ext + x.label_set() =~= outside + x.label_set() + z.label_set());
}

/// What a concatenation holds.
pub proof fn lemma_concat_contains<T>(a: Seq<T>, b: Seq<T>, x: T)
    ensures
        (a + b).contains(x) <==> a.contains(x) || b.contains(x),
{
    if a.contains(x) {
        assert((a + b)[a.index_of(x)] == x);
    }
    if b.contains(x) {
        assert((a + b)[a.len() + b.index_of(x)] == x);
    }
    if (a + b).contains(x) {
        let k = (a + b).index_of(x);
        if k < a.len() {
            assert(a[k] == x);
        } else {
            assert(b[k - a.len()] == x);
        }
    }
}

/// A rewrite leaves the labels of the leaves as they are.
pub proof fn lemma_applied_occurs(t: Tree, rule: Rule, dims: Seq<usize>, l: usize)
    ensures
        t.rewritten(rule, dims).occurs(l) == t.occurs(l),
{
    reveal_with_fuel(Tree::occurs, 3);
}

/// A rewrite keeps the labels along the tree right.
pub proof fn rule_keeps_consistency(t: Tree, rule: Rule, outside: Set<usize>)
    requires
        t.root_consistent(outside),
    ensures
        t.applied(rule).root_consistent(outside),
        t.consistent(outside) ==> t.applied(rule).consistent(outside),
{
    if t.fits(rule) {
        let u = t.applied(rule);
        assert forall|l: usize| u.occurs(l) == t.occurs(l) by {
            lemma_applied_occurs(t, rule, t.inner_dims(rule), l);
        }
        let l = *t->left;
        let r = *t->right;
        reveal_with_fuel(Tree::consistent, 2);
        match rule {
            Rule::Rule5 => {},
            Rule::Rule1 | Rule::Rule2 => {
                let a = *l->left;
                let b = *l->right;
                let lo = l.label_set();
                assert(lo =~= a.label_set() + b.label_set());
                assert(outside + r.label_set() + b.label_set() =~= outside + b.label_set()
                    + r.label_set());
                assert(outside + lo =~= outside + a.label_set() + b.label_set());
                assert(outside + a.label_set() + b.label_set() =~= outside + b.label_set()
                    + a.label_set());
                assert(outside + r.label_set() + a.label_set() =~= outside + a.label_set()
                    + r.label_set());
                let (x, y, z) = if rule == Rule::Rule1 {
                    (a, r, b)
                } else {
                    (r, b, a)
                };
                assert forall|l: usize|
                    x.occurs(l) || y.occurs(l) || z.occurs(l) implies (t.dims().contains(l)
                    <==> outside.contains(l)) by {
                    assert(t.occurs(l)) by {
                        reveal_with_fuel(Tree::occurs, 3);
                    }
                }
                lemma_inner(x, y, z, t.dims(), outside);
                assert(Tree::join(x, y, t.inner_dims(rule)).label_set() =~= x.label_set()
                    + y.label_set());
                assert(outside + Tree::join(x, y, t.inner_dims(rule)).label_set() =~= outside
                    + x.label_set() + y.label_set());
            },
            Rule::Rule3 | Rule::Rule4 => {
                let b = *r->left;
                let c = *r->right;
                let ro = r.label_set();
                assert(ro =~= b.label_set() + c.label_set());
                assert(outside + l.label_set() + c.label_set() =~= outside + c.label_set()
                    + l.label_set());
                assert(outside + ro =~= outside + b.label_set() + c.label_set());
                assert(outside + b.label_set() + c.label_set() =~= outside + c.label_set()
                    + b.label_set());
                assert(outside + l.label_set() + b.label_set() =~= outside + b.label_set()
                    + l.label_set());
                let (x, y, z) = if rule == Rule::Rule3 {
                    (l, c, b)
                } else {
                    (b, l, c)
                };
                assert forall|l: usize|
                    x.occurs(l) || y.occurs(l) || z.occurs(l) implies (t.dims().contains(l)
                    <==> outside.contains(l)) by {
                    assert(t.occurs(l)) by {
                        reveal_with_fuel(Tree::occurs, 3);
                    }
                }
                lemma_inner(x, y, z, t.dims(), outside);
                assert(Tree::join(x, y, t.inner_dims(rule)).label_set() =~= x.label_set()
                    + y.label_set());
                assert(outside + Tree::join(x, y, t.inner_dims(rule)).label_set() =~= outside
                    + x.label_set() + y.label_set());
            },
        }
    }
}

} // verus!
