//! What is said of the shape of an order, for all its parts.

use crate::counting::stands_in;
use crate::eincode::Nested;
use crate::expr_tree::{Rule, Tree};
use vstd::prelude::*;

verus! {

/// Every expression in a binary order takes two arguments.
pub proof fn binary_holds_everywhere<L>(n: Nested<L>, part: Nested<L>)
    requires
        n.binary(),
        stands_in(part, n),
        part is Node,
    ensures
        part->args.len() == 2,
    decreases n,
{
    if part != n {
        let args = n->args;
        let k = choose|k: int| 0 <= k < args.len() && stands_in(part, #[trigger] args[k]);
        assert(k == 0 || k == 1);
        binary_holds_everywhere(args[k], part);
    }
}

/// An order in which every expression takes two arguments is binary.
pub proof fn two_arguments_make_binary<L>(n: Nested<L>)
    requires
        forall|part: Nested<L>| #[trigger]
            stands_in(part, n) && part is Node ==> part->args.len() == 2,
    ensures
        n.binary(),
    decreases n,
{
    if let Nested::Node { args, .. } = n {
        assert(stands_in(n, n));
        assert forall|k: int| 0 <= k < 2 implies (#[trigger] args[k]).binary() by {
            assert forall|part: Nested<L>| #[trigger]
                stands_in(part, args[k]) && part is Node implies part->args.len() == 2 by {
                assert(stands_in(part, n));
            }
            two_arguments_make_binary(args[k]);
        }
    }
}

/// Of any two arguments of any expression in a linear order, one is an input tensor.
pub proof fn linear_holds_everywhere<L>(n: Nested<L>, part: Nested<L>, i: int, j: int)
    requires
        n.linear(),
        stands_in(part, n),
        part is Node,
        0 <= i < j < part->args.len(),
    ensures
        part->args[i] is Leaf || part->args[j] is Leaf,
    decreases n,
{
    if part != n {
        let args = n->args;
        let k = choose|k: int| 0 <= k < args.len() && stands_in(part, #[trigger] args[k]);
        linear_holds_everywhere(args[k], part, i, j);
    }
}

/// An order is linear where of any two arguments of any expression one is an input tensor.
pub proof fn single_inner_arguments_make_linear<L>(n: Nested<L>)
    requires
        forall|part: Nested<L>, i: int, j: int|
            #![trigger stands_in(part, n), part->args[i], part->args[j]]
            stands_in(part, n) && part is Node && 0 <= i < j < part->args.len()
                ==> part->args[i] is Leaf || part->args[j] is Leaf,
    ensures
        n.linear(),
    decreases n,
{
    if let Nested::Node { args, .. } = n {
        assert(stands_in(n, n));
        assert forall|k: int| 0 <= k < args.len() implies (#[trigger] args[k]).linear() by {
            assert forall|part: Nested<L>, i: int, j: int|
                #![trigger stands_in(part, args[k]), part->args[i], part->args[j]]
                stands_in(part, args[k]) && part is Node && 0 <= i < j
                    < part->args.len() implies part->args[i] is Leaf || part->args[j] is Leaf by {
                assert(stands_in(part, n));
            }
            single_inner_arguments_make_linear(args[k]);
        }
        assert forall|i: int, j: int| 0 <= i < j < args.len() implies #[trigger] args[i] is Leaf
            || #[trigger] args[j] is Leaf by {
            assert(n->args[i] is Leaf || n->args[j] is Leaf);
        }
    }
}

/// The leaves of arguments follow one another as the arguments do.
pub proof fn leaves_follow_arguments<L>(x: Seq<Nested<L>>, y: Seq<Nested<L>>, n: Nested<L>)
    ensures
        Nested::leaves_of(x + y) == Nested::leaves_of(x) + Nested::leaves_of(y),
        Nested::leaves_of(seq![n]) == n.leaves(),
        n is Node ==> n.leaves() == Nested::leaves_of(n->args),
        n is Leaf ==> n.leaves() == seq![n->tensor_index],
    decreases y.len(),
{
    reveal_with_fuel(Nested::leaves_of, 2);
    assert(seq![n].drop_last() =~= Seq::<Nested<L>>::empty());
    assert(Nested::leaves_of(seq![n]) =~= n.leaves());
    if y.len() == 0 {
        assert(x + y =~= x);
        assert(Nested::leaves_of(x) + Nested::leaves_of(y) =~= Nested::leaves_of(x));
    } else {
        leaves_follow_arguments(x, y.drop_last(), n);
        assert((x + y).drop_last() =~= x + y.drop_last());
        assert(Nested::leaves_of(x + y) =~= Nested::leaves_of(x) + Nested::leaves_of(y));
    }
}

/// The leaves of an order are the input tensors that stand in it.
pub proof fn leaves_stand_in_order<L>(n: Nested<L>, i: usize)
    ensures
        n.leaves().contains(i) <==> stands_in(Nested::Leaf { tensor_index: i }, n),
    decreases n, 0int,
{
    if let Nested::Node { args, .. } = n {
        lemma_leaves_of(args, i);
    } else {
        assert(n.leaves() =~= seq![n->tensor_index]);
        if n->tensor_index == i {
            assert(n.leaves()[0] == i);
        }
    }
}

proof fn lemma_leaves_of<L>(args: Seq<Nested<L>>, i: usize)
    ensures
        Nested::leaves_of(args).contains(i) <==> exists|k: int|
            0 <= k < args.len() && stands_in(
                Nested::Leaf { tensor_index: i },
                #[trigger] args[k],
            ),
    decreases args,
{
    let leaf = Nested::<L>::Leaf { tensor_index: i };
    if args.len() > 0 {
        let rest = args.drop_last();
        let last = args.len() - 1;
        lemma_leaves_of(rest, i);
        leaves_stand_in_order(args.last(), i);
        crate::plan::lemma_concat_contains(Nested::leaves_of(rest), args.last().leaves(), i);
        if Nested::leaves_of(rest).contains(i) {
            let k = choose|k: int| 0 <= k < rest.len() && stands_in(leaf, #[trigger] rest[k]);
            assert(stands_in(leaf, args[k]));
        }
        if args.last().leaves().contains(i) {
            assert(stands_in(leaf, args[last]));
        }
        if exists|k: int| 0 <= k < args.len() && stands_in(leaf, #[trigger] args[k]) {
            let k = choose|k: int| 0 <= k < args.len() && stands_in(leaf, #[trigger] args[k]);
            if k < last {
                assert(stands_in(leaf, rest[k]));
            } else {
                assert(args[k] == args.last());
            }
        }
    }
}

/// The rewrites of a tree with three subtrees reach the two other ways to pair them up: the subtree
/// that stood alone is paired with either one of the two others, which leaves the third alone.
pub proof fn rewrites_pair_up_subtrees(a: Tree, b: Tree, c: Tree, t: Tree, s: Tree)
    requires
        t is Node && *t->left is Node,
        *t->left->left == a && *t->left->right == b && *t->right == c,
        s is Node && *s->right is Node,
        *s->left == a && *s->right->left == b && *s->right->right == c,
    ensures
        t.applied(Rule::Rule1) is Node && *t.applied(Rule::Rule1)->left is Node,
        *t.applied(Rule::Rule1)->left->left == a && *t.applied(Rule::Rule1)->left->right == c
            && *t.applied(Rule::Rule1)->right == b,
        t.applied(Rule::Rule2) is Node && *t.applied(Rule::Rule2)->left is Node,
        *t.applied(Rule::Rule2)->left->left == c && *t.applied(Rule::Rule2)->left->right == b
            && *t.applied(Rule::Rule2)->right == a,
        s.applied(Rule::Rule3) is Node && *s.applied(Rule::Rule3)->right is Node,
        *s.applied(Rule::Rule3)->left == b && *s.applied(Rule::Rule3)->right->left == a
            && *s.applied(Rule::Rule3)->right->right == c,
        s.applied(Rule::Rule4) is Node && *s.applied(Rule::Rule4)->right is Node,
        *s.applied(Rule::Rule4)->left == c && *s.applied(Rule::Rule4)->right->left == b
            && *s.applied(Rule::Rule4)->right->right == a,
{
}

} // verus!
