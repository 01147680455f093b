//! What follows where numbers are ranked: which tensor of a tree is the largest, and which trial is
//! the best.

use crate::energy::Cost;
use crate::expr_tree::Tree;
use crate::scalar::Scalar;
use crate::score::TreeCost;
use vstd::prelude::*;

verus! {

/// Whether `a` never compares as below `b`.
pub open spec fn not_below<R: Scalar>(a: R, b: R) -> bool {
    forall|lower: bool| #[trigger] crate::scalar::less_is(a, b, lower) ==> !lower
}

/// Whether [`Scalar::less`] ranks numbers, and [`Scalar::maximum`] returns one of two numbers that
/// is below neither.
pub open spec fn ranked<R: Scalar>() -> bool {
    &&& forall|a: R| #[trigger] not_below(a, a)
    &&& forall|a: R, b: R, c: R| #[trigger]
        not_below(a, b) && #[trigger] not_below(b, c) ==> not_below(a, c)
    &&& forall|a: R, b: R, r: R| #[trigger]
        crate::scalar::max_is(a, b, r) ==> (r == a || r == b) && not_below(r, a) && not_below(r, b)
}

/// Whether `u` is `t` or stands somewhere in it.
pub open spec fn stands_in(u: Tree, t: Tree) -> bool
    decreases t,
{
    u == t || match t {
        Tree::Leaf(_) => false,
        Tree::Node { left, right, .. } => stands_in(u, *left) || stands_in(u, *right),
    }
}

/// No tensor of a tree is larger than the tree says.
pub proof fn size_bounds_tensors<R: Scalar>(
    t: Tree,
    u: Tree,
    table: Seq<R>,
    c: TreeCost<R>,
) -> (sc: R)
    requires
        ranked::<R>(),
        crate::score::tree_cost_is(t, table, c),
        stands_in(u, t),
    ensures
        crate::scalar::sum_is(crate::energy::entries(u.dims(), table), sc),
        not_below(c.sc, sc),
    decreases t,
{
    match t {
        Tree::Leaf(info) => c.sc,
        Tree::Node { left, right, info } => {
            let (own, lc, rc) = choose|own: Cost<R>, lc: TreeCost<R>, rc: TreeCost<R>|
                crate::score::tree_cost_is(*left, table, lc) && crate::score::tree_cost_is(
                    *right,
                    table,
                    rc,
                ) && crate::energy::cost_is(left.dims(), right.dims(), info.dims, table, true, own)
                    && #[trigger] crate::score::joined_is(own, lc, rc, c);
            let p = choose|p: R| #[trigger]
                crate::scalar::max_is(own.sc, lc.sc, p) && crate::scalar::max_is(p, rc.sc, c.sc);
            assert(not_below(c.sc, p) && not_below(p, own.sc) && not_below(p, lc.sc));
            if u == t {
                own.sc
            } else if stands_in(u, *left) {
                size_bounds_tensors(*left, u, table, lc)
            } else {
                size_bounds_tensors(*right, u, table, rc)
            }
        },
    }
}

/// Some tensor of a tree is as large as the tree says.
pub proof fn size_is_attained<R: Scalar>(t: Tree, table: Seq<R>, c: TreeCost<R>) -> (u: Tree)
    requires
        ranked::<R>(),
        crate::score::tree_cost_is(t, table, c),
    ensures
        stands_in(u, t),
        crate::scalar::sum_is(crate::energy::entries(u.dims(), table), c.sc),
    decreases t,
{
    match t {
        Tree::Leaf(_) => t,
        Tree::Node { left, right, info } => {
            let (own, lc, rc) = choose|own: Cost<R>, lc: TreeCost<R>, rc: TreeCost<R>|
                crate::score::tree_cost_is(*left, table, lc) && crate::score::tree_cost_is(
                    *right,
                    table,
                    rc,
                ) && crate::energy::cost_is(left.dims(), right.dims(), info.dims, table, true, own)
                    && #[trigger] crate::score::joined_is(own, lc, rc, c);
            let p = choose|p: R| #[trigger]
                crate::scalar::max_is(own.sc, lc.sc, p) && crate::scalar::max_is(p, rc.sc, c.sc);
            if c.sc == rc.sc {
                size_is_attained(*right, table, rc)
            } else if c.sc == lc.sc {
                size_is_attained(*left, table, lc)
            } else {
                t
            }
        },
    }
}

} // verus!
