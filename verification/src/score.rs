//! What a whole contraction tree costs, and how good that is.

use crate::energy::Cost;
use crate::expr_tree::{ExprTree, Tree};
use crate::scalar::Scalar;
use vstd::prelude::*;

verus! {

/// What a contraction tree costs, on the scale of binary logarithms: products formed, the largest
/// tensor, and entries read and written. A tree of one leaf forms no product and moves no entry,
/// and nothing has no logarithm.
pub struct TreeCost<R> {
    pub tc: Option<R>,
    pub sc: R,
    pub rw: Option<R>,
}

/// Whether `r` is the logarithm of the sum of what has the logarithms `a` and `b`.
pub open spec fn total_is<R: Scalar>(a: R, b: Option<R>, r: R) -> bool {
    match b {
        None => r == a,
        Some(b) => crate::scalar::lse_is(a, b, r),
    }
}

/// The logarithm of the sum of what has the logarithms `a` and `b`.
fn total<R: Scalar>(a: R, b: &Option<R>) -> (r: R)
    ensures
        total_is(a, *b, r),
{
    match b {
        None => a,
        Some(b) => R::log2_sum_exp2(&a, b),
    }
}

/// Whether `r` is the logarithm of the sum of what has the logarithms `a`, `b` and `c`.
pub open spec fn total3_is<R: Scalar>(a: R, b: Option<R>, c: Option<R>, r: R) -> bool {
    exists|p: R| #[trigger] total_is(a, b, p) && total_is(p, c, r)
}

/// Whether `r` is the largest one of `a`, `b` and `c`.
pub open spec fn max3_is<R: Scalar>(a: R, b: R, c: R, r: R) -> bool {
    exists|p: R| #[trigger] crate::scalar::max_is(a, b, p) && crate::scalar::max_is(p, c, r)
}

/// Whether a node whose own contraction costs `own` and whose children cost `left` and `right`
/// costs `c`.
pub open spec fn joined_is<R: Scalar>(
    own: Cost<R>,
    left: TreeCost<R>,
    right: TreeCost<R>,
    c: TreeCost<R>,
) -> bool {
    &&& c.tc matches Some(tc) && total3_is(own.tc, left.tc, right.tc, tc)
    &&& max3_is(own.sc, left.sc, right.sc, c.sc)
    &&& own.rw matches Some(rw0) && c.rw matches Some(rw) && total3_is(
        rw0,
        left.rw,
        right.rw,
        rw,
    )
}

/// Whether `t` costs `c`: the work of all its contractions together, and the largest one of its
/// tensors.
pub open spec fn tree_cost_is<R: Scalar>(t: Tree, table: Seq<R>, c: TreeCost<R>) -> bool
    decreases t,
{
    match t {
        Tree::Leaf(info) => {
            &&& c.tc is None
            &&& c.rw is None
            &&& crate::scalar::sum_is(crate::energy::entries(info.dims, table), c.sc)
        },
        Tree::Node { left, right, info } => exists|
            own: Cost<R>,
            lc: TreeCost<R>,
            rc: TreeCost<R>,
        |
            tree_cost_is(*left, table, lc) && tree_cost_is(*right, table, rc)
                && crate::energy::cost_is(left.dims(), right.dims(), info.dims, table, true, own)
                && #[trigger] joined_is(own, lc, rc, c),
    }
}

/// What a contraction tree costs.
pub fn tree_complexity<R: Scalar>(tree: &ExprTree, log2_sizes: &Vec<R>) -> (c: TreeCost<R>)
    requires
        tree@.labels_below(log2_sizes.len() as nat),
    ensures
        tree_cost_is(tree@, log2_sizes@, c),
    decreases tree,
{
    match tree {
        ExprTree::Leaf(info) => {
            assert(tree@.dims() == info.out_dims@);
            TreeCost { tc: None, sc: crate::energy::node_sc(&info.out_dims, log2_sizes), rw: None }
        },
        ExprTree::Node { left, right, info } => {
            assert(tree@.dims() == info.out_dims@);
            let lc: TreeCost<R> = tree_complexity(left, log2_sizes);
            let rc: TreeCost<R> = tree_complexity(right, log2_sizes);
            proof {
                crate::energy::lemma_below(left@, log2_sizes.len() as nat);
                crate::energy::lemma_below(right@, log2_sizes.len() as nat);
            }
            let own: Cost<R> = crate::energy::contraction_cost(
                left.labels(),
                right.labels(),
                &info.out_dims,
                log2_sizes,
                true,
            );
            let ghost whole = own;
            let Cost { tc, sc, rw } = own;
            let part: R = total(tc, &lc.tc);
            let all: R = total(part, &rc.tc);
            assert(total_is(tc, lc.tc, part));
            assert(total3_is(tc, lc.tc, rc.tc, all));
            let wide: R = R::maximum(&sc, &lc.sc);
            let widest: R = R::maximum(&wide, &rc.sc);
            assert(crate::scalar::max_is(sc, lc.sc, wide));
            assert(max3_is(sc, lc.sc, rc.sc, widest));
            let moved: Option<R> = match rw {
                None => None,
                Some(rw) => {
                    let part: R = total(rw, &lc.rw);
                    let moved: R = total(part, &rc.rw);
                    assert(total_is(rw, lc.rw, part));
                    assert(total3_is(rw, lc.rw, rc.rw, moved));
                    Some(moved)
                },
            };
            let c: TreeCost<R> = TreeCost { tc: Some(all), sc: widest, rw: moved };
            assert(joined_is(whole, lc, rc, c));
            c
        },
    }
}

/// Weights of the objectives in a score, and the size of the largest tensor up to which size costs
/// nothing, as a binary logarithm.
#[derive(Debug, Clone)]
pub struct ScoreFunction<R> {
    pub tc_weight: R,
    pub sc_weight: R,
    pub rw_weight: R,
    pub sc_target: R,
}

impl<R> ScoreFunction<R> {
    /// The score with these weights and this target.
    pub fn new(tc_weight: R, sc_weight: R, rw_weight: R, sc_target: R) -> (score: Self)
        ensures
            score == (ScoreFunction { tc_weight, sc_weight, rw_weight, sc_target }),
    {
        ScoreFunction { tc_weight, sc_weight, rw_weight, sc_target }
    }
}

/// Whether `r` is two to the power of `a`, or zero where there is no `a`.
pub open spec fn amount_is<R: Scalar>(a: Option<R>, r: R) -> bool {
    match a {
        None => call_ensures(R::zero, (), r),
        Some(a) => call_ensures(R::exp2, (&a,), r),
    }
}

/// Two to the power of `a`, or zero where there is no `a`.
fn amount<R: Scalar>(a: &Option<R>) -> (r: R)
    ensures
        amount_is(*a, r),
{
    match a {
        None => R::zero(),
        Some(a) => R::exp2(a),
    }
}

/// Whether `r` is `weight` times two to the power of `a`.
pub open spec fn part_is<R: Scalar>(weight: R, a: Option<R>, r: R) -> bool {
    exists|m: R| #[trigger] amount_is(a, m) && crate::scalar::times_is(weight, m, r)
}

/// Whether `r` is `weight` times what `2^sc` is above `2^target`.
pub open spec fn excess_is<R: Scalar>(weight: R, sc: R, target: R, r: R) -> bool {
    exists|a: R, b: R, d: R, z: R, m: R|
        call_ensures(R::exp2, (&sc,), a) && call_ensures(R::exp2, (&target,), b)
            && #[trigger] crate::scalar::minus_is(a, b, d) && call_ensures(R::zero, (), z)
            && #[trigger] crate::scalar::max_is(z, d, m) && crate::scalar::times_is(weight, m, r)
}

impl<R: Scalar> ScoreFunction<R> {
    /// Whether this score is `r` for a tree that costs `c`: the weighted sum of products formed,
    /// of entries read and written, and of what the largest tensor is above the target.
    pub open spec fn scores(self, c: TreeCost<R>, r: R) -> bool {
        exists|a: R, b: R, p: R, s: R|
            part_is(self.tc_weight, c.tc, a) && part_is(self.rw_weight, c.rw, b)
                && #[trigger] crate::scalar::plus_is(a, b, p) && excess_is(
                self.sc_weight,
                c.sc,
                self.sc_target,
                s,
            ) && #[trigger] crate::scalar::plus_is(p, s, r)
    }

    /// The score of a tree that costs `c`. Lower is better.
    pub fn evaluate(&self, c: &TreeCost<R>) -> (r: R)
        ensures
            self.scores(*c, r),
    {
        let m: R = amount(&c.tc);
        let a: R = R::times(&self.tc_weight, &m);
        assert(amount_is(c.tc, m));
        assert(part_is(self.tc_weight, c.tc, a));
        let n: R = amount(&c.rw);
        let b: R = R::times(&self.rw_weight, &n);
        assert(amount_is(c.rw, n));
        assert(part_is(self.rw_weight, c.rw, b));
        let p: R = R::plus(&a, &b);
        assert(crate::scalar::plus_is(a, b, p));
        let large: R = R::exp2(&c.sc);
        let free: R = R::exp2(&self.sc_target);
        let d: R = R::minus(&large, &free);
        let z: R = R::zero();
        let above: R = R::maximum(&z, &d);
        let s: R = R::times(&self.sc_weight, &above);
        assert(crate::scalar::minus_is(large, free, d));
        assert(crate::scalar::max_is(z, d, above));
        assert(excess_is(self.sc_weight, c.sc, self.sc_target, s));
        let r: R = R::plus(&p, &s);
        assert(crate::scalar::plus_is(p, s, r));
        r
    }
}

impl<R: Scalar> Default for ScoreFunction<R> {
    /// Products formed and the largest tensor weigh one, reads and writes nothing, and tensors of
    /// up to two to the power of twenty entries cost nothing.
    fn default() -> (score: Self)
        ensures
            call_ensures(R::affine, (100, 0, 0), score.tc_weight),
            call_ensures(R::affine, (100, 0, 0), score.sc_weight),
            call_ensures(R::affine, (0, 0, 0), score.rw_weight),
            call_ensures(R::affine, (2000, 0, 0), score.sc_target),
    {
        ScoreFunction {
            tc_weight: R::affine(100, 0, 0),
            sc_weight: R::affine(100, 0, 0),
            rw_weight: R::affine(0, 0, 0),
            sc_target: R::affine(2000, 0, 0),
        }
    }
}

} // verus!
