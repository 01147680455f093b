//! How large the tensors of a contraction tree are, what a rewrite costs, and whether to make it.

use crate::expr_tree::{DecompositionType, ExprTree, Rule, Tree};
use crate::scalar::Scalar;
use vstd::prelude::*;

verus! {

/// The entries of `table` at the places `dims`.
pub open spec fn entries<R>(dims: Seq<usize>, table: Seq<R>) -> Seq<R> {
    dims.map_values(|l: usize| table[l as int])
}

/// Whether every label of `dims` is below `n`.
pub open spec fn below(dims: Seq<usize>, n: nat) -> bool {
    forall|k: int| 0 <= k < dims.len() ==> (#[trigger] dims[k]) < n
}

/// The binary logarithm of the size of a tensor with the labels `out_dims`: the sum of those of
/// its indices.
pub fn node_sc<R: Scalar>(out_dims: &Vec<usize>, log2_sizes: &Vec<R>) -> (sc: R)
    requires
        below(out_dims@, log2_sizes.len() as nat),
    ensures
        crate::scalar::sum_is(entries(out_dims@, log2_sizes@), sc),
{
    let mut sc: R = R::zero();
    let ghost terms = entries(out_dims@, log2_sizes@);
    let mut k: usize = 0;
    while k < out_dims.len()
        invariant
            k <= out_dims.len(),
            below(out_dims@, log2_sizes.len() as nat),
            terms == entries(out_dims@, log2_sizes@),
            crate::scalar::sum_is(terms.take(k as int), sc),
        decreases out_dims.len() - k,
    {
        let next: R = R::plus(&sc, &log2_sizes[out_dims[k]]);
        proof {
            assert(terms.take(k + 1).drop_last() =~= terms.take(k as int));
            assert(terms.take(k + 1).last() == log2_sizes[out_dims[k as int] as int]);
            assert(crate::scalar::plus_is(sc, terms.take(k + 1).last(), next));
        }
        sc = next;
        k = k + 1;
    }
    assert(terms.take(k as int) =~= terms);
    sc
}

/// The child of the root of `t` that `rule` takes apart. Where it takes none apart, the right one.
pub open spec fn taken_apart(t: Tree, rule: Rule) -> Tree {
    match rule {
        Rule::Rule1 | Rule::Rule2 => *t->left,
        Rule::Rule3 | Rule::Rule4 | Rule::Rule5 => *t->right,
    }
}

/// Whether `sc` is the binary logarithm of the size that matters where `rule` is tried at the root
/// of `t`: the larger one of the size of the root and that of the child which the rule takes
/// apart.
pub open spec fn local_sc_is<R: Scalar>(t: Tree, rule: Rule, table: Seq<R>, sc: R) -> bool {
    match t {
        Tree::Leaf(info) => crate::scalar::sum_is(entries(info.dims, table), sc),
        Tree::Node { info, .. } => {
            let child = taken_apart(t, rule).dims();
            exists|a: R, b: R|
                crate::scalar::sum_is(entries(info.dims, table), a) && crate::scalar::sum_is(
                    entries(child, table),
                    b,
                ) && #[trigger] crate::scalar::max_is(a, b, sc)
        },
    }
}

/// The binary logarithm of the size that matters where `rule` is tried at the root of `tree`.
pub fn local_sc<R: Scalar>(tree: &ExprTree, rule: Rule, log2_sizes: &Vec<R>) -> (sc: R)
    requires
        below(tree@.dims(), log2_sizes.len() as nat),
        tree@ is Node ==> below(taken_apart(tree@, rule).dims(), log2_sizes.len() as nat),
    ensures
        local_sc_is(tree@, rule, log2_sizes@, sc),
{
    match tree {
        ExprTree::Leaf(info) => {
            assert(tree@.dims() == info.out_dims@);
            node_sc(&info.out_dims, log2_sizes)
        },
        ExprTree::Node { left, right, info } => {
            assert(tree@.dims() == info.out_dims@);
            let tree_sc = node_sc(&info.out_dims, log2_sizes);
            let child_sc = match rule {
                Rule::Rule1 | Rule::Rule2 => node_sc(left.labels(), log2_sizes),
                Rule::Rule3 | Rule::Rule4 | Rule::Rule5 => node_sc(right.labels(), log2_sizes),
            };
            let sc: R = R::maximum(&tree_sc, &child_sc);
            assert(crate::scalar::max_is(tree_sc, child_sc, sc));
            sc
        },
    }
}

/// The labels at the root of a tree are among those of the tree.
pub proof fn lemma_below(t: Tree, n: nat)
    requires
        t.labels_below(n),
    ensures
        below(t.dims(), n),
{
}

/// The labels of `y` that `x` does not list.
pub open spec fn extra(x: Seq<usize>, y: Seq<usize>) -> Seq<usize>
    decreases y.len(),
{
    if y.len() == 0 {
        Seq::empty()
    } else {
        let before = extra(x, y.drop_last());
        if x.contains(y.last()) {
            before
        } else {
            before.push(y.last())
        }
    }
}

/// The binary logarithm of how many products the contraction of two tensors with the labels `x`
/// and `y` forms: the sum of those of the sizes of all their indices.
pub fn contraction_tc<R: Scalar>(x: &Vec<usize>, y: &Vec<usize>, log2_sizes: &Vec<R>) -> (tc: R)
    requires
        below(x@, log2_sizes.len() as nat),
        below(y@, log2_sizes.len() as nat),
    ensures
        crate::scalar::sum_is(entries(x@ + extra(x@, y@), log2_sizes@), tc),
{
    let mut tc: R = node_sc(x, log2_sizes);
    let mut k: usize = 0;
    assert(x@ + extra(x@, y@.take(0)) =~= x@);
    while k < y.len()
        invariant
            k <= y.len(),
            below(y@, log2_sizes.len() as nat),
            crate::scalar::sum_is(entries(x@ + extra(x@, y@.take(k as int)), log2_sizes@), tc),
        decreases y.len() - k,
    {
        let l: usize = y[k];
        let ghost before = x@ + extra(x@, y@.take(k as int));
        let ghost after = x@ + extra(x@, y@.take(k + 1));
        assert(y@.take(k + 1).drop_last() =~= y@.take(k as int));
        if !crate::expr_tree::has_label(x, l) {
            let next: R = R::plus(&tc, &log2_sizes[l]);
            proof {
                let terms = entries(after, log2_sizes@);
                assert(after =~= before.push(l));
                assert(terms.drop_last() =~= entries(before, log2_sizes@));
                assert(terms.last() == log2_sizes@[l as int]);
                assert(crate::scalar::plus_is(tc, terms.last(), next));
            }
            tc = next;
        }
        k = k + 1;
    }
    assert(y@.take(k as int) =~= y@);
    tc
}

/// What contractions cost, on the scale of binary logarithms: products formed, the largest tensor
/// that comes out, and, where that is counted, entries read and written.
pub struct Cost<R> {
    pub tc: R,
    pub sc: R,
    pub rw: Option<R>,
}

/// Whether `rw` is the binary logarithm of how many entries are read and written where two tensors
/// with the labels `x` and `y` are contracted to one whose size has the logarithm `sc`.
pub open spec fn traffic_is<R: Scalar>(
    x: Seq<usize>,
    y: Seq<usize>,
    table: Seq<R>,
    sc: R,
    rw: R,
) -> bool {
    exists|a: R, b: R, p: R|
        crate::scalar::sum_is(entries(x, table), a) && crate::scalar::sum_is(entries(y, table), b)
            && #[trigger] crate::scalar::lse_is(sc, a, p) && #[trigger] crate::scalar::lse_is(
            p,
            b,
            rw,
        )
}

/// Whether `c` is the cost of contracting two tensors with the labels `x` and `y` to one with the
/// labels `d`.
pub open spec fn cost_is<R: Scalar>(
    x: Seq<usize>,
    y: Seq<usize>,
    d: Seq<usize>,
    table: Seq<R>,
    count_rw: bool,
    c: Cost<R>,
) -> bool {
    &&& crate::scalar::sum_is(entries(x + extra(x, y), table), c.tc)
    &&& crate::scalar::sum_is(entries(d, table), c.sc)
    &&& match c.rw {
        None => !count_rw,
        Some(rw) => count_rw && traffic_is(x, y, table, c.sc, rw),
    }
}

/// The cost of contracting two tensors with the labels `x` and `y` to one with the labels `d`.
pub fn contraction_cost<R: Scalar>(
    x: &Vec<usize>,
    y: &Vec<usize>,
    d: &Vec<usize>,
    log2_sizes: &Vec<R>,
    count_rw: bool,
) -> (c: Cost<R>)
    requires
        below(x@, log2_sizes.len() as nat),
        below(y@, log2_sizes.len() as nat),
        below(d@, log2_sizes.len() as nat),
    ensures
        cost_is(x@, y@, d@, log2_sizes@, count_rw, c),
{
    let tc: R = contraction_tc(x, y, log2_sizes);
    let sc: R = node_sc(d, log2_sizes);
    if count_rw {
        let a: R = node_sc(x, log2_sizes);
        let b: R = node_sc(y, log2_sizes);
        let p: R = R::log2_sum_exp2(&sc, &a);
        let rw: R = R::log2_sum_exp2(&p, &b);
        assert(crate::scalar::lse_is(sc, a, p) && crate::scalar::lse_is(p, b, rw));
        assert(traffic_is(x@, y@, log2_sizes@, sc, rw));
        Cost { tc, sc, rw: Some(rw) }
    } else {
        Cost { tc, sc, rw: None }
    }
}

/// Whether `c` is the cost of two contractions with the costs `c1` and `c2`.
pub open spec fn both_is<R: Scalar>(c1: Cost<R>, c2: Cost<R>, c: Cost<R>) -> bool {
    &&& crate::scalar::lse_is(c1.tc, c2.tc, c.tc)
    &&& crate::scalar::max_is(c1.sc, c2.sc, c.sc)
    &&& match (c1.rw, c2.rw) {
        (Some(rw1), Some(rw2)) => c.rw matches Some(rw) && crate::scalar::lse_is(rw1, rw2, rw),
        _ => c.rw is None,
    }
}

/// The cost of two contractions with the costs `c1` and `c2`.
pub fn both<R: Scalar>(c1: &Cost<R>, c2: &Cost<R>) -> (c: Cost<R>)
    ensures
        both_is(*c1, *c2, c),
{
    let tc: R = R::log2_sum_exp2(&c1.tc, &c2.tc);
    let sc: R = R::maximum(&c1.sc, &c2.sc);
    let rw: Option<R> = match (&c1.rw, &c2.rw) {
        (Some(rw1), Some(rw2)) => Some(R::log2_sum_exp2(rw1, rw2)),
        _ => None,
    };
    Cost { tc, sc, rw }
}

/// Whether `c` is the cost of contracting `x` with `y` to `xy`, and that with `z` to `d`.
pub open spec fn two_step_is<R: Scalar>(
    x: Seq<usize>,
    y: Seq<usize>,
    xy: Seq<usize>,
    z: Seq<usize>,
    d: Seq<usize>,
    table: Seq<R>,
    count_rw: bool,
    c: Cost<R>,
) -> bool {
    exists|c1: Cost<R>, c2: Cost<R>|
        cost_is(x, y, xy, table, count_rw, c1) && cost_is(xy, z, d, table, count_rw, c2)
            && #[trigger] both_is(c1, c2, c)
}

/// The cost of contracting `x` with `y` to `xy`, and that with `z` to `d`.
fn two_step_cost<R: Scalar>(
    x: &Vec<usize>,
    y: &Vec<usize>,
    xy: &Vec<usize>,
    z: &Vec<usize>,
    d: &Vec<usize>,
    log2_sizes: &Vec<R>,
    count_rw: bool,
) -> (c: Cost<R>)
    requires
        below(x@, log2_sizes.len() as nat),
        below(y@, log2_sizes.len() as nat),
        below(xy@, log2_sizes.len() as nat),
        below(z@, log2_sizes.len() as nat),
        below(d@, log2_sizes.len() as nat),
    ensures
        two_step_is(x@, y@, xy@, z@, d@, log2_sizes@, count_rw, c),
{
    let c1 = contraction_cost(x, y, xy, log2_sizes, count_rw);
    let c2 = contraction_cost(xy, z, d, log2_sizes, count_rw);
    both(&c1, &c2)
}

/// Whether `c` is the cost of the contractions that `rule` takes apart at the root of `t`.
pub open spec fn old_cost_is<R: Scalar>(
    t: Tree,
    rule: Rule,
    table: Seq<R>,
    count_rw: bool,
    c: Cost<R>,
) -> bool {
    let l = *t->left;
    let r = *t->right;
    let d = t.dims();
    match rule {
        Rule::Rule1 | Rule::Rule2 => two_step_is(
            l->left.dims(),
            l->right.dims(),
            l.dims(),
            r.dims(),
            d,
            table,
            count_rw,
            c,
        ),
        Rule::Rule3 | Rule::Rule4 => two_step_is(
            r->left.dims(),
            r->right.dims(),
            r.dims(),
            l.dims(),
            d,
            table,
            count_rw,
            c,
        ),
        Rule::Rule5 => cost_is(l.dims(), r.dims(), d, table, count_rw, c),
    }
}

/// Whether `c` is the cost of the contractions that `rule` forms at the root of `t`.
pub open spec fn new_cost_is<R: Scalar>(
    t: Tree,
    rule: Rule,
    table: Seq<R>,
    count_rw: bool,
    c: Cost<R>,
) -> bool {
    let l = *t->left;
    let r = *t->right;
    let d = t.dims();
    let inner = t.inner_dims(rule);
    match rule {
        Rule::Rule1 => two_step_is(
            l->left.dims(),
            r.dims(),
            inner,
            l->right.dims(),
            d,
            table,
            count_rw,
            c,
        ),
        Rule::Rule2 => two_step_is(
            r.dims(),
            l->right.dims(),
            inner,
            l->left.dims(),
            d,
            table,
            count_rw,
            c,
        ),
        Rule::Rule3 => two_step_is(
            l.dims(),
            r->right.dims(),
            inner,
            r->left.dims(),
            d,
            table,
            count_rw,
            c,
        ),
        Rule::Rule4 => two_step_is(
            r->left.dims(),
            l.dims(),
            inner,
            r->right.dims(),
            d,
            table,
            count_rw,
            c,
        ),
        Rule::Rule5 => cost_is(r.dims(), l.dims(), d, table, count_rw, c),
    }
}

/// What a rewrite changes: the cost of the contractions that it takes apart, that of those which
/// it forms, how the size of the largest of their results changes, and the labels of the inner
/// node that it forms.
pub struct RuleDiff<R> {
    pub before: Cost<R>,
    pub after: Cost<R>,
    pub dsc: R,
    pub new_labels: Vec<usize>,
}

impl<R: Scalar> RuleDiff<R> {
    /// Whether this is what `rule` changes at the root of `t`.
    pub open spec fn is_of(self, t: Tree, rule: Rule, table: Seq<R>, count_rw: bool) -> bool {
        &&& self.new_labels@ == t.inner_dims(rule)
        &&& old_cost_is(t, rule, table, count_rw, self.before)
        &&& new_cost_is(t, rule, table, count_rw, self.after)
        &&& crate::scalar::minus_is(self.after.sc, self.before.sc, self.dsc)
    }
}

/// The labels that a rewrite gives to the inner node are among those of the tree.
pub proof fn lemma_inner_below(t: Tree, rule: Rule, n: nat)
    requires
        t.labels_below(n),
        t.fits(rule),
    ensures
        below(t.inner_dims(rule), n),
{
    reveal_with_fuel(Tree::labels_below, 3);
    let l = *t->left;
    let r = *t->right;
    let d = t.dims();
    let (x, y, z) = match rule {
        Rule::Rule1 => (l->left.dims(), r.dims(), l->right.dims()),
        Rule::Rule2 => (r.dims(), l->right.dims(), l->left.dims()),
        Rule::Rule3 => (l.dims(), r->right.dims(), r->left.dims()),
        Rule::Rule4 => (r->left.dims(), l.dims(), r->right.dims()),
        Rule::Rule5 => (d, d, d),
    };
    crate::expr_tree::lemma_needed(x + y, z, d);
    let inner = t.inner_dims(rule);
    assert forall|k: int| 0 <= k < inner.len() implies (#[trigger] inner[k]) < n by {
        assert(inner.contains(inner[k]));
        if rule != Rule::Rule5 {
            let j = (x + y).index_of(inner[k]);
            if j < x.len() {
                assert(x[j] == inner[k]);
            } else {
                assert(y[j - x.len()] == inner[k]);
            }
        }
    }
}

/// What `rule` changes at the root of `tree`, or nothing where the rule does not fit. Entries read
/// and written are counted where `optimize_rw` says so.
pub fn rule_diff<R: Scalar>(
    tree: &ExprTree,
    rule: Rule,
    log2_sizes: &Vec<R>,
    optimize_rw: bool,
) -> (diff: Option<RuleDiff<R>>)
    requires
        tree@.labels_below(log2_sizes.len() as nat),
    ensures
        diff is Some <==> tree@.fits(rule),
        diff matches Some(diff) ==> diff.is_of(tree@, rule, log2_sizes@, optimize_rw),
{
    let new_labels = match crate::expr_tree::rule_labels(tree, rule) {
        Some(labels) => labels,
        None => {
            return None;
        },
    };
    proof {
        lemma_inner_below(tree@, rule, log2_sizes.len() as nat);
        reveal_with_fuel(ExprTree::model, 3);
        reveal_with_fuel(Tree::labels_below, 3);
    }
    match tree {
        ExprTree::Leaf(_) => None,
        ExprTree::Node { left, right, info } => {
            assert(info.out_dims@ == tree@.dims());
            let d: &Vec<usize> = &info.out_dims;
            let ll: &Vec<usize> = left.labels();
            let rl: &Vec<usize> = right.labels();
            let n: &Vec<usize> = &new_labels;
            let s: &Vec<R> = log2_sizes;
            let rw: bool = optimize_rw;
            let (before, after) = match rule {
                Rule::Rule1 | Rule::Rule2 => match &**left {
                    ExprTree::Leaf(_) => {
                        return None;
                    },
                    ExprTree::Node { left: a, right: b, .. } => {
                        let al: &Vec<usize> = a.labels();
                        let bl: &Vec<usize> = b.labels();
                        let before: Cost<R> = two_step_cost(al, bl, ll, rl, d, s, rw);
                        if rule == Rule::Rule1 {
                            (before, two_step_cost(al, rl, n, bl, d, s, rw))
                        } else {
                            (before, two_step_cost(rl, bl, n, al, d, s, rw))
                        }
                    },
                },
                Rule::Rule3 | Rule::Rule4 => match &**right {
                    ExprTree::Leaf(_) => {
                        return None;
                    },
                    ExprTree::Node { left: b, right: c, .. } => {
                        let bl: &Vec<usize> = b.labels();
                        let cl: &Vec<usize> = c.labels();
                        let before: Cost<R> = two_step_cost(bl, cl, rl, ll, d, s, rw);
                        if rule == Rule::Rule3 {
                            (before, two_step_cost(ll, cl, n, bl, d, s, rw))
                        } else {
                            (before, two_step_cost(bl, ll, n, cl, d, s, rw))
                        }
                    },
                },
                Rule::Rule5 => (
                    contraction_cost(ll, rl, d, s, rw),
                    contraction_cost(rl, ll, d, s, rw),
                ),
            };
            let dsc: R = R::minus(&after.sc, &before.sc);
            Some(RuleDiff { before, after, dsc, new_labels })
        },
    }
}

/// Whether `r` is the logarithm of `2^tc + 2^(weight + rw)`.
pub open spec fn weighted_is<R: Scalar>(tc: R, rw: R, weight: R, r: R) -> bool {
    exists|p: R| #[trigger]
        crate::scalar::plus_is(weight, rw, p) && crate::scalar::lse_is(tc, p, r)
}

/// Whether the logarithm of the work changes by `dtc` under a rewrite. Where reads and writes
/// count, the work is the products formed plus those weighted.
pub open spec fn work_change_is<R: Scalar>(diff: RuleDiff<R>, weight: Option<R>, dtc: R) -> bool {
    match (weight, diff.before.rw, diff.after.rw) {
        (Some(w), Some(rw0), Some(rw1)) => exists|t0: R, t1: R|
            weighted_is(diff.before.tc, rw0, w, t0) && weighted_is(diff.after.tc, rw1, w, t1)
                && #[trigger] crate::scalar::minus_is(t1, t0, dtc),
        _ => crate::scalar::minus_is(diff.after.tc, diff.before.tc, dtc),
    }
}

/// The change of the logarithm of the work under a rewrite.
fn work_change<R: Scalar>(diff: &RuleDiff<R>, weight: &Option<R>) -> (dtc: R)
    ensures
        work_change_is(*diff, *weight, dtc),
{
    match (weight, &diff.before.rw, &diff.after.rw) {
        (Some(w), Some(rw0), Some(rw1)) => {
            let p1: R = R::plus(w, rw1);
            let t1: R = R::log2_sum_exp2(&diff.after.tc, &p1);
            let p0: R = R::plus(w, rw0);
            let t0: R = R::log2_sum_exp2(&diff.before.tc, &p0);
            let dtc: R = R::minus(&t1, &t0);
            assert(crate::scalar::plus_is(*w, *rw1, p1));
            assert(weighted_is(diff.after.tc, *rw1, *w, t1));
            assert(crate::scalar::plus_is(*w, *rw0, p0));
            assert(weighted_is(diff.before.tc, *rw0, *w, t0));
            assert(crate::scalar::minus_is(t1, t0, dtc));
            dtc
        },
        _ => R::minus(&diff.after.tc, &diff.before.tc),
    }
}

/// Whether `over` says that the larger one of the sizes before and after a rewrite is above the
/// target.
pub open spec fn over_is<R: Scalar>(sc: R, dsc: R, sc_target: R, over: bool) -> bool {
    exists|grown: R, top: R| #[trigger]
        crate::scalar::plus_is(sc, dsc, grown) && #[trigger] crate::scalar::max_is(sc, grown, top)
            && crate::scalar::less_is(sc_target, top, over)
}

/// Whether `de` is `weight` times `dsc`, plus `dtc`.
pub open spec fn raised_is<R: Scalar>(weight: R, dsc: R, dtc: R, de: R) -> bool {
    exists|w: R| #[trigger]
        crate::scalar::times_is(weight, dsc, w) && crate::scalar::plus_is(w, dtc, de)
}

/// Whether a rewrite that changes `diff` changes the energy by `de`, where `sc` is the size that
/// matters before it: the change of the work, and where the size is above the target the weighted
/// change of the size on top of it.
pub open spec fn energy_is<R: Scalar>(
    diff: RuleDiff<R>,
    sc: R,
    sc_target: R,
    sc_weight: R,
    log2_rw_weight: Option<R>,
    de: R,
) -> bool {
    exists|dtc: R, over: bool| #[trigger]
        work_change_is(diff, log2_rw_weight, dtc) && #[trigger] over_is(
            sc,
            diff.dsc,
            sc_target,
            over,
        ) && if over {
            raised_is(sc_weight, diff.dsc, dtc, de)
        } else {
            de == dtc
        }
}

/// The change of the energy under a rewrite that changes `diff`, where `sc` is the size that
/// matters before it.
pub fn energy_change<R: Scalar>(
    diff: &RuleDiff<R>,
    sc: &R,
    sc_target: &R,
    sc_weight: &R,
    log2_rw_weight: &Option<R>,
) -> (de: R)
    ensures
        energy_is(*diff, *sc, *sc_target, *sc_weight, *log2_rw_weight, de),
{
    let dtc: R = work_change(diff, log2_rw_weight);
    let grown: R = R::plus(sc, &diff.dsc);
    let sc_after: R = R::maximum(sc, &grown);
    let over: bool = R::less(sc_target, &sc_after);
    assert(crate::scalar::plus_is(*sc, diff.dsc, grown));
    assert(crate::scalar::max_is(*sc, grown, sc_after));
    assert(over_is(*sc, diff.dsc, *sc_target, over));
    assert(work_change_is(*diff, *log2_rw_weight, dtc));
    if over {
        let w: R = R::times(sc_weight, &diff.dsc);
        let de: R = R::plus(&w, &dtc);
        assert(crate::scalar::times_is(*sc_weight, diff.dsc, w));
        assert(raised_is(*sc_weight, diff.dsc, dtc, de));
        de
    } else {
        dtc
    }
}

/// Whether a rewrite that changes the energy by `de` is made at the inverse temperature `beta`
/// where `draw` was drawn: it is if `draw` is below the exponential of minus `beta` times `de`.
pub open spec fn metropolis_is<R: Scalar>(beta: R, de: R, draw: R, accept: bool) -> bool {
    exists|nb: R, x: R, e: R|
        call_ensures(R::negated, (&beta,), nb) && #[trigger] crate::scalar::times_is(nb, de, x)
            && call_ensures(R::exp, (&x,), e) && #[trigger] crate::scalar::less_is(draw, e, accept)
}

/// Decides whether a rewrite that changes the energy by `de` is made.
pub fn metropolis<R: Scalar>(beta: &R, de: &R, draw: &R) -> (accept: bool)
    ensures
        metropolis_is(*beta, *de, *draw, accept),
{
    let nb: R = R::negated(beta);
    let x: R = R::times(&nb, de);
    let e: R = R::exp(&x);
    let accept: bool = R::less(draw, &e);
    assert(crate::scalar::times_is(nb, *de, x));
    assert(crate::scalar::less_is(*draw, e, accept));
    accept
}

/// What an annealing run goes by: the binary logarithms of the sizes, the target and the weight of
/// the largest tensor, the logarithm of the weight of reads and writes where they count, and which
/// rewrites may be tried.
pub struct Terms<R> {
    pub table: Seq<R>,
    pub sc_target: R,
    pub sc_weight: R,
    pub log2_rw_weight: Option<R>,
    pub decomp: DecompositionType,
}

/// Whether a try of `rule` at the root of `t`, at the inverse temperature `beta` and where `draw`
/// was drawn, is accepted.
pub open spec fn accept_is<R: Scalar>(
    t: Tree,
    rule: Rule,
    beta: R,
    terms: Terms<R>,
    draw: R,
    accept: bool,
) -> bool {
    exists|diff: RuleDiff<R>, sc: R, de: R|
        diff.is_of(t, rule, terms.table, terms.log2_rw_weight is Some) && local_sc_is(
            t,
            rule,
            terms.table,
            sc,
        ) && #[trigger] energy_is(
            diff,
            sc,
            terms.sc_target,
            terms.sc_weight,
            terms.log2_rw_weight,
            de,
        ) && metropolis_is(beta, de, draw, accept)
}

} // verus!
