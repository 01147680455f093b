//! Which rewrites annealing accepts, where numbers are computed exactly.

use crate::energy::{Cost, RuleDiff, Terms};
use crate::expr_tree::{Rule, Tree};
use crate::reading::{amount_of, lists_both, measures, upper, ways, Reading};
use crate::scalar::Scalar;
use crate::score::TreeCost;
use rand::rngs::SmallRng;
use vstd::prelude::*;

verus! {

/// The work of contractions that cost `c`: the products that are formed, and, where reads and
/// writes count with a weight, their weighted number on top.
pub open spec fn work_of<R>(e: Reading<R>, c: Cost<R>, weight: Option<R>) -> real {
    match (weight, c.rw) {
        (Some(w), Some(rw)) => (e.amount)(c.tc) + (e.amount)(w) * (e.amount)(rw),
        _ => (e.amount)(c.tc),
    }
}

/// A change of the energy is that of the logarithm of the work, and, where the size before or after
/// is above the target, the weighted change of the size on top, whether it grows or shrinks.
pub proof fn energy_is_weighed<R: Scalar>(
    e: Reading<R>,
    d: RuleDiff<R>,
    sc: R,
    sc_target: R,
    sc_weight: R,
    weight: Option<R>,
    de: R,
)
    requires
        e.exact(),
        crate::energy::energy_is(d, sc, sc_target, sc_weight, weight, de),
        weight is Some <==> d.before.rw is Some,
        weight is Some <==> d.after.rw is Some,
    ensures
        (e.value)(de) == (e.log)(work_of(e, d.after, weight)) - (e.log)(
            work_of(e, d.before, weight),
        ) + if (e.value)(sc) > (e.value)(sc_target) || (e.value)(sc) + (e.value)(d.dsc) > (e.value)(
            sc_target,
        ) {
            (e.value)(sc_weight) * (e.value)(d.dsc)
        } else {
            0 as real
        },
{
    reveal(Reading::linear);
    let (dtc, over) = choose|dtc: R, over: bool| #[trigger]
        crate::energy::work_change_is(d, weight, dtc) && #[trigger] crate::energy::over_is(
            sc,
            d.dsc,
            sc_target,
            over,
        ) && if over {
            crate::energy::raised_is(sc_weight, d.dsc, dtc, de)
        } else {
            de == dtc
        };
    assert((e.value)(dtc) == (e.log)(work_of(e, d.after, weight)) - (e.log)(
        work_of(e, d.before, weight),
    )) by {
        reveal(Reading::logarithmic);
        if let Some(w) = weight {
            let (t0, t1) = choose|t0: R, t1: R|
                crate::energy::weighted_is(d.before.tc, d.before.rw->0, w, t0)
                    && crate::energy::weighted_is(d.after.tc, d.after.rw->0, w, t1)
                    && #[trigger] crate::scalar::minus_is(t1, t0, dtc);
            lemma_weighted(e, d.before, w, t0);
            lemma_weighted(e, d.after, w, t1);
        }
    }
    let (grown, top) = choose|grown: R, top: R| #[trigger]
        crate::scalar::plus_is(sc, d.dsc, grown) && #[trigger] crate::scalar::max_is(sc, grown, top)
            && crate::scalar::less_is(sc_target, top, over);
    if over {
        let w = choose|w: R| #[trigger]
            crate::scalar::times_is(sc_weight, d.dsc, w) && crate::scalar::plus_is(w, dtc, de);
        assert((e.value)(w) == (e.value)(sc_weight) * (e.value)(d.dsc));
    }
}

proof fn lemma_weighted<R: Scalar>(e: Reading<R>, c: Cost<R>, w: R, t: R)
    requires
        e.exact(),
        c.rw is Some,
        crate::energy::weighted_is(c.tc, c.rw->0, w, t),
    ensures
        (e.amount)(t) == work_of(e, c, Some(w)),
{
    reveal(Reading::exponential);
    let p = choose|p: R| #[trigger]
        crate::scalar::plus_is(w, c.rw->0, p) && crate::scalar::lse_is(c.tc, p, t);
}

/// Above the target, shrinking is rewarded: where two rewrites change the work alike, the one that
/// shrinks the largest result more, or lets it grow less, has no higher energy.
pub proof fn shrinking_lowers_energy<R: Scalar>(
    e: Reading<R>,
    d: RuleDiff<R>,
    f: RuleDiff<R>,
    sc: R,
    sc_target: R,
    sc_weight: R,
    weight: Option<R>,
    x: R,
    y: R,
)
    requires
        e.exact(),
        crate::energy::energy_is(d, sc, sc_target, sc_weight, weight, x),
        crate::energy::energy_is(f, sc, sc_target, sc_weight, weight, y),
        weight is Some <==> d.before.rw is Some,
        weight is Some <==> d.after.rw is Some,
        d.before.tc == f.before.tc && d.before.rw == f.before.rw,
        d.after.tc == f.after.tc && d.after.rw == f.after.rw,
        (e.value)(sc) > (e.value)(sc_target),
        (e.value)(sc_weight) > 0 as real,
        (e.value)(d.dsc) < (e.value)(f.dsc),
    ensures
        (e.value)(x) < (e.value)(y),
{
    energy_is_weighed(e, d, sc, sc_target, sc_weight, weight, x);
    energy_is_weighed(e, f, sc, sc_target, sc_weight, weight, y);
    let w = (e.value)(sc_weight);
    let a = (e.value)(d.dsc);
    let b = (e.value)(f.dsc);
    assert(w * a < w * b) by (nonlinear_arith)
        requires
            w > 0 as real,
            a < b,
    ;
}

/// Above the target, a rewrite that shrinks the largest result has a lower energy than its work
/// alone gives it, and one that lets it grow a higher one.
pub proof fn size_counts_above_target<R: Scalar>(
    e: Reading<R>,
    d: RuleDiff<R>,
    sc: R,
    sc_target: R,
    sc_weight: R,
    weight: Option<R>,
    dtc: real,
    de: R,
)
    requires
        e.exact(),
        crate::energy::energy_is(d, sc, sc_target, sc_weight, weight, de),
        weight is Some <==> d.before.rw is Some,
        weight is Some <==> d.after.rw is Some,
        dtc == (e.log)(work_of(e, d.after, weight)) - (e.log)(work_of(e, d.before, weight)),
        (e.value)(sc) > (e.value)(sc_target),
        (e.value)(sc_weight) > 0 as real,
    ensures
        (e.value)(d.dsc) < 0 as real ==> (e.value)(de) < dtc,
        (e.value)(d.dsc) == 0 as real ==> (e.value)(de) == dtc,
        (e.value)(d.dsc) > 0 as real ==> (e.value)(de) > dtc,
{
    energy_is_weighed(e, d, sc, sc_target, sc_weight, weight, de);
    let w = (e.value)(sc_weight);
    let a = (e.value)(d.dsc);
    assert((a < 0 as real ==> w * a < 0 as real) && (a == 0 as real ==> w * a == 0 as real) && (a
        > 0 as real ==> w * a > 0 as real)) by (nonlinear_arith)
        requires
            w > 0 as real,
    ;
}

/// A rewrite and its inverse change the energy by opposite amounts, where both sizes are above the
/// target, and where both are not.
pub proof fn inverse_undoes_energy<R: Scalar>(
    e: Reading<R>,
    d: RuleDiff<R>,
    back: RuleDiff<R>,
    sc: R,
    back_sc: R,
    sc_target: R,
    sc_weight: R,
    weight: Option<R>,
    x: R,
    y: R,
)
    requires
        e.exact(),
        crate::energy::energy_is(d, sc, sc_target, sc_weight, weight, x),
        crate::energy::energy_is(back, back_sc, sc_target, sc_weight, weight, y),
        weight is Some <==> d.before.rw is Some,
        weight is Some <==> d.after.rw is Some,
        back.before == d.after && back.after == d.before,
        (e.value)(back.dsc) == -(e.value)(d.dsc),
        (e.value)(back_sc) == (e.value)(sc) + (e.value)(d.dsc),
    ensures
        (e.value)(x) + (e.value)(y) == 0 as real,
{
    energy_is_weighed(e, d, sc, sc_target, sc_weight, weight, x);
    energy_is_weighed(e, back, back_sc, sc_target, sc_weight, weight, y);
    let w = (e.value)(sc_weight);
    let a = (e.value)(d.dsc);
    assert(w * (-a) == -(w * a)) by (nonlinear_arith);
}

/// A change of the energy is accepted if the number drawn is below the exponential of minus the
/// change times the inverse temperature.
pub proof fn metropolis_is_read<R: Scalar>(e: Reading<R>, beta: R, de: R, draw: R, accept: bool)
    requires
        e.exact(),
        crate::energy::metropolis_is(beta, de, draw, accept),
    ensures
        accept == ((e.value)(draw) < (e.euler)(-((e.value)(beta) * (e.value)(de)))),
{
    reveal(Reading::linear);
    let (nb, x, p) = choose|nb: R, x: R, p: R|
        call_ensures(R::negated, (&beta,), nb) && #[trigger] crate::scalar::times_is(nb, de, x)
            && call_ensures(R::exp, (&x,), p) && #[trigger] crate::scalar::less_is(draw, p, accept);
    let b = (e.value)(beta);
    let d = (e.value)(de);
    assert((-b) * d == -(b * d)) by (nonlinear_arith);
}

/// What does not raise the energy is always accepted, for numbers drawn below one.
pub proof fn downhill_is_accepted<R: Scalar>(e: Reading<R>, beta: R, de: R, draw: R, accept: bool)
    requires
        e.exact(),
        crate::energy::metropolis_is(beta, de, draw, accept),
        (e.value)(beta) >= 0 as real,
        (e.value)(de) <= 0 as real,
        (e.value)(draw) < 1 as real,
    ensures
        accept,
{
    metropolis_is_read(e, beta, de, draw, accept);
    reveal(Reading::logarithmic);
    let b = (e.value)(beta);
    let d = (e.value)(de);
    assert(-(b * d) >= 0 as real) by (nonlinear_arith)
        requires
            b >= 0 as real,
            d <= 0 as real,
    ;
    if -(b * d) > 0 as real {
        assert((e.euler)(0 as real) < (e.euler)(-(b * d)));
    }
}

/// What is accepted is accepted as well where the energy rises less, where the number drawn is
/// lower, and, going uphill, where it is hotter.
pub proof fn acceptance_is_antitone<R: Scalar>(
    e: Reading<R>,
    beta: R,
    de: R,
    draw: R,
    accept: bool,
    beta2: R,
    de2: R,
    draw2: R,
    accept2: bool,
)
    requires
        e.exact(),
        crate::energy::metropolis_is(beta, de, draw, accept),
        crate::energy::metropolis_is(beta2, de2, draw2, accept2),
        0 as real <= (e.value)(beta2),
        (e.value)(beta2) <= (e.value)(beta),
        0 as real <= (e.value)(de2),
        (e.value)(de2) <= (e.value)(de),
        (e.value)(draw2) <= (e.value)(draw),
    ensures
        accept ==> accept2,
{
    metropolis_is_read(e, beta, de, draw, accept);
    metropolis_is_read(e, beta2, de2, draw2, accept2);
    reveal(Reading::logarithmic);
    let b = (e.value)(beta);
    let d = (e.value)(de);
    let b2 = (e.value)(beta2);
    let d2 = (e.value)(de2);
    assert(-(b * d) <= -(b2 * d2)) by (nonlinear_arith)
        requires
            0 as real <= b2,
            b2 <= b,
            0 as real <= d2,
            d2 <= d,
    ;
    if -(b * d) < -(b2 * d2) {
        assert((e.euler)(-(b * d)) < (e.euler)(-(b2 * d2)));
    }
}

/// The child of the root that `rule` takes apart, in the tree before the rewrite, and that which it
/// forms, in the tree after it.
pub open spec fn reshaped(t: Tree, rule: Rule) -> Tree {
    match rule {
        Rule::Rule1 | Rule::Rule2 => *t->left,
        _ => *t->right,
    }
}

/// How many products the contraction at the root of `t` forms.
pub open spec fn products_at(t: Tree, sizes: Seq<usize>) -> real {
    ways(crate::eincode::distinct(t->left.dims() + t->right.dims()), sizes)
}

/// How many entries the contraction at the root of `t` reads and writes.
pub open spec fn traffic_at(t: Tree, sizes: Seq<usize>) -> real {
    ways(t->left.dims(), sizes) + ways(t->right.dims(), sizes) + ways(t.dims(), sizes)
}

/// The products at a root go by the labels of its two children.
pub proof fn lemma_products_at(t: Tree)
    requires
        t is Node,
    ensures
        lists_both(
            crate::eincode::distinct(t->left.dims() + t->right.dims()),
            t->left.dims(),
            t->right.dims(),
        ),
        lists_both(
            crate::eincode::distinct(t->left.dims() + t->right.dims()),
            t->right.dims(),
            t->left.dims(),
        ),
{
    let x = t->left.dims();
    let y = t->right.dims();
    crate::eincode::lemma_distinct(x + y);
    assert forall|l: usize| #[trigger]
        crate::eincode::distinct(x + y).contains(l) <==> x.contains(l) || y.contains(l) by {
        crate::plan::lemma_concat_contains(x, y, l);
    }
}

/// What a contraction costs does not depend on which of the two tensors comes first.
proof fn lemma_step<R: Scalar>(
    e: Reading<R>,
    t: Tree,
    swapped: bool,
    table: Seq<R>,
    sizes: Seq<usize>,
    count_rw: bool,
    c: Cost<R>,
)
    requires
        e.exact(),
        measures(table, sizes),
        t is Node,
        t->left.dims().no_duplicates(),
        t->right.dims().no_duplicates(),
        crate::energy::below(t->left.dims(), sizes.len()),
        crate::energy::below(t->right.dims(), sizes.len()),
        crate::energy::below(t.dims(), sizes.len()),
        !swapped ==> crate::energy::cost_is(
            t->left.dims(),
            t->right.dims(),
            t.dims(),
            table,
            count_rw,
            c,
        ),
        swapped ==> crate::energy::cost_is(
            t->right.dims(),
            t->left.dims(),
            t.dims(),
            table,
            count_rw,
            c,
        ),
    ensures
        (e.amount)(c.tc) == products_at(t, sizes),
        (e.amount)(c.sc) == ways(t.dims(), sizes),
        c.rw is Some <==> count_rw,
        c.rw matches Some(rw) ==> (e.amount)(rw) == traffic_at(t, sizes),
{
    let all = crate::eincode::distinct(t->left.dims() + t->right.dims());
    let x = t->left.dims();
    let y = t->right.dims();
    lemma_products_at(t);
    if swapped {
        crate::reading::cost_is_counted(e, y, x, t.dims(), all, table, sizes, count_rw, c);
    } else {
        crate::reading::cost_is_counted(e, x, y, t.dims(), all, table, sizes, count_rw, c);
    }
}

/// Whether `c` is what the contractions at the root of `t` and at its child `w` cost together.
pub open spec fn costs_of_two<R>(
    e: Reading<R>,
    t: Tree,
    w: Tree,
    sizes: Seq<usize>,
    count_rw: bool,
    c: Cost<R>,
) -> bool {
    &&& (e.amount)(c.tc) == products_at(w, sizes) + products_at(t, sizes)
    &&& (e.amount)(c.sc) == upper(ways(w.dims(), sizes), ways(t.dims(), sizes))
    &&& c.rw is Some <==> count_rw
    &&& c.rw matches Some(rw) ==> (e.amount)(rw) == traffic_at(w, sizes) + traffic_at(t, sizes)
}

proof fn lemma_two_steps<R: Scalar>(
    e: Reading<R>,
    t: Tree,
    w: Tree,
    swapped: bool,
    table: Seq<R>,
    sizes: Seq<usize>,
    count_rw: bool,
    c: Cost<R>,
)
    requires
        e.exact(),
        measures(table, sizes),
        t is Node && w is Node,
        if swapped {
            w == *t->right
        } else {
            w == *t->left
        },
        t.neat(),
        t.labels_below(sizes.len()),
        crate::energy::two_step_is(
            w->left.dims(),
            w->right.dims(),
            w.dims(),
            if swapped {
                t->left.dims()
            } else {
                t->right.dims()
            },
            t.dims(),
            table,
            count_rw,
            c,
        ),
    ensures
        costs_of_two(e, t, w, sizes, count_rw, c),
{
    reveal_with_fuel(Tree::neat, 3);
    reveal_with_fuel(Tree::labels_below, 3);
    let x = w->left.dims();
    let y = w->right.dims();
    let z = if swapped {
        t->left.dims()
    } else {
        t->right.dims()
    };
    let (c1, c2) = choose|c1: Cost<R>, c2: Cost<R>|
        crate::energy::cost_is(x, y, w.dims(), table, count_rw, c1) && crate::energy::cost_is(
            w.dims(),
            z,
            t.dims(),
            table,
            count_rw,
            c2,
        ) && #[trigger] crate::energy::both_is(c1, c2, c);
    lemma_step(e, w, false, table, sizes, count_rw, c1);
    lemma_step(e, t, swapped, table, sizes, count_rw, c2);
    reveal(Reading::exponential);
}

/// A rewrite keeps a tree that lists no label twice such a tree, and below the same bound.
proof fn lemma_applied_neat(t: Tree, rule: Rule, n: nat)
    requires
        t.neat(),
        t.labels_below(n),
        t.fits(rule),
    ensures
        t.applied(rule).neat(),
        t.applied(rule).labels_below(n),
{
    reveal_with_fuel(Tree::neat, 3);
    reveal_with_fuel(Tree::labels_below, 3);
    crate::energy::lemma_inner_below(t, rule, n);
    let l = *t->left;
    let r = *t->right;
    let d = t.dims();
    match rule {
        Rule::Rule1 => crate::expr_tree::lemma_needed(
            l->left.dims() + r.dims(),
            l->right.dims(),
            d,
        ),
        Rule::Rule2 => crate::expr_tree::lemma_needed(
            r.dims() + l->right.dims(),
            l->left.dims(),
            d,
        ),
        Rule::Rule3 => crate::expr_tree::lemma_needed(
            l.dims() + r->right.dims(),
            r->left.dims(),
            d,
        ),
        Rule::Rule4 => crate::expr_tree::lemma_needed(
            r->left.dims() + l.dims(),
            r->right.dims(),
            d,
        ),
        Rule::Rule5 => {},
    }
    let u = t.applied(rule);
    assert(u.dims() == t.dims());
}

/// A rewrite of three subtrees takes two contractions apart, and forms the two that stand in the
/// tree which it makes.
pub proof fn rewrite_is_counted<R: Scalar>(
    e: Reading<R>,
    t: Tree,
    rule: Rule,
    table: Seq<R>,
    sizes: Seq<usize>,
    count_rw: bool,
    d: RuleDiff<R>,
)
    requires
        e.exact(),
        measures(table, sizes),
        t.neat(),
        t.labels_below(sizes.len()),
        t.fits(rule),
        rule != Rule::Rule5,
        d.is_of(t, rule, table, count_rw),
    ensures
        costs_of_two(e, t, reshaped(t, rule), sizes, count_rw, d.before),
        costs_of_two(
            e,
            t.applied(rule),
            reshaped(t.applied(rule), rule),
            sizes,
            count_rw,
            d.after,
        ),
        (e.value)(d.dsc) == (e.value)(d.after.sc) - (e.value)(d.before.sc),
{
    let u = t.applied(rule);
    let swapped = rule == Rule::Rule3 || rule == Rule::Rule4;
    lemma_applied_neat(t, rule, sizes.len());
    lemma_two_steps(e, t, reshaped(t, rule), swapped, table, sizes, count_rw, d.before);
    let w = reshaped(u, rule);
    assert(u.dims() == t.dims());
    assert(w.dims() == t.inner_dims(rule));
    lemma_two_steps(e, u, w, swapped, table, sizes, count_rw, d.after);
    reveal(Reading::linear);
}

/// Exchanging the two children of a root changes nothing that is counted.
pub proof fn exchange_costs_nothing<R: Scalar>(
    e: Reading<R>,
    t: Tree,
    table: Seq<R>,
    sizes: Seq<usize>,
    count_rw: bool,
    d: RuleDiff<R>,
)
    requires
        e.exact(),
        measures(table, sizes),
        t.neat(),
        t.labels_below(sizes.len()),
        t is Node,
        d.is_of(t, Rule::Rule5, table, count_rw),
    ensures
        (e.amount)(d.before.tc) == products_at(t, sizes),
        (e.amount)(d.after.tc) == products_at(t, sizes),
        d.before.rw is Some <==> count_rw,
        d.after.rw is Some <==> count_rw,
        count_rw ==> (e.amount)(d.before.rw->0) == traffic_at(t, sizes),
        count_rw ==> (e.amount)(d.after.rw->0) == traffic_at(t, sizes),
        (e.value)(d.dsc) == 0 as real,
{
    reveal_with_fuel(Tree::neat, 2);
    reveal_with_fuel(Tree::labels_below, 2);
    lemma_step(e, t, false, table, sizes, count_rw, d.before);
    lemma_step(e, t, true, table, sizes, count_rw, d.after);
    reveal(Reading::linear);
    reveal(Reading::logarithmic);
}

/// The size that matters where a rewrite of three subtrees is tried is that of the larger one of
/// the two results which it takes apart.
pub proof fn local_size_is_counted<R: Scalar>(
    e: Reading<R>,
    t: Tree,
    rule: Rule,
    table: Seq<R>,
    sizes: Seq<usize>,
    sc: R,
)
    requires
        e.exact(),
        measures(table, sizes),
        t.labels_below(sizes.len()),
        t is Node,
        crate::energy::local_sc_is(t, rule, table, sc),
    ensures
        (e.amount)(sc) == upper(ways(reshaped(t, rule).dims(), sizes), ways(t.dims(), sizes)),
{
    reveal_with_fuel(Tree::labels_below, 2);
    let child = reshaped(t, rule).dims();
    let (a, b) = choose|a: R, b: R|
        crate::scalar::sum_is(crate::energy::entries(t.dims(), table), a) && crate::scalar::sum_is(
            crate::energy::entries(child, table),
            b,
        ) && #[trigger] crate::scalar::max_is(a, b, sc);
    crate::reading::size_is_counted(e, t.dims(), table, sizes, a);
    crate::reading::size_is_counted(e, child, table, sizes, b);
    reveal(Reading::exponential);
}

/// The work of the contractions at the root of `t` and at its child `w`: the products that they
/// form, and, where reads and writes count with a weight, their weighted number on top.
pub open spec fn pair_work<R>(
    e: Reading<R>,
    t: Tree,
    w: Tree,
    weight: Option<R>,
    sizes: Seq<usize>,
) -> real {
    products_at(w, sizes) + products_at(t, sizes) + match weight {
        None => 0 as real,
        Some(r) => (e.amount)(r) * (traffic_at(w, sizes) + traffic_at(t, sizes)),
    }
}

/// The size of the larger one of the results at the root of `t` and at its child `w`, as a binary
/// logarithm.
pub open spec fn pair_size<R>(e: Reading<R>, t: Tree, w: Tree, sizes: Seq<usize>) -> real {
    (e.log)(upper(ways(w.dims(), sizes), ways(t.dims(), sizes)))
}

/// By how much a rewrite of `t` changes the energy: by the change of the logarithm of the work,
/// and, where the larger result before or after it is above the target, by the weighted change of
/// the logarithm of its size on top.
pub open spec fn energy_gap<R>(
    e: Reading<R>,
    t: Tree,
    rule: Rule,
    terms: Terms<R>,
    sizes: Seq<usize>,
) -> real {
    let u = t.applied(rule);
    let before = pair_size(e, t, reshaped(t, rule), sizes);
    let after = pair_size(e, u, reshaped(u, rule), sizes);
    let target = (e.value)(terms.sc_target);
    (e.log)(pair_work(e, u, reshaped(u, rule), terms.log2_rw_weight, sizes)) - (e.log)(
        pair_work(e, t, reshaped(t, rule), terms.log2_rw_weight, sizes),
    ) + if before > target || after > target {
        (e.value)(terms.sc_weight) * (after - before)
    } else {
        0 as real
    }
}

/// A rewrite of three subtrees is made if and only if the number drawn is below the exponential of
/// minus the change of the energy times the inverse temperature, where the energy goes by the
/// products, the entries and the sizes that the trees before and after it come to.
pub proof fn rewrite_is_accepted<R: Scalar>(
    e: Reading<R>,
    t: Tree,
    u: Tree,
    rule: Rule,
    beta: R,
    terms: Terms<R>,
    sizes: Seq<usize>,
    draw: R,
)
    requires
        e.exact(),
        measures(terms.table, sizes),
        t.neat(),
        t.labels_below(sizes.len()),
        t.fits(rule),
        rule != Rule::Rule5,
        crate::sweep::step_is(t, u, rule, beta, terms, draw),
    ensures
        u == if (e.value)(draw) < (e.euler)(
            -((e.value)(beta) * energy_gap(e, t, rule, terms, sizes)),
        ) {
            t.applied(rule)
        } else {
            t
        },
{
    let accept = choose|accept: bool| #[trigger]
        crate::energy::accept_is(t, rule, beta, terms, draw, accept) && u == if accept {
            t.applied(rule)
        } else {
            t
        };
    let rw = terms.log2_rw_weight is Some;
    let (d, sc, de) = choose|d: RuleDiff<R>, sc: R, de: R|
        d.is_of(t, rule, terms.table, terms.log2_rw_weight is Some) && crate::energy::local_sc_is(
            t,
            rule,
            terms.table,
            sc,
        ) && #[trigger] crate::energy::energy_is(
            d,
            sc,
            terms.sc_target,
            terms.sc_weight,
            terms.log2_rw_weight,
            de,
        ) && crate::energy::metropolis_is(beta, de, draw, accept);
    rewrite_is_counted(e, t, rule, terms.table, sizes, rw, d);
    local_size_is_counted(e, t, rule, terms.table, sizes, sc);
    energy_is_weighed(
        e,
        d,
        sc,
        terms.sc_target,
        terms.sc_weight,
        terms.log2_rw_weight,
        de,
    );
    metropolis_is_read(e, beta, de, draw, accept);
    let before = pair_size(e, t, reshaped(t, rule), sizes);
    assert((e.value)(sc) == before && (e.value)(d.before.sc) == before && (e.value)(d.after.sc)
        == pair_size(e, t.applied(rule), reshaped(t.applied(rule), rule), sizes)) by {
        reveal(Reading::logarithmic);
    }
    assert((e.value)(de) == energy_gap(e, t, rule, terms, sizes));
}

/// Exchanging the children of a root is made if and only if the number drawn is below one.
pub proof fn exchange_is_accepted<R: Scalar>(
    e: Reading<R>,
    t: Tree,
    u: Tree,
    beta: R,
    terms: Terms<R>,
    sizes: Seq<usize>,
    draw: R,
)
    requires
        e.exact(),
        measures(terms.table, sizes),
        t.neat(),
        t.labels_below(sizes.len()),
        t is Node,
        crate::sweep::step_is(t, u, Rule::Rule5, beta, terms, draw),
    ensures
        u == if (e.value)(draw) < 1 as real {
            Tree::Node { left: t->right, right: t->left, info: t.info() }
        } else {
            t
        },
{
    let rule = Rule::Rule5;
    let accept = choose|accept: bool| #[trigger]
        crate::energy::accept_is(t, rule, beta, terms, draw, accept) && u == if accept {
            t.applied(rule)
        } else {
            t
        };
    let rw = terms.log2_rw_weight is Some;
    let (d, sc, de) = choose|d: RuleDiff<R>, sc: R, de: R|
        d.is_of(t, rule, terms.table, terms.log2_rw_weight is Some) && crate::energy::local_sc_is(
            t,
            rule,
            terms.table,
            sc,
        ) && #[trigger] crate::energy::energy_is(
            d,
            sc,
            terms.sc_target,
            terms.sc_weight,
            terms.log2_rw_weight,
            de,
        ) && crate::energy::metropolis_is(beta, de, draw, accept);
    exchange_costs_nothing(e, t, terms.table, sizes, rw, d);
    energy_is_weighed(
        e,
        d,
        sc,
        terms.sc_target,
        terms.sc_weight,
        terms.log2_rw_weight,
        de,
    );
    metropolis_is_read(e, beta, de, draw, accept);
    let w = (e.value)(terms.sc_weight);
    let b = (e.value)(beta);
    assert(w * (0 as real) == 0 as real && -(b * (0 as real)) == 0 as real) by (nonlinear_arith);
    assert((e.value)(de) == 0 as real);
    reveal(Reading::logarithmic);
}

/// What a tree costs, split into what its children cost and what its root adds.
pub proof fn lemma_parts<R: Scalar>(
    e: Reading<R>,
    t: Tree,
    table: Seq<R>,
    sizes: Seq<usize>,
    c: TreeCost<R>,
) -> (parts: (TreeCost<R>, TreeCost<R>))
    requires
        e.exact(),
        measures(table, sizes),
        t.neat(),
        t.labels_below(sizes.len()),
        t is Node,
        crate::score::tree_cost_is(t, table, c),
    ensures
        crate::score::tree_cost_is(*t->left, table, parts.0),
        crate::score::tree_cost_is(*t->right, table, parts.1),
        amount_of(e, c.tc) == amount_of(e, parts.0.tc) + amount_of(e, parts.1.tc) + products_at(
            t,
            sizes,
        ),
        amount_of(e, c.rw) == amount_of(e, parts.0.rw) + amount_of(e, parts.1.rw) + traffic_at(
            t,
            sizes,
        ),
{
    let (_, lc, rc) = choose|own: Cost<R>, lc: TreeCost<R>, rc: TreeCost<R>|
        crate::score::tree_cost_is(*t->left, table, lc) && crate::score::tree_cost_is(
            *t->right,
            table,
            rc,
        ) && crate::energy::cost_is(
            t->left.dims(),
            t->right.dims(),
            t->Node_info.dims,
            table,
            true,
            own,
        ) && #[trigger] crate::score::joined_is(own, lc, rc, c);
    let all = crate::eincode::distinct(t->left.dims() + t->right.dims());
    lemma_products_at(t);
    crate::reading::tree_cost_adds_up(e, t, all, table, sizes, c, lc, rc);
    (lc, rc)
}

/// What a rewrite is said to change is what it changes of the cost of the whole tree.
pub proof fn rewrite_changes_tree_cost<R: Scalar>(
    e: Reading<R>,
    t: Tree,
    rule: Rule,
    table: Seq<R>,
    sizes: Seq<usize>,
    d: RuleDiff<R>,
    c: TreeCost<R>,
    after: TreeCost<R>,
)
    requires
        e.exact(),
        measures(table, sizes),
        t.neat(),
        t.labels_below(sizes.len()),
        t.fits(rule),
        rule != Rule::Rule5,
        d.is_of(t, rule, table, true),
        crate::score::tree_cost_is(t, table, c),
        crate::score::tree_cost_is(t.applied(rule), table, after),
    ensures
        amount_of(e, after.tc) - amount_of(e, c.tc) == (e.amount)(d.after.tc) - (e.amount)(
            d.before.tc,
        ),
        amount_of(e, after.rw) - amount_of(e, c.rw) == (e.amount)(d.after.rw->0) - (e.amount)(
            d.before.rw->0,
        ),
{
    reveal_with_fuel(Tree::neat, 3);
    reveal_with_fuel(Tree::labels_below, 3);
    let u = t.applied(rule);
    lemma_applied_neat(t, rule, sizes.len());
    rewrite_is_counted(e, t, rule, table, sizes, true, d);
    let (tl, tr) = lemma_parts(e, t, table, sizes, c);
    let (ul, ur) = lemma_parts(e, u, table, sizes, after);
    match rule {
        Rule::Rule1 => {
            let (a, b) = lemma_parts(e, *t->left, table, sizes, tl);
            let (a2, c2) = lemma_parts(e, *u->left, table, sizes, ul);
            crate::reading::tree_cost_is_one(e, *t->left->left, table, sizes, a, a2);
            crate::reading::tree_cost_is_one(e, *t->left->right, table, sizes, b, ur);
            crate::reading::tree_cost_is_one(e, *t->right, table, sizes, tr, c2);
        },
        Rule::Rule2 => {
            let (a, b) = lemma_parts(e, *t->left, table, sizes, tl);
            let (c2, b2) = lemma_parts(e, *u->left, table, sizes, ul);
            crate::reading::tree_cost_is_one(e, *t->left->left, table, sizes, a, ur);
            crate::reading::tree_cost_is_one(e, *t->left->right, table, sizes, b, b2);
            crate::reading::tree_cost_is_one(e, *t->right, table, sizes, tr, c2);
        },
        Rule::Rule3 => {
            let (b, x) = lemma_parts(e, *t->right, table, sizes, tr);
            let (a2, x2) = lemma_parts(e, *u->right, table, sizes, ur);
            crate::reading::tree_cost_is_one(e, *t->left, table, sizes, tl, a2);
            crate::reading::tree_cost_is_one(e, *t->right->left, table, sizes, b, ul);
            crate::reading::tree_cost_is_one(e, *t->right->right, table, sizes, x, x2);
        },
        Rule::Rule4 => {
            let (b, x) = lemma_parts(e, *t->right, table, sizes, tr);
            let (b2, a2) = lemma_parts(e, *u->right, table, sizes, ur);
            crate::reading::tree_cost_is_one(e, *t->left, table, sizes, tl, a2);
            crate::reading::tree_cost_is_one(e, *t->right->left, table, sizes, b, b2);
            crate::reading::tree_cost_is_one(e, *t->right->right, table, sizes, x, ul);
        },
        Rule::Rule5 => {},
    }
}

/// A try draws an index for one of the rules that apply and then a number, and makes the rewrite of
/// that rule if and only if the number is low enough.
pub proof fn try_is_decided_by_draw<R: Scalar>(
    e: Reading<R>,
    t: Tree,
    u: Tree,
    beta: R,
    terms: Terms<R>,
    sizes: Seq<usize>,
    before: SmallRng,
    after: SmallRng,
) -> (drawn: (usize, SmallRng, R))
    requires
        e.exact(),
        measures(terms.table, sizes),
        t.neat(),
        t.labels_below(sizes.len()),
        crate::sweep::tried(t, u, beta, terms, before, after),
    ensures
        drawn.0 < t.applicable(terms.decomp).len(),
        crate::random::index_drawn(
            t.applicable(terms.decomp).len() as usize,
            before,
            drawn.0,
            drawn.1,
        ),
        crate::scalar::drawn(drawn.1, drawn.2, after),
        ({
            let rule = t.applicable(terms.decomp)[drawn.0 as int];
            if rule == Rule::Rule5 {
                u == if (e.value)(drawn.2) < 1 as real {
                    t.applied(rule)
                } else {
                    t
                }
            } else {
                u == if (e.value)(drawn.2) < (e.euler)(
                    -((e.value)(beta) * energy_gap(e, t, rule, terms, sizes)),
                ) {
                    t.applied(rule)
                } else {
                    t
                }
            }
        }),
{
    let rules = t.applicable(terms.decomp);
    let (k, mid, draw) = choose|k: usize, mid: SmallRng, draw: R|
        k < rules.len() && #[trigger] crate::random::index_drawn(
            rules.len() as usize,
            before,
            k,
            mid,
        ) && #[trigger] crate::scalar::drawn(mid, draw, after) && crate::sweep::step_is(
            t,
            u,
            rules[k as int],
            beta,
            terms,
            draw,
        );
    let rule = rules[k as int];
    assert(rules.contains(rule));
    crate::sweep::lemma_applicable_fits(t, terms.decomp, rule);
    if rule == Rule::Rule5 {
        exchange_is_accepted(e, t, u, beta, terms, sizes, draw);
        assert(t.applied(rule) == Tree::Node {
            left: t->right,
            right: t->left,
            info: t.info(),
        });
    } else {
        rewrite_is_accepted(e, t, u, rule, beta, terms, sizes, draw);
    }
    (k, mid, draw)
}

} // verus!
