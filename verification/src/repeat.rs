//! That the same call gives the same order, where a generator and the numbers do so.
//!
//! What a seed draws and what an operation on numbers returns is left open everywhere else. Here
//! it is supposed that each state of a generator gives one value and leaves one state, and that
//! each operation has one result. Then annealing has one result, too.

use crate::eincode::{Ein, Nested};
use crate::energy::{Cost, RuleDiff, Terms};
use crate::expr_tree::{DecompositionType, Rule, Tree};
use crate::greedy::GreedyMethod;
use crate::pairs::Gauge;
use crate::scalar::Scalar;
use crate::score::{ScoreFunction, TreeCost};
use crate::treesa::{Initializer, Instance, TreeSA, Trial};
use rand::rngs::SmallRng;
use vstd::prelude::*;

verus! {

/// Whether each operation on numbers has one result.
pub open spec fn one_result<R: Scalar>() -> bool {
    &&& forall|x: R, y: R| #[trigger]
        call_ensures(R::zero, (), x) && #[trigger] call_ensures(R::zero, (), y) ==> x == y
    &&& forall|n: nat, x: R, y: R| #[trigger]
        crate::greedy::counted_is(n, x) && #[trigger] crate::greedy::counted_is(n, y) ==> x == y
    &&& forall|n: usize, x: R, y: R| #[trigger]
        call_ensures(R::log2_of, (n,), x) && #[trigger] call_ensures(R::log2_of, (n,), y) ==> x == y
    &&& forall|a: R, x: R, y: R| #[trigger]
        call_ensures(R::log2, (&a,), x) && #[trigger] call_ensures(R::log2, (&a,), y) ==> x == y
    &&& forall|a: R, x: R, y: R| #[trigger]
        call_ensures(R::exp2, (&a,), x) && #[trigger] call_ensures(R::exp2, (&a,), y) ==> x == y
    &&& forall|a: R, x: R, y: R| #[trigger]
        call_ensures(R::exp, (&a,), x) && #[trigger] call_ensures(R::exp, (&a,), y) ==> x == y
    &&& forall|a: R, x: R, y: R| #[trigger]
        call_ensures(R::negated, (&a,), x) && #[trigger] call_ensures(R::negated, (&a,), y) ==> x
            == y
    &&& forall|a: R, b: R, x: R, y: R| #[trigger]
        crate::scalar::plus_is(a, b, x) && #[trigger] crate::scalar::plus_is(a, b, y) ==> x == y
    &&& forall|a: R, b: R, x: R, y: R| #[trigger]
        crate::scalar::minus_is(a, b, x) && #[trigger] crate::scalar::minus_is(a, b, y) ==> x == y
    &&& forall|a: R, b: R, x: R, y: R| #[trigger]
        crate::scalar::times_is(a, b, x) && #[trigger] crate::scalar::times_is(a, b, y) ==> x == y
    &&& forall|a: R, b: R, x: R, y: R| #[trigger]
        call_ensures(R::quotient, (&a, &b), x) && #[trigger] call_ensures(
            R::quotient,
            (&a, &b),
            y,
        ) ==> x == y
    &&& forall|a: R, b: R, x: R, y: R| #[trigger]
        crate::scalar::max_is(a, b, x) && #[trigger] crate::scalar::max_is(a, b, y) ==> x == y
    &&& forall|a: R, b: R, x: R, y: R| #[trigger]
        crate::scalar::lse_is(a, b, x) && #[trigger] crate::scalar::lse_is(a, b, y) ==> x == y
    &&& forall|a: R, b: R, x: bool, y: bool| #[trigger]
        crate::scalar::less_is(a, b, x) && #[trigger] crate::scalar::less_is(a, b, y) ==> x == y
}

/// Whether a seed gives one generator, and a draw from one state of a generator gives one value
/// and leaves one state.
pub open spec fn one_stream<R: Scalar>() -> bool {
    &&& forall|seed: u64, a: SmallRng, b: SmallRng| #[trigger]
        crate::random::started(seed, a) && #[trigger] crate::random::started(seed, b) ==> a == b
    &&& forall|g: SmallRng, x: bool, y: bool, a: SmallRng, b: SmallRng| #[trigger]
        crate::random::coin_drawn(g, x, a) && #[trigger] crate::random::coin_drawn(g, y, b) ==> x
            == y && a == b
    &&& forall|n: usize, g: SmallRng, j: usize, k: usize, a: SmallRng, b: SmallRng| #[trigger]
        crate::random::index_drawn(n, g, j, a) && #[trigger] crate::random::index_drawn(n, g, k, b)
            ==> j == k && a == b
    &&& forall|g: SmallRng, x: R, y: R, a: SmallRng, b: SmallRng| #[trigger]
        crate::scalar::drawn(g, x, a) && #[trigger] crate::scalar::drawn(g, y, b) ==> x == y && a
            == b
}

/// A sum has one value.
proof fn lemma_sum<R: Scalar>(terms: Seq<R>, x: R, y: R)
    requires
        one_result::<R>(),
        crate::scalar::sum_is(terms, x),
        crate::scalar::sum_is(terms, y),
    ensures
        x == y,
    decreases terms.len(),
{
    if terms.len() > 0 {
        let rest = terms.drop_last();
        let a = choose|p: R|
            crate::scalar::sum_is(rest, p) && #[trigger] crate::scalar::plus_is(p, terms.last(), x);
        let b = choose|p: R|
            crate::scalar::sum_is(rest, p) && #[trigger] crate::scalar::plus_is(p, terms.last(), y);
        lemma_sum(rest, a, b);
    }
}

/// The size that matters has one logarithm.
proof fn lemma_local_sc<R: Scalar>(t: Tree, rule: Rule, table: Seq<R>, x: R, y: R)
    requires
        one_result::<R>(),
        crate::energy::local_sc_is(t, rule, table, x),
        crate::energy::local_sc_is(t, rule, table, y),
    ensures
        x == y,
{
    match t {
        Tree::Leaf(info) => lemma_sum(crate::energy::entries(info.dims, table), x, y),
        Tree::Node { info, .. } => {
            let own = crate::energy::entries(info.dims, table);
            let child = crate::energy::entries(
                crate::energy::taken_apart(t, rule).dims(),
                table,
            );
            let (a, b) = choose|a: R, b: R|
                crate::scalar::sum_is(own, a) && crate::scalar::sum_is(child, b)
                    && #[trigger] crate::scalar::max_is(a, b, x);
            let (c, d) = choose|a: R, b: R|
                crate::scalar::sum_is(own, a) && crate::scalar::sum_is(child, b)
                    && #[trigger] crate::scalar::max_is(a, b, y);
            lemma_sum(own, a, c);
            lemma_sum(child, b, d);
        },
    }
}

/// What is read and written has one logarithm.
proof fn lemma_traffic<R: Scalar>(
    x: Seq<usize>,
    y: Seq<usize>,
    table: Seq<R>,
    sc: R,
    v: R,
    w: R,
)
    requires
        one_result::<R>(),
        crate::energy::traffic_is(x, y, table, sc, v),
        crate::energy::traffic_is(x, y, table, sc, w),
    ensures
        v == w,
{
    let ex = crate::energy::entries(x, table);
    let ey = crate::energy::entries(y, table);
    let (a, b, p) = choose|a: R, b: R, p: R|
        crate::scalar::sum_is(ex, a) && crate::scalar::sum_is(ey, b)
            && #[trigger] crate::scalar::lse_is(sc, a, p) && #[trigger] crate::scalar::lse_is(
            p,
            b,
            v,
        );
    let (c, d, q) = choose|a: R, b: R, p: R|
        crate::scalar::sum_is(ex, a) && crate::scalar::sum_is(ey, b)
            && #[trigger] crate::scalar::lse_is(sc, a, p) && #[trigger] crate::scalar::lse_is(
            p,
            b,
            w,
        );
    lemma_sum(ex, a, c);
    lemma_sum(ey, b, d);
    assert(p == q);
}

/// A contraction has one cost.
proof fn lemma_cost<R: Scalar>(
    x: Seq<usize>,
    y: Seq<usize>,
    d: Seq<usize>,
    table: Seq<R>,
    count_rw: bool,
    a: Cost<R>,
    b: Cost<R>,
)
    requires
        one_result::<R>(),
        crate::energy::cost_is(x, y, d, table, count_rw, a),
        crate::energy::cost_is(x, y, d, table, count_rw, b),
    ensures
        a == b,
{
    lemma_sum(crate::energy::entries(x + crate::energy::extra(x, y), table), a.tc, b.tc);
    lemma_sum(crate::energy::entries(d, table), a.sc, b.sc);
    if count_rw {
        lemma_traffic(x, y, table, a.sc, a.rw->0, b.rw->0);
    }
}

/// Two contractions have one cost.
proof fn lemma_two_step<R: Scalar>(
    x: Seq<usize>,
    y: Seq<usize>,
    xy: Seq<usize>,
    z: Seq<usize>,
    d: Seq<usize>,
    table: Seq<R>,
    count_rw: bool,
    a: Cost<R>,
    b: Cost<R>,
)
    requires
        one_result::<R>(),
        crate::energy::two_step_is(x, y, xy, z, d, table, count_rw, a),
        crate::energy::two_step_is(x, y, xy, z, d, table, count_rw, b),
    ensures
        a == b,
{
    let (a1, a2) = choose|c1: Cost<R>, c2: Cost<R>|
        crate::energy::cost_is(x, y, xy, table, count_rw, c1) && crate::energy::cost_is(
            xy,
            z,
            d,
            table,
            count_rw,
            c2,
        ) && #[trigger] crate::energy::both_is(c1, c2, a);
    let (b1, b2) = choose|c1: Cost<R>, c2: Cost<R>|
        crate::energy::cost_is(x, y, xy, table, count_rw, c1) && crate::energy::cost_is(
            xy,
            z,
            d,
            table,
            count_rw,
            c2,
        ) && #[trigger] crate::energy::both_is(c1, c2, b);
    lemma_cost(x, y, xy, table, count_rw, a1, b1);
    lemma_cost(xy, z, d, table, count_rw, a2, b2);
    assert(a.tc == b.tc && a.sc == b.sc && a.rw == b.rw);
}

/// What a rewrite takes apart has one cost.
proof fn lemma_old_cost<R: Scalar>(
    t: Tree,
    rule: Rule,
    table: Seq<R>,
    count_rw: bool,
    a: Cost<R>,
    b: Cost<R>,
)
    requires
        one_result::<R>(),
        crate::energy::old_cost_is(t, rule, table, count_rw, a),
        crate::energy::old_cost_is(t, rule, table, count_rw, b),
    ensures
        a == b,
{
    let (l, r) = (*t->left, *t->right);
    let d = t.dims();
    match rule {
        Rule::Rule1 | Rule::Rule2 => lemma_two_step(
            l->left.dims(),
            l->right.dims(),
            l.dims(),
            r.dims(),
            d,
            table,
            count_rw,
            a,
            b,
        ),
        Rule::Rule3 | Rule::Rule4 => lemma_two_step(
            r->left.dims(),
            r->right.dims(),
            r.dims(),
            l.dims(),
            d,
            table,
            count_rw,
            a,
            b,
        ),
        Rule::Rule5 => lemma_cost(l.dims(), r.dims(), d, table, count_rw, a, b),
    }
}

/// What a rewrite forms has one cost.
proof fn lemma_new_cost<R: Scalar>(
    t: Tree,
    rule: Rule,
    table: Seq<R>,
    count_rw: bool,
    a: Cost<R>,
    b: Cost<R>,
)
    requires
        one_result::<R>(),
        crate::energy::new_cost_is(t, rule, table, count_rw, a),
        crate::energy::new_cost_is(t, rule, table, count_rw, b),
    ensures
        a == b,
{
    let (l, r) = (*t->left, *t->right);
    let d = t.dims();
    let n = t.inner_dims(rule);
    match rule {
        Rule::Rule1 => lemma_two_step(
            l->left.dims(),
            r.dims(),
            n,
            l->right.dims(),
            d,
            table,
            count_rw,
            a,
            b,
        ),
        Rule::Rule2 => lemma_two_step(
            r.dims(),
            l->right.dims(),
            n,
            l->left.dims(),
            d,
            table,
            count_rw,
            a,
            b,
        ),
        Rule::Rule3 => lemma_two_step(
            l.dims(),
            r->right.dims(),
            n,
            r->left.dims(),
            d,
            table,
            count_rw,
            a,
            b,
        ),
        Rule::Rule4 => lemma_two_step(
            r->left.dims(),
            l.dims(),
            n,
            r->right.dims(),
            d,
            table,
            count_rw,
            a,
            b,
        ),
        Rule::Rule5 => lemma_cost(r.dims(), l.dims(), d, table, count_rw, a, b),
    }
}

/// The work changes by one amount.
proof fn lemma_work_change<R: Scalar>(
    d: RuleDiff<R>,
    e: RuleDiff<R>,
    weight: Option<R>,
    x: R,
    y: R,
)
    requires
        one_result::<R>(),
        d.before == e.before,
        d.after == e.after,
        crate::energy::work_change_is(d, weight, x),
        crate::energy::work_change_is(e, weight, y),
    ensures
        x == y,
{
    match (weight, d.before.rw, d.after.rw) {
        (Some(w), Some(rw0), Some(rw1)) => {
            let (a, b) = choose|t0: R, t1: R|
                crate::energy::weighted_is(d.before.tc, rw0, w, t0) && crate::energy::weighted_is(
                    d.after.tc,
                    rw1,
                    w,
                    t1,
                ) && #[trigger] crate::scalar::minus_is(t1, t0, x);
            let (p, q) = choose|t0: R, t1: R|
                crate::energy::weighted_is(d.before.tc, rw0, w, t0) && crate::energy::weighted_is(
                    d.after.tc,
                    rw1,
                    w,
                    t1,
                ) && #[trigger] crate::scalar::minus_is(t1, t0, y);
            lemma_weighted(d.before.tc, rw0, w, a, p);
            lemma_weighted(d.after.tc, rw1, w, b, q);
        },
        _ => {},
    }
}

/// A weighted sum has one logarithm.
proof fn lemma_weighted<R: Scalar>(tc: R, rw: R, weight: R, x: R, y: R)
    requires
        one_result::<R>(),
        crate::energy::weighted_is(tc, rw, weight, x),
        crate::energy::weighted_is(tc, rw, weight, y),
    ensures
        x == y,
{
    let p = choose|p: R| #[trigger]
        crate::scalar::plus_is(weight, rw, p) && crate::scalar::lse_is(tc, p, x);
    let q = choose|p: R| #[trigger]
        crate::scalar::plus_is(weight, rw, p) && crate::scalar::lse_is(tc, p, y);
    assert(p == q);
}

/// A size is above the target or not.
proof fn lemma_over<R: Scalar>(sc: R, dsc: R, sc_target: R, x: bool, y: bool)
    requires
        one_result::<R>(),
        crate::energy::over_is(sc, dsc, sc_target, x),
        crate::energy::over_is(sc, dsc, sc_target, y),
    ensures
        x == y,
{
    let (a, b) = choose|grown: R, top: R| #[trigger]
        crate::scalar::plus_is(sc, dsc, grown) && #[trigger] crate::scalar::max_is(sc, grown, top)
            && crate::scalar::less_is(sc_target, top, x);
    let (c, d) = choose|grown: R, top: R| #[trigger]
        crate::scalar::plus_is(sc, dsc, grown) && #[trigger] crate::scalar::max_is(sc, grown, top)
            && crate::scalar::less_is(sc_target, top, y);
    assert(a == c);
    assert(b == d);
}

/// The energy changes by one amount.
proof fn lemma_energy<R: Scalar>(
    d: RuleDiff<R>,
    e: RuleDiff<R>,
    sc: R,
    terms: Terms<R>,
    x: R,
    y: R,
)
    requires
        one_result::<R>(),
        d.before == e.before,
        d.after == e.after,
        d.dsc == e.dsc,
        crate::energy::energy_is(
            d,
            sc,
            terms.sc_target,
            terms.sc_weight,
            terms.log2_rw_weight,
            x,
        ),
        crate::energy::energy_is(
            e,
            sc,
            terms.sc_target,
            terms.sc_weight,
            terms.log2_rw_weight,
            y,
        ),
    ensures
        x == y,
{
    let weight = terms.log2_rw_weight;
    let (a, over) = choose|dtc: R, over: bool| #[trigger]
        crate::energy::work_change_is(d, weight, dtc) && #[trigger] crate::energy::over_is(
            sc,
            d.dsc,
            terms.sc_target,
            over,
        ) && if over {
            crate::energy::raised_is(terms.sc_weight, d.dsc, dtc, x)
        } else {
            x == dtc
        };
    let (b, above) = choose|dtc: R, over: bool| #[trigger]
        crate::energy::work_change_is(e, weight, dtc) && #[trigger] crate::energy::over_is(
            sc,
            e.dsc,
            terms.sc_target,
            over,
        ) && if over {
            crate::energy::raised_is(terms.sc_weight, e.dsc, dtc, y)
        } else {
            y == dtc
        };
    lemma_work_change(d, e, weight, a, b);
    lemma_over(sc, d.dsc, terms.sc_target, over, above);
    if over {
        let p = choose|w: R| #[trigger]
            crate::scalar::times_is(terms.sc_weight, d.dsc, w) && crate::scalar::plus_is(w, a, x);
        let q = choose|w: R| #[trigger]
            crate::scalar::times_is(terms.sc_weight, d.dsc, w) && crate::scalar::plus_is(w, a, y);
        assert(p == q);
    }
}

/// A try with one number drawn is accepted or not.
proof fn lemma_accept<R: Scalar>(
    t: Tree,
    rule: Rule,
    beta: R,
    terms: Terms<R>,
    draw: R,
    x: bool,
    y: bool,
)
    requires
        one_result::<R>(),
        crate::energy::accept_is(t, rule, beta, terms, draw, x),
        crate::energy::accept_is(t, rule, beta, terms, draw, y),
    ensures
        x == y,
{
    let rw = terms.log2_rw_weight is Some;
    let (d, sc, de) = choose|diff: RuleDiff<R>, sc: R, de: R|
        diff.is_of(t, rule, terms.table, terms.log2_rw_weight is Some)
            && crate::energy::local_sc_is(t, rule, terms.table, sc)
            && #[trigger] crate::energy::energy_is(
            diff,
            sc,
            terms.sc_target,
            terms.sc_weight,
            terms.log2_rw_weight,
            de,
        ) && crate::energy::metropolis_is(beta, de, draw, x);
    let (e, sd, df) = choose|diff: RuleDiff<R>, sc: R, de: R|
        diff.is_of(t, rule, terms.table, terms.log2_rw_weight is Some)
            && crate::energy::local_sc_is(t, rule, terms.table, sc)
            && #[trigger] crate::energy::energy_is(
            diff,
            sc,
            terms.sc_target,
            terms.sc_weight,
            terms.log2_rw_weight,
            de,
        ) && crate::energy::metropolis_is(beta, de, draw, y);
    lemma_old_cost(t, rule, terms.table, rw, d.before, e.before);
    lemma_new_cost(t, rule, terms.table, rw, d.after, e.after);
    lemma_local_sc(t, rule, terms.table, sc, sd);
    lemma_energy(d, e, sc, terms, de, df);
    lemma_metropolis(beta, de, draw, x, y);
}

/// A change of the energy with one number drawn is accepted or not.
proof fn lemma_metropolis<R: Scalar>(beta: R, de: R, draw: R, x: bool, y: bool)
    requires
        one_result::<R>(),
        crate::energy::metropolis_is(beta, de, draw, x),
        crate::energy::metropolis_is(beta, de, draw, y),
    ensures
        x == y,
{
    let (n1, x1, e1) = choose|nb: R, w: R, e: R|
        call_ensures(R::negated, (&beta,), nb) && #[trigger] crate::scalar::times_is(nb, de, w)
            && call_ensures(R::exp, (&w,), e) && #[trigger] crate::scalar::less_is(draw, e, x);
    let (n2, x2, e2) = choose|nb: R, w: R, e: R|
        call_ensures(R::negated, (&beta,), nb) && #[trigger] crate::scalar::times_is(nb, de, w)
            && call_ensures(R::exp, (&w,), e) && #[trigger] crate::scalar::less_is(draw, e, y);
    assert(n1 == n2);
    assert(x1 == x2);
    assert(e1 == e2);
}

/// A try from one state of a generator leaves one tree and one state.
proof fn lemma_tried<R: Scalar>(
    t: Tree,
    u: Tree,
    v: Tree,
    beta: R,
    terms: Terms<R>,
    before: SmallRng,
    a: SmallRng,
    b: SmallRng,
)
    requires
        one_result::<R>(),
        one_stream::<R>(),
        crate::sweep::tried(t, u, beta, terms, before, a),
        crate::sweep::tried(t, v, beta, terms, before, b),
    ensures
        u == v,
        a == b,
{
    let rules = t.applicable(terms.decomp);
    let (j, mid, x) = choose|k: usize, mid: SmallRng, draw: R|
        k < rules.len() && #[trigger] crate::random::index_drawn(
            rules.len() as usize,
            before,
            k,
            mid,
        ) && #[trigger] crate::scalar::drawn(mid, draw, a) && crate::sweep::step_is(
            t,
            u,
            rules[k as int],
            beta,
            terms,
            draw,
        );
    let (k, other, y) = choose|k: usize, mid: SmallRng, draw: R|
        k < rules.len() && #[trigger] crate::random::index_drawn(
            rules.len() as usize,
            before,
            k,
            mid,
        ) && #[trigger] crate::scalar::drawn(mid, draw, b) && crate::sweep::step_is(
            t,
            v,
            rules[k as int],
            beta,
            terms,
            draw,
        );
    assert(j == k && mid == other);
    assert(x == y && a == b);
    let rule = rules[k as int];
    let c = choose|c: bool| #[trigger]
        crate::energy::accept_is(t, rule, beta, terms, x, c) && u == if c {
            t.applied(rule)
        } else {
            t
        };
    let d = choose|c: bool| #[trigger]
        crate::energy::accept_is(t, rule, beta, terms, x, c) && v == if c {
            t.applied(rule)
        } else {
            t
        };
    lemma_accept(t, rule, beta, terms, x, c, d);
}

/// A sweep from one state of a generator leaves one tree and one state.
proof fn lemma_swept<R: Scalar>(
    t: Tree,
    u: Tree,
    v: Tree,
    beta: R,
    terms: Terms<R>,
    before: SmallRng,
    a: SmallRng,
    b: SmallRng,
)
    requires
        one_result::<R>(),
        one_stream::<R>(),
        crate::sweep::swept_by(t, u, beta, terms, before, a),
        crate::sweep::swept_by(t, v, beta, terms, before, b),
    ensures
        u == v,
        a == b,
    decreases u,
{
    if t.applicable(terms.decomp).len() > 0 {
        let (m, a1, a2) = choose|mid: Tree, rng1: SmallRng, rng2: SmallRng| #[trigger]
            crate::sweep::tried(t, mid, beta, terms, before, rng1)
                && #[trigger] crate::random::between(rng2) && mid is Node && u.info() == mid.info()
                && crate::sweep::swept_by(*mid->left, *u->left, beta, terms, rng1, rng2)
                && crate::sweep::swept_by(*mid->right, *u->right, beta, terms, rng2, a);
        let (n, b1, b2) = choose|mid: Tree, rng1: SmallRng, rng2: SmallRng| #[trigger]
            crate::sweep::tried(t, mid, beta, terms, before, rng1)
                && #[trigger] crate::random::between(rng2) && mid is Node && v.info() == mid.info()
                && crate::sweep::swept_by(*mid->left, *v->left, beta, terms, rng1, rng2)
                && crate::sweep::swept_by(*mid->right, *v->right, beta, terms, rng2, b);
        lemma_tried(t, m, n, beta, terms, before, a1, b1);
        lemma_swept(*m->left, *u->left, *v->left, beta, terms, a1, a2, b2);
        lemma_swept(*m->right, *u->right, *v->right, beta, terms, a2, a, b);
        assert(u->Node_info == u.info() && v->Node_info == v.info());
    }
}

/// Sweeps at a temperature from one state of a generator leave one tree and one state.
proof fn lemma_held<R: Scalar>(
    t: Tree,
    u: Tree,
    v: Tree,
    beta: R,
    sweeps: nat,
    terms: Terms<R>,
    before: SmallRng,
    a: SmallRng,
    b: SmallRng,
)
    requires
        one_result::<R>(),
        one_stream::<R>(),
        crate::sweep::held_at(t, u, beta, sweeps, terms, before, a),
        crate::sweep::held_at(t, v, beta, sweeps, terms, before, b),
    ensures
        u == v,
        a == b,
    decreases sweeps,
{
    if sweeps > 0 {
        let less: nat = (sweeps - 1) as nat;
        let (m, c) = choose|mid: Tree, rng: SmallRng|
            crate::sweep::held_at(t, mid, beta, less, terms, before, rng)
                && #[trigger] crate::sweep::swept_by(mid, u, beta, terms, rng, a);
        let (n, d) = choose|mid: Tree, rng: SmallRng|
            crate::sweep::held_at(t, mid, beta, less, terms, before, rng)
                && #[trigger] crate::sweep::swept_by(mid, v, beta, terms, rng, b);
        lemma_held(t, m, n, beta, less, terms, before, c, d);
        lemma_swept(m, u, v, beta, terms, c, a, b);
    }
}

/// A schedule from one state of a generator leaves one tree and one state.
proof fn lemma_scheduled<R: Scalar>(
    t: Tree,
    u: Tree,
    v: Tree,
    betas: Seq<R>,
    niters: nat,
    terms: Terms<R>,
    before: SmallRng,
    a: SmallRng,
    b: SmallRng,
)
    requires
        one_result::<R>(),
        one_stream::<R>(),
        crate::sweep::scheduled(t, u, betas, niters, terms, before, a),
        crate::sweep::scheduled(t, v, betas, niters, terms, before, b),
    ensures
        u == v,
        a == b,
    decreases betas.len(),
{
    if betas.len() > 0 {
        let rest = betas.drop_last();
        let (m, c) = choose|mid: Tree, rng: SmallRng|
            crate::sweep::scheduled(t, mid, rest, niters, terms, before, rng)
                && #[trigger] crate::sweep::held_at(mid, u, betas.last(), niters, terms, rng, a);
        let (n, d) = choose|mid: Tree, rng: SmallRng|
            crate::sweep::scheduled(t, mid, rest, niters, terms, before, rng)
                && #[trigger] crate::sweep::held_at(mid, v, betas.last(), niters, terms, rng, b);
        lemma_scheduled(t, m, n, rest, niters, terms, before, c, d);
        lemma_held(m, u, v, betas.last(), niters, terms, c, a, b);
    }
}

/// An annealing run that starts from one tree and from one state of a generator leaves one tree and
/// one state.
pub proof fn run_is_repeatable<R: Scalar>(
    t: Tree,
    u: Tree,
    v: Tree,
    table: Seq<R>,
    betas: Seq<R>,
    niters: nat,
    score: ScoreFunction<R>,
    decomp: DecompositionType,
    before: SmallRng,
    a: SmallRng,
    b: SmallRng,
)
    requires
        one_result::<R>(),
        one_stream::<R>(),
        crate::sweep::annealing_run(t, u, table, betas, niters, score, decomp, before, a),
        crate::sweep::annealing_run(t, v, table, betas, niters, score, decomp, before, b),
    ensures
        u == v,
        a == b,
{
    let w = choose|w: Option<R>| #[trigger]
        crate::sweep::log2_weight_is(score.rw_weight, w) && crate::sweep::scheduled(
            t,
            u,
            betas,
            niters,
            crate::sweep::terms_of(table, score, w, decomp),
            before,
            a,
        );
    let x = choose|w: Option<R>| #[trigger]
        crate::sweep::log2_weight_is(score.rw_weight, w) && crate::sweep::scheduled(
            t,
            v,
            betas,
            niters,
            crate::sweep::terms_of(table, score, w, decomp),
            before,
            b,
        );
    lemma_log2_weight(score.rw_weight, w, x);
    let terms = crate::sweep::terms_of(table, score, w, decomp);
    lemma_scheduled(t, u, v, betas, niters, terms, before, a, b);
}

/// A weight has one logarithm, or none.
proof fn lemma_log2_weight<R: Scalar>(weight: R, x: Option<R>, y: Option<R>)
    requires
        one_result::<R>(),
        crate::sweep::log2_weight_is(weight, x),
        crate::sweep::log2_weight_is(weight, y),
    ensures
        x == y,
{
    let (z, p) = choose|z: R, counts: bool|
        call_ensures(R::zero, (), z) && #[trigger] crate::scalar::less_is(z, weight, counts)
            && match x {
            None => !counts,
            Some(w) => counts && call_ensures(R::log2, (&weight,), w),
        };
    let (o, q) = choose|z: R, counts: bool|
        call_ensures(R::zero, (), z) && #[trigger] crate::scalar::less_is(z, weight, counts)
            && match y {
            None => !counts,
            Some(w) => counts && call_ensures(R::log2, (&weight,), w),
        };
    assert(z == o);
    assert(p == q);
}

/// Truth values drawn from one state of a generator are the same ones, and leave one state.
proof fn lemma_coins<R: Scalar>(
    x: Seq<bool>,
    y: Seq<bool>,
    before: SmallRng,
    a: SmallRng,
    b: SmallRng,
)
    requires
        one_stream::<R>(),
        x.len() == y.len(),
        crate::init::coins_drawn(x, before, a),
        crate::init::coins_drawn(y, before, b),
    ensures
        x == y,
        a == b,
    decreases x.len(),
{
    if x.len() > 0 {
        let c = choose|rng: SmallRng|
            crate::init::coins_drawn(x.drop_last(), before, rng)
                && #[trigger] crate::random::coin_drawn(rng, x.last(), a);
        let d = choose|rng: SmallRng|
            crate::init::coins_drawn(y.drop_last(), before, rng)
                && #[trigger] crate::random::coin_drawn(rng, y.last(), b);
        lemma_coins::<R>(x.drop_last(), y.drop_last(), before, c, d);
        assert(x.last() == y.last());
        assert(x =~= x.drop_last().push(x.last()));
        assert(y =~= y.drop_last().push(y.last()));
    }
}

/// A mask drawn from one state of a generator is the same one, and leaves one state.
proof fn lemma_mask<R: Scalar>(
    x: Seq<bool>,
    y: Seq<bool>,
    n: nat,
    decomp: DecompositionType,
    before: SmallRng,
    a: SmallRng,
    b: SmallRng,
)
    requires
        one_stream::<R>(),
        crate::init::mask_drawn(x, n, decomp, before, a),
        crate::init::mask_drawn(y, n, decomp, before, b),
    ensures
        x == y,
        a == b,
{
    match decomp {
        DecompositionType::Tree => {
            let (p, c) = choose|coins: Seq<bool>, rng: SmallRng|
                coins.len() == n && #[trigger] crate::init::coins_drawn(coins, before, rng)
                    && if crate::init::mixed(coins) {
                    x == coins && a == rng
                } else {
                    crate::init::mended(coins, x, rng, a)
                };
            let (q, d) = choose|coins: Seq<bool>, rng: SmallRng|
                coins.len() == n && #[trigger] crate::init::coins_drawn(coins, before, rng)
                    && if crate::init::mixed(coins) {
                    y == coins && b == rng
                } else {
                    crate::init::mended(coins, y, rng, b)
                };
            lemma_coins::<R>(p, q, before, c, d);
            if !crate::init::mixed(p) {
                let len: usize = p.len() as usize;
                let j = choose|k: usize|
                    k < p.len() && #[trigger] crate::random::index_drawn(len, c, k, a) && x
                        == p.update(k as int, !p[k as int]);
                let k = choose|k: usize|
                    k < p.len() && #[trigger] crate::random::index_drawn(len, c, k, b) && y
                        == p.update(k as int, !p[k as int]);
                assert(j == k && a == b);
            }
        },
        DecompositionType::Path => {},
    }
}

/// Splitting from one state of a generator gives one tree, and leaves one state.
proof fn lemma_split<R: Scalar>(
    t: Tree,
    u: Tree,
    ixs: Seq<Seq<usize>>,
    ids: Seq<usize>,
    outer: Seq<usize>,
    all: Seq<usize>,
    decomp: DecompositionType,
    before: SmallRng,
    a: SmallRng,
    b: SmallRng,
)
    requires
        one_stream::<R>(),
        crate::init::split_drawn(t, ixs, ids, outer, all, decomp, before, a),
        crate::init::split_drawn(u, ixs, ids, outer, all, decomp, before, b),
    ensures
        t == u,
        a == b,
    decreases t,
{
    if ixs.len() != 1 {
        let (x, a1, a2) = choose|mask: Seq<bool>, rng1: SmallRng, rng2: SmallRng| #[trigger]
            crate::init::mask_drawn(mask, ixs.len(), decomp, before, rng1)
                && #[trigger] crate::random::between(rng2) && crate::init::split_drawn(
                *t->left,
                crate::init::select(ixs, mask, true),
                crate::init::select(ids, mask, true),
                crate::init::bumped(outer, crate::init::select(ixs, mask, false)),
                all,
                decomp,
                rng1,
                rng2,
            ) && crate::init::split_drawn(
                *t->right,
                crate::init::select(ixs, mask, false),
                crate::init::select(ids, mask, false),
                crate::init::bumped(outer, crate::init::select(ixs, mask, true)),
                all,
                decomp,
                rng2,
                a,
            );
        let (y, b1, b2) = choose|mask: Seq<bool>, rng1: SmallRng, rng2: SmallRng| #[trigger]
            crate::init::mask_drawn(mask, ixs.len(), decomp, before, rng1)
                && #[trigger] crate::random::between(rng2) && crate::init::split_drawn(
                *u->left,
                crate::init::select(ixs, mask, true),
                crate::init::select(ids, mask, true),
                crate::init::bumped(outer, crate::init::select(ixs, mask, false)),
                all,
                decomp,
                rng1,
                rng2,
            ) && crate::init::split_drawn(
                *u->right,
                crate::init::select(ixs, mask, false),
                crate::init::select(ids, mask, false),
                crate::init::bumped(outer, crate::init::select(ixs, mask, true)),
                all,
                decomp,
                rng2,
                b,
            );
        lemma_mask::<R>(x, y, ixs.len(), decomp, before, a1, b1);
        lemma_split::<R>(
            *t->left,
            *u->left,
            crate::init::select(ixs, x, true),
            crate::init::select(ids, x, true),
            crate::init::bumped(outer, crate::init::select(ixs, x, false)),
            all,
            decomp,
            a1,
            a2,
            b2,
        );
        lemma_split::<R>(
            *t->right,
            *u->right,
            crate::init::select(ixs, x, false),
            crate::init::select(ids, x, false),
            crate::init::bumped(outer, crate::init::select(ixs, x, true)),
            all,
            decomp,
            a2,
            a,
            b,
        );
        assert(t->Node_info == t.info() && u->Node_info == u.info());
    }
}

/// A sum of up to three amounts has one logarithm.
proof fn lemma_total3<R: Scalar>(a: R, b: Option<R>, c: Option<R>, x: R, y: R)
    requires
        one_result::<R>(),
        crate::score::total3_is(a, b, c, x),
        crate::score::total3_is(a, b, c, y),
    ensures
        x == y,
{
    let p = choose|p: R| #[trigger]
        crate::score::total_is(a, b, p) && crate::score::total_is(p, c, x);
    let q = choose|p: R| #[trigger]
        crate::score::total_is(a, b, p) && crate::score::total_is(p, c, y);
    assert(p == q);
}

/// A tree has one cost.
proof fn lemma_tree_cost<R: Scalar>(t: Tree, table: Seq<R>, x: TreeCost<R>, y: TreeCost<R>)
    requires
        one_result::<R>(),
        crate::score::tree_cost_is(t, table, x),
        crate::score::tree_cost_is(t, table, y),
    ensures
        x == y,
    decreases t,
{
    match t {
        Tree::Leaf(info) => lemma_sum(crate::energy::entries(info.dims, table), x.sc, y.sc),
        Tree::Node { left, right, info } => {
            let (o1, l1, r1) = choose|own: Cost<R>, lc: TreeCost<R>, rc: TreeCost<R>|
                crate::score::tree_cost_is(*left, table, lc) && crate::score::tree_cost_is(
                    *right,
                    table,
                    rc,
                ) && crate::energy::cost_is(left.dims(), right.dims(), info.dims, table, true, own)
                    && #[trigger] crate::score::joined_is(own, lc, rc, x);
            let (o2, l2, r2) = choose|own: Cost<R>, lc: TreeCost<R>, rc: TreeCost<R>|
                crate::score::tree_cost_is(*left, table, lc) && crate::score::tree_cost_is(
                    *right,
                    table,
                    rc,
                ) && crate::energy::cost_is(left.dims(), right.dims(), info.dims, table, true, own)
                    && #[trigger] crate::score::joined_is(own, lc, rc, y);
            lemma_tree_cost(*left, table, l1, l2);
            lemma_tree_cost(*right, table, r1, r2);
            lemma_cost(left.dims(), right.dims(), info.dims, table, true, o1, o2);
            lemma_total3(o1.tc, l1.tc, r1.tc, x.tc->0, y.tc->0);
            lemma_total3(o1.rw->0, l1.rw, r1.rw, x.rw->0, y.rw->0);
            let p = choose|p: R| #[trigger]
                crate::scalar::max_is(o1.sc, l1.sc, p) && crate::scalar::max_is(p, r1.sc, x.sc);
            let q = choose|p: R| #[trigger]
                crate::scalar::max_is(o1.sc, l1.sc, p) && crate::scalar::max_is(p, r1.sc, y.sc);
            assert(p == q);
        },
    }
}

/// A part of a score has one value.
proof fn lemma_part<R: Scalar>(weight: R, a: Option<R>, x: R, y: R)
    requires
        one_result::<R>(),
        crate::score::part_is(weight, a, x),
        crate::score::part_is(weight, a, y),
    ensures
        x == y,
{
    let m = choose|m: R| #[trigger]
        crate::score::amount_is(a, m) && crate::scalar::times_is(weight, m, x);
    let n = choose|m: R| #[trigger]
        crate::score::amount_is(a, m) && crate::scalar::times_is(weight, m, y);
    assert(m == n);
}

/// What a size is above the target has one weighted value.
proof fn lemma_excess<R: Scalar>(weight: R, sc: R, target: R, x: R, y: R)
    requires
        one_result::<R>(),
        crate::score::excess_is(weight, sc, target, x),
        crate::score::excess_is(weight, sc, target, y),
    ensures
        x == y,
{
    let (a, b, d, z, m) = choose|a: R, b: R, d: R, z: R, m: R|
        call_ensures(R::exp2, (&sc,), a) && call_ensures(R::exp2, (&target,), b)
            && #[trigger] crate::scalar::minus_is(a, b, d) && call_ensures(R::zero, (), z)
            && #[trigger] crate::scalar::max_is(z, d, m) && crate::scalar::times_is(weight, m, x);
    let (a2, b2, d2, z2, m2) = choose|a: R, b: R, d: R, z: R, m: R|
        call_ensures(R::exp2, (&sc,), a) && call_ensures(R::exp2, (&target,), b)
            && #[trigger] crate::scalar::minus_is(a, b, d) && call_ensures(R::zero, (), z)
            && #[trigger] crate::scalar::max_is(z, d, m) && crate::scalar::times_is(weight, m, y);
    assert(a == a2 && b == b2 && z == z2);
    assert(d == d2);
    assert(m == m2);
}

/// A tree has one score under two settings that score alike.
proof fn lemma_scores<R: Scalar>(
    net: Instance<R>,
    config: TreeSA<R>,
    other: TreeSA<R>,
    t: Tree,
    x: R,
    y: R,
)
    requires
        one_result::<R>(),
        net.scores(config, t, x),
        net.scores(other, t, y),
        other.score == config.score,
    ensures
        x == y,
{
    let c = choose|c: TreeCost<R>| #[trigger]
        crate::score::tree_cost_is(t, net.table, c) && config.score.scores(c, x);
    let d = choose|c: TreeCost<R>| #[trigger]
        crate::score::tree_cost_is(t, net.table, c) && config.score.scores(c, y);
    lemma_tree_cost(t, net.table, c, d);
    let f = config.score;
    let (a, b, p, s) = choose|a: R, b: R, p: R, s: R|
        crate::score::part_is(f.tc_weight, c.tc, a) && crate::score::part_is(f.rw_weight, c.rw, b)
            && #[trigger] crate::scalar::plus_is(a, b, p) && crate::score::excess_is(
            f.sc_weight,
            c.sc,
            f.sc_target,
            s,
        ) && #[trigger] crate::scalar::plus_is(p, s, x);
    let (a2, b2, p2, s2) = choose|a: R, b: R, p: R, s: R|
        crate::score::part_is(f.tc_weight, c.tc, a) && crate::score::part_is(f.rw_weight, c.rw, b)
            && #[trigger] crate::scalar::plus_is(a, b, p) && crate::score::excess_is(
            f.sc_weight,
            c.sc,
            f.sc_target,
            s,
        ) && #[trigger] crate::scalar::plus_is(p, s, y);
    lemma_part(f.tc_weight, c.tc, a, a2);
    lemma_part(f.rw_weight, c.rw, b, b2);
    lemma_excess(f.sc_weight, c.sc, f.sc_target, s, s2);
    assert(p == p2);
}

/// A trial comes to one tree with one score, which its number and its start decide.
///
/// How many trials there are and how they get a tree where none is given plays no part.
pub proof fn trial_is_repeatable<R: Scalar>(
    net: Instance<R>,
    index: usize,
    given: Option<Tree>,
    config: TreeSA<R>,
    other: TreeSA<R>,
    x: Trial<R>,
    y: Trial<R>,
)
    requires
        one_result::<R>(),
        one_stream::<R>(),
        net.yields(index, given, config, x),
        net.yields(index, given, other, y),
        other == (TreeSA {
            ntrials: other.ntrials,
            initializer: other.initializer,
            ..config
        }),
    ensures
        x.tree@ == y.tree@,
        x.score == y.score,
{
    let (t, a0, a1, a2) = choose|t: Tree, rng0: SmallRng, rng1: SmallRng, rng2: SmallRng| #[trigger]
        crate::random::started(crate::treesa::seed_of(index), rng0) && #[trigger] net.starts(
            given,
            config.decomposition_type,
            t,
            rng0,
            rng1,
        ) && #[trigger] net.anneals(config, t, x.tree@, rng1, rng2);
    let (u, b0, b1, b2) = choose|t: Tree, rng0: SmallRng, rng1: SmallRng, rng2: SmallRng| #[trigger]
        crate::random::started(crate::treesa::seed_of(index), rng0) && #[trigger] net.starts(
            given,
            other.decomposition_type,
            t,
            rng0,
            rng1,
        ) && #[trigger] net.anneals(other, t, y.tree@, rng1, rng2);
    assert(a0 == b0);
    if given is None {
        let outer = crate::init::output_counts(net.iy, net.table.len());
        lemma_split::<R>(
            t,
            u,
            net.ixs,
            crate::init::first_ids(net.ixs.len()),
            outer,
            crate::init::bumped(outer, net.ixs),
            config.decomposition_type,
            a0,
            a1,
            b1,
        );
    }
    run_is_repeatable(
        t,
        x.tree@,
        y.tree@,
        net.table,
        config.betas@,
        config.niters as nat,
        config.score,
        config.decomposition_type,
        a1,
        a2,
        b2,
    );
    lemma_scores(net, config, other, x.tree@, x.score, y.score);
}

/// The first one of the lowest scores stands at one place.
proof fn lemma_first_lowest<R: Scalar>(scores: Seq<R>, j: int, k: int)
    requires
        one_result::<R>(),
        crate::treesa::first_lowest(scores, j),
        crate::treesa::first_lowest(scores, k),
    ensures
        j == k,
    decreases scores.len(),
{
    if scores.len() >= 2 {
        let rest = scores.drop_last();
        let (a, x) = choose|b: int, lower: bool|
            crate::treesa::first_lowest(rest, b) && #[trigger] crate::scalar::less_is(
                scores.last(),
                scores[b],
                lower,
            ) && j == if lower {
                scores.len() - 1
            } else {
                b
            };
        let (b, y) = choose|b: int, lower: bool|
            crate::treesa::first_lowest(rest, b) && #[trigger] crate::scalar::less_is(
                scores.last(),
                scores[b],
                lower,
            ) && k == if lower {
                scores.len() - 1
            } else {
                b
            };
        lemma_first_lowest(rest, a, b);
        assert(x == y);
    }
}

/// The trials that two settings have in common come to the same scores and trees.
proof fn lemma_trials<L, R: Scalar>(
    code: Ein<L>,
    size_dict: Map<L, usize>,
    config: TreeSA<R>,
    other: TreeSA<R>,
    given: Option<Tree>,
    n: Nested<L>,
    m: Nested<L>,
    table: Seq<R>,
    trials: Seq<Trial<R>>,
    k: int,
    other_table: Seq<R>,
    other_trials: Seq<Trial<R>>,
    j: int,
    i: int,
)
    requires
        one_result::<R>(),
        one_stream::<R>(),
        crate::treesa::annealed_by(code, size_dict, config, given, n, table, trials, k),
        crate::treesa::annealed_by(
            code,
            size_dict,
            other,
            given,
            m,
            other_table,
            other_trials,
            j,
        ),
        other == (TreeSA {
            ntrials: other.ntrials,
            initializer: other.initializer,
            ..config
        }),
        0 <= i < trials.len(),
        i < other_trials.len(),
    ensures
        trials[i].tree@ == other_trials[i].tree@,
        trials[i].score == other_trials[i].score,
{
    assert(table =~= other_table) by {
        assert forall|l: int| 0 <= l < table.len() implies table[l] == other_table[l] by {
            let size = code.sizes(size_dict)[l];
            assert(call_ensures(R::log2_of, (size,), table[l]));
            assert(call_ensures(R::log2_of, (size,), other_table[l]));
        }
    }
    let net = Instance { ixs: code.int_ixs(), iy: code.int_iy(), table };
    trial_is_repeatable(
        net,
        i as usize,
        given,
        config,
        other,
        trials[i],
        other_trials[i],
    );
}

/// Annealing for one expression with one setting, from one tree or from random ones, comes to one
/// order.
pub proof fn annealing_is_repeatable<L, R: Scalar>(
    code: Ein<L>,
    size_dict: Map<L, usize>,
    config: TreeSA<R>,
    given: Option<Tree>,
    n: Nested<L>,
    m: Nested<L>,
)
    requires
        one_result::<R>(),
        one_stream::<R>(),
        crate::treesa::annealed_order(code, size_dict, config, given, n),
        crate::treesa::annealed_order(code, size_dict, config, given, m),
    ensures
        n == m,
{
    let (table, trials, k) = choose|table: Seq<R>, trials: Seq<Trial<R>>, k: int| #[trigger]
        crate::treesa::annealed_by(code, size_dict, config, given, n, table, trials, k);
    let (table2, trials2, j) = choose|table: Seq<R>, trials: Seq<Trial<R>>, k: int| #[trigger]
        crate::treesa::annealed_by(code, size_dict, config, given, m, table, trials, k);
    assert forall|i: int| 0 <= i < trials.len() implies (#[trigger] trials[i]).tree@
        == trials2[i].tree@ && trials[i].score == trials2[i].score by {
        lemma_trials(
            code,
            size_dict,
            config,
            config,
            given,
            n,
            m,
            table,
            trials,
            k,
            table2,
            trials2,
            j,
            i,
        );
    }
    let scores = crate::treesa::scores_of(trials);
    assert(scores =~= crate::treesa::scores_of(trials2));
    lemma_first_lowest(scores, k, j);
    assert(trials[k].tree@ == trials2[k].tree@);
}

/// Annealing for one expression with one setting comes to one order.
pub proof fn treesa_is_repeatable<L, R: Scalar>(
    code: Ein<L>,
    size_dict: Map<L, usize>,
    config: TreeSA<R>,
    n: Nested<L>,
    m: Nested<L>,
)
    requires
        one_result::<R>(),
        one_stream::<R>(),
        crate::treesa::treesa_order(code, size_dict, config, n),
        crate::treesa::treesa_order(code, size_dict, config, m),
    ensures
        n == m,
{
    match config.initializer {
        Initializer::Greedy => {
            let t = choose|t: Tree| #[trigger]
                crate::treesa::greedy_start::<L, R>(code, size_dict, t)
                    && crate::treesa::annealed_order(code, size_dict, config, Some(t), n);
            let u = choose|t: Tree| #[trigger]
                crate::treesa::greedy_start::<L, R>(code, size_dict, t)
                    && crate::treesa::annealed_order(code, size_dict, config, Some(t), m);
            lemma_greedy_start::<L, R>(code, size_dict, t, u);
            annealing_is_repeatable(code, size_dict, config, Some(t), n, m);
        },
        Initializer::Random => annealing_is_repeatable(code, size_dict, config, None, n, m),
    }
}

/// Trials start from one greedy order.
proof fn lemma_greedy_start<L, R: Scalar>(
    code: Ein<L>,
    size_dict: Map<L, usize>,
    t: Tree,
    u: Tree,
)
    requires
        crate::treesa::greedy_start::<L, R>(code, size_dict, t),
        crate::treesa::greedy_start::<L, R>(code, size_dict, u),
    ensures
        t == u,
{
    let greedy = crate::treesa::plain_greedy::<R>();
    let n = choose|nested: Nested<L>| #[trigger]
        crate::greedy::greedy_order(code, size_dict, greedy, nested) && crate::convert::converted(
            nested,
            code.numbering(),
        ) == Some(t);
    let m = choose|nested: Nested<L>| #[trigger]
        crate::greedy::greedy_order(code, size_dict, greedy, nested) && crate::convert::converted(
            nested,
            code.numbering(),
        ) == Some(u);
    crate::greedy::greedy_order_is_unique(code, size_dict, greedy, n, m);
}

/// Whether annealing for `code`, from the given tree or from random ones, can come to `nested`, and
/// the tree of that order has the score `score`.
pub open spec fn annealed_score<L, R: Scalar>(
    code: Ein<L>,
    size_dict: Map<L, usize>,
    config: TreeSA<R>,
    given: Option<Tree>,
    nested: Nested<L>,
    score: R,
) -> bool {
    exists|table: Seq<R>, trials: Seq<Trial<R>>, k: int| #[trigger]
        crate::treesa::annealed_by(code, size_dict, config, given, nested, table, trials, k)
            && score == trials[k].score
}

/// Whether annealing for `code` can come to `nested`, and the tree of that order has the score
/// `score`.
pub open spec fn treesa_score<L, R: Scalar>(
    code: Ein<L>,
    size_dict: Map<L, usize>,
    config: TreeSA<R>,
    nested: Nested<L>,
    score: R,
) -> bool {
    match config.initializer {
        Initializer::Greedy => exists|t: Tree| #[trigger]
            crate::treesa::greedy_start::<L, R>(code, size_dict, t) && annealed_score(
                code,
                size_dict,
                config,
                Some(t),
                nested,
                score,
            ),
        Initializer::Random => annealed_score(code, size_dict, config, None, nested, score),
    }
}

/// Every order that annealing can come to has a score.
pub proof fn annealed_order_has_score<L, R: Scalar>(
    code: Ein<L>,
    size_dict: Map<L, usize>,
    config: TreeSA<R>,
    given: Option<Tree>,
    nested: Nested<L>,
) -> (score: R)
    requires
        crate::treesa::annealed_order(code, size_dict, config, given, nested),
    ensures
        annealed_score(code, size_dict, config, given, nested, score),
{
    let (table, trials, k) = choose|table: Seq<R>, trials: Seq<Trial<R>>, k: int| #[trigger]
        crate::treesa::annealed_by(code, size_dict, config, given, nested, table, trials, k);
    trials[k].score
}

/// Every order that annealing can come to has a score, also where the trials start as the setting
/// says.
pub proof fn treesa_order_has_score<L, R: Scalar>(
    code: Ein<L>,
    size_dict: Map<L, usize>,
    config: TreeSA<R>,
    nested: Nested<L>,
) -> (score: R)
    requires
        crate::treesa::treesa_order(code, size_dict, config, nested),
    ensures
        treesa_score(code, size_dict, config, nested, score),
{
    match config.initializer {
        Initializer::Greedy => {
            let t = choose|t: Tree| #[trigger]
                crate::treesa::greedy_start::<L, R>(code, size_dict, t)
                    && crate::treesa::annealed_order(code, size_dict, config, Some(t), nested);
            annealed_order_has_score(code, size_dict, config, Some(t), nested)
        },
        Initializer::Random => annealed_order_has_score(code, size_dict, config, None, nested),
    }
}

/// More trials from one tree, or from random ones, find nothing worse: where numbers are compared
/// by a strict order, the score that fewer trials come to is not below that which more trials come
/// to.
pub proof fn more_trials_are_no_worse<L, R: Scalar>(
    code: Ein<L>,
    size_dict: Map<L, usize>,
    config: TreeSA<R>,
    ntrials: usize,
    given: Option<Tree>,
    n: Nested<L>,
    m: Nested<L>,
    x: R,
    y: R,
)
    requires
        one_result::<R>(),
        one_stream::<R>(),
        crate::treesa::strictly_ordered::<R>(),
        config.ntrials <= ntrials,
        annealed_score(code, size_dict, config, given, n, x),
        annealed_score(code, size_dict, (TreeSA { ntrials, ..config }), given, m, y),
    ensures
        forall|lower: bool| #[trigger] crate::scalar::less_is(x, y, lower) ==> !lower,
{
    let other = TreeSA { ntrials, ..config };
    let (table, trials, k) = choose|table: Seq<R>, trials: Seq<Trial<R>>, k: int| #[trigger]
        crate::treesa::annealed_by(code, size_dict, config, given, n, table, trials, k) && x
            == trials[k].score;
    let (more_table, more, j) = choose|table: Seq<R>, trials: Seq<Trial<R>>, k: int| #[trigger]
        crate::treesa::annealed_by(code, size_dict, other, given, m, table, trials, k) && y
            == trials[k].score;
    let few = crate::treesa::scores_of(trials);
    let many = crate::treesa::scores_of(more);
    assert forall|i: int| 0 <= i < few.len() implies few[i] == many[i] by {
        lemma_trials(
            code,
            size_dict,
            config,
            other,
            given,
            n,
            m,
            table,
            trials,
            k,
            more_table,
            more,
            j,
            i,
        );
    }
    assert(few =~= many.take(few.len() as int));
    crate::treesa::more_scores_are_no_worse(few, k, many, j);
    assert(few[k] == x && many[j] == y);
}

/// More trials find nothing worse, however trials get the tree that they start from.
pub proof fn more_treesa_trials_are_no_worse<L, R: Scalar>(
    code: Ein<L>,
    size_dict: Map<L, usize>,
    config: TreeSA<R>,
    ntrials: usize,
    n: Nested<L>,
    m: Nested<L>,
    x: R,
    y: R,
)
    requires
        one_result::<R>(),
        one_stream::<R>(),
        crate::treesa::strictly_ordered::<R>(),
        config.ntrials <= ntrials,
        treesa_score(code, size_dict, config, n, x),
        treesa_score(code, size_dict, (TreeSA { ntrials, ..config }), m, y),
    ensures
        forall|lower: bool| #[trigger] crate::scalar::less_is(x, y, lower) ==> !lower,
{
    let other = TreeSA { ntrials, ..config };
    match config.initializer {
        Initializer::Greedy => {
            let t = choose|t: Tree| #[trigger]
                crate::treesa::greedy_start::<L, R>(code, size_dict, t) && annealed_score(
                    code,
                    size_dict,
                    config,
                    Some(t),
                    n,
                    x,
                );
            let u = choose|t: Tree| #[trigger]
                crate::treesa::greedy_start::<L, R>(code, size_dict, t) && annealed_score(
                    code,
                    size_dict,
                    other,
                    Some(t),
                    m,
                    y,
                );
            lemma_greedy_start::<L, R>(code, size_dict, t, u);
            more_trials_are_no_worse(code, size_dict, config, ntrials, Some(t), n, m, x, y);
        },
        Initializer::Random => more_trials_are_no_worse(
            code,
            size_dict,
            config,
            ntrials,
            None,
            n,
            m,
            x,
            y,
        ),
    }
}

/// Annealing from one tree comes to one order, whichever way trials would get a tree where none is
/// given.
pub proof fn warm_start_is_repeatable<L, R: Scalar>(
    code: Ein<L>,
    size_dict: Map<L, usize>,
    config: TreeSA<R>,
    initializer: Initializer,
    t: Tree,
    n: Nested<L>,
    m: Nested<L>,
)
    requires
        one_result::<R>(),
        one_stream::<R>(),
        crate::treesa::annealed_order(code, size_dict, config, Some(t), n),
        crate::treesa::annealed_order(
            code,
            size_dict,
            (TreeSA { initializer, ..config }),
            Some(t),
            m,
        ),
    ensures
        n == m,
{
    crate::treesa::given_start_ignores_initializer(code, size_dict, config, initializer, t, m);
    annealing_is_repeatable(code, size_dict, config, Some(t), n, m);
}

/// A run with some temperatures, and from where it ended a run with further ones, leave the tree
/// and the state of the generator that one run with all of them leaves.
pub proof fn split_run_is_repeatable<R: Scalar>(
    t: Tree,
    m: Tree,
    u: Tree,
    v: Tree,
    table: Seq<R>,
    first: Seq<R>,
    second: Seq<R>,
    niters: nat,
    score: ScoreFunction<R>,
    decomp: DecompositionType,
    before: SmallRng,
    mid: SmallRng,
    a: SmallRng,
    b: SmallRng,
)
    requires
        one_result::<R>(),
        one_stream::<R>(),
        crate::sweep::annealing_run(t, m, table, first, niters, score, decomp, before, mid),
        crate::sweep::annealing_run(m, u, table, second, niters, score, decomp, mid, a),
        crate::sweep::annealing_run(
            t,
            v,
            table,
            first + second,
            niters,
            score,
            decomp,
            before,
            b,
        ),
    ensures
        u == v,
        a == b,
{
    assert forall|x: Option<R>, y: Option<R>| #[trigger]
        crate::sweep::log2_weight_is(score.rw_weight, x)
            && #[trigger] crate::sweep::log2_weight_is(score.rw_weight, y) implies x == y by {
        lemma_log2_weight(score.rw_weight, x, y);
    }
    crate::sweep::runs_compose(
        t,
        m,
        u,
        table,
        first,
        second,
        niters,
        score,
        decomp,
        before,
        mid,
        a,
    );
    run_is_repeatable(t, u, v, table, first + second, niters, score, decomp, before, a, b);
}

/// Whether `weight` is not above zero.
pub open spec fn weighs_nothing<R: Scalar>(weight: R) -> bool {
    forall|z: R, above: bool|
        call_ensures(R::zero, (), z) && #[trigger] crate::scalar::less_is(z, weight, above)
            ==> !above
}

/// Where no size is above the target and reads and writes weigh nothing, runs that differ in the
/// weights only leave one tree and one state of the generator.
pub proof fn unused_weights_are_repeatable<R: Scalar>(
    t: Tree,
    u: Tree,
    v: Tree,
    table: Seq<R>,
    betas: Seq<R>,
    niters: nat,
    score: ScoreFunction<R>,
    other: ScoreFunction<R>,
    decomp: DecompositionType,
    before: SmallRng,
    a: SmallRng,
    b: SmallRng,
)
    requires
        one_result::<R>(),
        one_stream::<R>(),
        crate::sweep::annealing_run(t, u, table, betas, niters, score, decomp, before, a),
        crate::sweep::annealing_run(t, v, table, betas, niters, other, decomp, before, b),
        other.sc_target == score.sc_target,
        forall|r: R, over: bool| #[trigger]
            crate::scalar::less_is(score.sc_target, r, over) ==> !over,
        weighs_nothing(score.rw_weight),
        weighs_nothing(other.rw_weight),
    ensures
        u == v,
        a == b,
{
    let w = choose|w: Option<R>| #[trigger]
        crate::sweep::log2_weight_is(other.rw_weight, w) && crate::sweep::scheduled(
            t,
            v,
            betas,
            niters,
            crate::sweep::terms_of(table, other, w, decomp),
            before,
            b,
        );
    assert(w is None);
    crate::sweep::free_space_is_not_weighed(
        t,
        u,
        table,
        betas,
        niters,
        score,
        other,
        decomp,
        before,
        a,
    );
    run_is_repeatable(t, u, v, table, betas, niters, other, decomp, before, a, b);
}

/// A runner-up with one number drawn is taken or not.
proof fn lemma_switch<R: Scalar>(
    high: nat,
    low: nat,
    denominator: nat,
    temperature: R,
    draw: R,
    x: bool,
    y: bool,
)
    requires
        one_result::<R>(),
        crate::greedy::switch_is(high, low, denominator, temperature, draw, x),
        crate::greedy::switch_is(high, low, denominator, temperature, draw, y),
    ensures
        x == y,
{
    let (d1, x1, n1, e1) = choose|d: R, q: R, nq: R, e: R|
        crate::greedy::gap_is(high, low, d) && #[trigger] crate::greedy::scaled_is(
            d,
            temperature,
            denominator,
            q,
        ) && call_ensures(R::negated, (&q,), nq) && #[trigger] call_ensures(R::exp, (&nq,), e)
            && crate::scalar::less_is(draw, e, x);
    let (d2, x2, n2, e2) = choose|d: R, q: R, nq: R, e: R|
        crate::greedy::gap_is(high, low, d) && #[trigger] crate::greedy::scaled_is(
            d,
            temperature,
            denominator,
            q,
        ) && call_ensures(R::negated, (&q,), nq) && #[trigger] call_ensures(R::exp, (&nq,), e)
            && crate::scalar::less_is(draw, e, y);
    lemma_gap(high, low, d1, d2);
    lemma_scaled(d1, temperature, denominator, x1, x2);
    assert(n1 == n2);
    assert(e1 == e2);
}

/// Two counts have one difference.
proof fn lemma_gap<R: Scalar>(high: nat, low: nat, x: R, y: R)
    requires
        one_result::<R>(),
        crate::greedy::gap_is(high, low, x),
        crate::greedy::gap_is(high, low, y),
    ensures
        x == y,
{
    let (a, b) = choose|a: R, b: R|
        crate::greedy::counted_is(high, a) && crate::greedy::counted_is(low, b)
            && #[trigger] crate::scalar::minus_is(a, b, x);
    let (c, d) = choose|a: R, b: R|
        crate::greedy::counted_is(high, a) && crate::greedy::counted_is(low, b)
            && #[trigger] crate::scalar::minus_is(a, b, y);
    assert(a == c && b == d);
}

/// A difference over a temperature has one value.
proof fn lemma_scaled<R: Scalar>(d: R, temperature: R, denominator: nat, x: R, y: R)
    requires
        one_result::<R>(),
        crate::greedy::scaled_is(d, temperature, denominator, x),
        crate::greedy::scaled_is(d, temperature, denominator, y),
    ensures
        x == y,
{
    let (w, m) = choose|w: R, m: R|
        crate::greedy::counted_is(denominator, w) && #[trigger] crate::scalar::times_is(
            temperature,
            w,
            m,
        ) && call_ensures(R::quotient, (&d, &m), x);
    let (v, n) = choose|w: R, m: R|
        crate::greedy::counted_is(denominator, w) && #[trigger] crate::scalar::times_is(
            temperature,
            w,
            m,
        ) && call_ensures(R::quotient, (&d, &m), y);
    assert(w == v);
    assert(m == n);
}

/// One pair has the lowest loss.
proof fn lemma_least(g: Gauge, s: Seq<Tree>, skip: (int, int), p: int, q: int, a: int, b: int)
    requires
        g.least(s, skip, p, q),
        g.least(s, skip, a, b),
    ensures
        p == a,
        q == b,
{
    assert(g.loss(s, p, q) <= g.loss(s, a, b) && g.loss(s, a, b) <= g.loss(s, p, q));
}

/// From one state of a generator one pair is chosen, and one state is left.
proof fn lemma_picks<R: Scalar>(
    g: Gauge,
    s: Seq<Tree>,
    temperature: Option<R>,
    p: int,
    q: int,
    a: int,
    b: int,
    before: SmallRng,
    left: SmallRng,
    other: SmallRng,
)
    requires
        one_result::<R>(),
        one_stream::<R>(),
        crate::greedy::picks(g, s, temperature, p, q, before, left),
        crate::greedy::picks(g, s, temperature, a, b, before, other),
    ensures
        p == a,
        q == b,
        left == other,
{
    let (p1, q1, hot) = choose|p1: int, q1: int, hot: bool| #[trigger]
        g.least(s, (0, 0), p1, q1) && #[trigger] crate::greedy::hot_is(temperature, hot) && if !hot
            || s.len() == 2 {
            p == p1 && q == q1 && left == before
        } else {
            crate::greedy::picks_hot(g, s, temperature->0, p1, q1, p, q, before, left)
        };
    let (a1, b1, warm) = choose|p1: int, q1: int, hot: bool| #[trigger]
        g.least(s, (0, 0), p1, q1) && #[trigger] crate::greedy::hot_is(temperature, hot) && if !hot
            || s.len() == 2 {
            a == p1 && b == q1 && other == before
        } else {
            crate::greedy::picks_hot(g, s, temperature->0, p1, q1, a, b, before, other)
        };
    lemma_least(g, s, (0, 0), p1, q1, a1, b1);
    assert(hot == warm) by {
        if let Some(t) = temperature {
            let z = choose|z: R|
                call_ensures(R::zero, (), z) && #[trigger] crate::scalar::less_is(z, t, hot);
            let o = choose|z: R|
                call_ensures(R::zero, (), z) && #[trigger] crate::scalar::less_is(z, t, warm);
            assert(z == o);
        }
    }
    if hot && s.len() != 2 {
        lemma_picks_hot(g, s, temperature->0, p1, q1, p, q, a, b, before, left, other);
    }
}

/// From one state of a generator the lowest one or the runner-up is chosen, and one state is left.
proof fn lemma_picks_hot<R: Scalar>(
    g: Gauge,
    s: Seq<Tree>,
    temperature: R,
    p1: int,
    q1: int,
    p: int,
    q: int,
    a: int,
    b: int,
    before: SmallRng,
    left: SmallRng,
    other: SmallRng,
)
    requires
        one_result::<R>(),
        one_stream::<R>(),
        crate::greedy::picks_hot(g, s, temperature, p1, q1, p, q, before, left),
        crate::greedy::picks_hot(g, s, temperature, p1, q1, a, b, before, other),
    ensures
        p == a,
        q == b,
        left == other,
{
    let (p2, q2, x, c) = choose|p2: int, q2: int, draw: R, accept: bool| #[trigger]
        g.least(s, (p1, q1), p2, q2) && crate::scalar::drawn(before, draw, left)
            && #[trigger] crate::greedy::switch_is(
            g.cost(s, p2, q2) + g.relief(s, p1, q1),
            g.cost(s, p1, q1) + g.relief(s, p2, q2),
            g.denominator as nat,
            temperature,
            draw,
            accept,
        ) && if accept {
            p == p2 && q == q2
        } else {
            p == p1 && q == q1
        };
    let (a2, b2, y, d) = choose|p2: int, q2: int, draw: R, accept: bool| #[trigger]
        g.least(s, (p1, q1), p2, q2) && crate::scalar::drawn(before, draw, other)
            && #[trigger] crate::greedy::switch_is(
            g.cost(s, p2, q2) + g.relief(s, p1, q1),
            g.cost(s, p1, q1) + g.relief(s, p2, q2),
            g.denominator as nat,
            temperature,
            draw,
            accept,
        ) && if accept {
            a == p2 && b == q2
        } else {
            a == p1 && b == q1
        };
    lemma_least(g, s, (p1, q1), p2, q2, a2, b2);
    assert(x == y && left == other);
    lemma_switch(
        g.cost(s, p2, q2) + g.relief(s, p1, q1),
        g.cost(s, p1, q1) + g.relief(s, p2, q2),
        g.denominator as nat,
        temperature,
        x,
        c,
        d,
    );
}

/// From one state of a generator one tree is built, and one state is left.
proof fn lemma_built<R: Scalar>(
    g: Gauge,
    s: Seq<Tree>,
    temperature: Option<R>,
    u: Tree,
    v: Tree,
    before: SmallRng,
    left: SmallRng,
    other: SmallRng,
)
    requires
        one_result::<R>(),
        one_stream::<R>(),
        crate::greedy::built(g, s, temperature, u, before, left),
        crate::greedy::built(g, s, temperature, v, before, other),
    ensures
        u == v,
        left == other,
    decreases s.len(),
{
    if s.len() >= 2 {
        let (p, q, c) = choose|p: int, q: int, rng: SmallRng|
            0 <= p < q < s.len() && #[trigger] crate::greedy::picks(
                g,
                s,
                temperature,
                p,
                q,
                before,
                rng,
            ) && crate::greedy::built(
                g,
                crate::pairs::merged(s, p, q, g.iy),
                temperature,
                u,
                rng,
                left,
            );
        let (a, b, d) = choose|p: int, q: int, rng: SmallRng|
            0 <= p < q < s.len() && #[trigger] crate::greedy::picks(
                g,
                s,
                temperature,
                p,
                q,
                before,
                rng,
            ) && crate::greedy::built(
                g,
                crate::pairs::merged(s, p, q, g.iy),
                temperature,
                v,
                rng,
                other,
            );
        lemma_picks(g, s, temperature, p, q, a, b, before, c, d);
        crate::pairs::lemma_merged(s, p, q, g.iy);
        lemma_built(g, crate::pairs::merged(s, p, q, g.iy), temperature, u, v, c, left, other);
    }
}

/// From one state of a generator the greedy method comes to one order for one expression, at any
/// temperature, and leaves one state.
pub proof fn greedy_is_repeatable<L, R: Scalar>(
    code: Ein<L>,
    size_dict: Map<L, usize>,
    method: GreedyMethod<R>,
    n: Nested<L>,
    m: Nested<L>,
    before: SmallRng,
    a: SmallRng,
    b: SmallRng,
)
    requires
        one_result::<R>(),
        one_stream::<R>(),
        crate::greedy::greedy_drawn(code, size_dict, method, n, before, a),
        crate::greedy::greedy_drawn(code, size_dict, method, m, before, b),
    ensures
        n == m,
        a == b,
{
    let g = method.gauge(code.int_iy(), code.sizes(size_dict));
    let s = crate::greedy::start(code.int_ixs());
    let t = choose|t: Tree| #[trigger]
        crate::greedy::built(g, s, method.temperature, t, before, a) && n == code.order_of(t);
    let u = choose|t: Tree| #[trigger]
        crate::greedy::built(g, s, method.temperature, t, before, b) && m == code.order_of(t);
    lemma_built(g, s, method.temperature, t, u, before, a, b);
}

/// Whether a sum does not fall where its first part does not, and a product with what is not below
/// zero does not fall where its other factor does not.
pub open spec fn monotone<R: Scalar>() -> bool {
    &&& forall|a: R, b: R, c: R, x: R, y: R| #[trigger]
        crate::scalar::plus_is(a, c, x) && #[trigger] crate::scalar::plus_is(b, c, y)
            && crate::ranking::not_below(b, a) ==> crate::ranking::not_below(y, x)
    &&& forall|w: R, a: R, b: R, x: R, y: R, z: R| #[trigger]
        crate::scalar::times_is(w, a, x) && #[trigger] crate::scalar::times_is(w, b, y)
            && #[trigger] call_ensures(R::zero, (), z) && crate::ranking::not_below(w, z)
            && crate::ranking::not_below(b, a) ==> crate::ranking::not_below(y, x)
}

/// Above the target, of two rewrites that change the work alike the one which changes the size of
/// the largest result by no more has no higher energy, where the size weighs no less than nothing.
pub proof fn shrinking_is_no_worse<R: Scalar>(
    d: RuleDiff<R>,
    f: RuleDiff<R>,
    sc: R,
    terms: Terms<R>,
    zero: R,
    x: R,
    y: R,
)
    requires
        one_result::<R>(),
        monotone::<R>(),
        crate::energy::energy_is(
            d,
            sc,
            terms.sc_target,
            terms.sc_weight,
            terms.log2_rw_weight,
            x,
        ),
        crate::energy::energy_is(
            f,
            sc,
            terms.sc_target,
            terms.sc_weight,
            terms.log2_rw_weight,
            y,
        ),
        d.before == f.before && d.after == f.after,
        crate::ranking::not_below(f.dsc, d.dsc),
        crate::energy::over_is(sc, d.dsc, terms.sc_target, true),
        crate::energy::over_is(sc, f.dsc, terms.sc_target, true),
        call_ensures(R::zero, (), zero),
        crate::ranking::not_below(terms.sc_weight, zero),
    ensures
        crate::ranking::not_below(y, x),
{
    let weight = terms.log2_rw_weight;
    let (a, over) = choose|dtc: R, over: bool| #[trigger]
        crate::energy::work_change_is(d, weight, dtc) && #[trigger] crate::energy::over_is(
            sc,
            d.dsc,
            terms.sc_target,
            over,
        ) && if over {
            crate::energy::raised_is(terms.sc_weight, d.dsc, dtc, x)
        } else {
            x == dtc
        };
    let (b, above) = choose|dtc: R, over: bool| #[trigger]
        crate::energy::work_change_is(f, weight, dtc) && #[trigger] crate::energy::over_is(
            sc,
            f.dsc,
            terms.sc_target,
            over,
        ) && if over {
            crate::energy::raised_is(terms.sc_weight, f.dsc, dtc, y)
        } else {
            y == dtc
        };
    lemma_work_change(d, f, weight, a, b);
    lemma_over(sc, d.dsc, terms.sc_target, over, true);
    lemma_over(sc, f.dsc, terms.sc_target, above, true);
    let p = choose|w: R| #[trigger]
        crate::scalar::times_is(terms.sc_weight, d.dsc, w) && crate::scalar::plus_is(w, a, x);
    let q = choose|w: R| #[trigger]
        crate::scalar::times_is(terms.sc_weight, f.dsc, w) && crate::scalar::plus_is(w, a, y);
    assert(crate::ranking::not_below(q, p));
}

} // verus!
