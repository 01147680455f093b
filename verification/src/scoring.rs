//! What scores, schedules and random choices come to, where numbers are computed exactly.

use crate::eincode::{Ein, Nested};
use crate::expr_tree::Tree;
use crate::pairs::Gauge;
use crate::reading::{amount_of, upper, Reading};
use crate::scalar::Scalar;
use crate::score::{ScoreFunction, TreeCost};
use crate::treesa::{Trial, TreeSA};
use rand::rngs::SmallRng;
use vstd::prelude::*;

verus! {

/// A score is the weighted sum of the products that are formed, of the entries that are read and
/// written, and of what the largest tensor has above the target.
pub proof fn score_is_weighed<R: Scalar>(
    e: Reading<R>,
    f: ScoreFunction<R>,
    c: TreeCost<R>,
    r: R,
)
    requires
        e.exact(),
        f.scores(c, r),
    ensures
        (e.value)(r) == (e.value)(f.tc_weight) * amount_of(e, c.tc) + (e.value)(f.rw_weight)
            * amount_of(e, c.rw) + (e.value)(f.sc_weight) * upper(
            0 as real,
            (e.amount)(c.sc) - (e.amount)(f.sc_target),
        ),
{
    let (a, b, p, s) = choose|a: R, b: R, p: R, s: R|
        crate::score::part_is(f.tc_weight, c.tc, a) && crate::score::part_is(f.rw_weight, c.rw, b)
            && #[trigger] crate::scalar::plus_is(a, b, p) && crate::score::excess_is(
            f.sc_weight,
            c.sc,
            f.sc_target,
            s,
        ) && #[trigger] crate::scalar::plus_is(p, s, r);
    lemma_part(e, f.tc_weight, c.tc, a);
    lemma_part(e, f.rw_weight, c.rw, b);
    reveal(Reading::linear);
    reveal(Reading::exponential);
    let (x, y, d, z, m) = choose|x: R, y: R, d: R, z: R, m: R|
        call_ensures(R::exp2, (&c.sc,), x) && call_ensures(R::exp2, (&f.sc_target,), y)
            && #[trigger] crate::scalar::minus_is(x, y, d) && call_ensures(R::zero, (), z)
            && #[trigger] crate::scalar::max_is(z, d, m) && crate::scalar::times_is(
            f.sc_weight,
            m,
            s,
        );
    assert((e.value)(m) == upper(0 as real, (e.amount)(c.sc) - (e.amount)(f.sc_target)));
}

proof fn lemma_part<R: Scalar>(e: Reading<R>, weight: R, a: Option<R>, r: R)
    requires
        e.exact(),
        crate::score::part_is(weight, a, r),
    ensures
        (e.value)(r) == (e.value)(weight) * amount_of(e, a),
{
    reveal(Reading::linear);
    reveal(Reading::exponential);
    let m = choose|m: R| #[trigger]
        crate::score::amount_is(a, m) && crate::scalar::times_is(weight, m, r);
    assert((e.value)(m) == amount_of(e, a));
}

/// Of two trees, the one that costs no more in any respect, and less in work, has the lower score
/// where work weighs something and nothing weighs less than nothing.
pub proof fn cheaper_tree_scores_lower<R: Scalar>(
    e: Reading<R>,
    f: ScoreFunction<R>,
    c: TreeCost<R>,
    d: TreeCost<R>,
    x: R,
    y: R,
)
    requires
        e.exact(),
        f.scores(c, x),
        f.scores(d, y),
        (e.value)(f.tc_weight) > 0 as real,
        (e.value)(f.rw_weight) >= 0 as real,
        (e.value)(f.sc_weight) >= 0 as real,
        amount_of(e, c.tc) < amount_of(e, d.tc),
        amount_of(e, c.rw) <= amount_of(e, d.rw),
        (e.amount)(c.sc) <= (e.amount)(d.sc),
    ensures
        (e.value)(x) < (e.value)(y),
{
    score_is_weighed(e, f, c, x);
    score_is_weighed(e, f, d, y);
    let target = (e.amount)(f.sc_target);
    lemma_weighs_less((e.value)(f.tc_weight), amount_of(e, c.tc), amount_of(e, d.tc));
    lemma_weighs_less((e.value)(f.rw_weight), amount_of(e, c.rw), amount_of(e, d.rw));
    lemma_weighs_less(
        (e.value)(f.sc_weight),
        upper(0 as real, (e.amount)(c.sc) - target),
        upper(0 as real, (e.amount)(d.sc) - target),
    );
}

proof fn lemma_weighs_less(w: real, a: real, b: real)
    requires
        w >= 0 as real,
        a <= b,
    ensures
        w * a <= w * b,
        w > 0 as real && a < b ==> w * a < w * b,
{
    assert(w * a <= w * b) by (nonlinear_arith)
        requires
            w >= 0 as real,
            a <= b,
    ;
    if w > 0 as real && a < b {
        assert(w * a < w * b) by (nonlinear_arith)
            requires
                w > 0 as real,
                a < b,
        ;
    }
}

/// The score that is chosen is no higher than any other, and lower than each one before it.
pub proof fn first_lowest_is_read<R: Scalar>(e: Reading<R>, scores: Seq<R>, k: int)
    requires
        e.exact(),
        crate::treesa::first_lowest(scores, k),
    ensures
        0 <= k < scores.len(),
        forall|i: int|
            0 <= i < scores.len() ==> (e.value)(scores[k]) <= #[trigger] (e.value)(scores[i]),
        forall|i: int| 0 <= i < k ==> (e.value)(scores[k]) < #[trigger] (e.value)(scores[i]),
    decreases scores.len(),
{
    if scores.len() >= 2 {
        let rest = scores.drop_last();
        let (b, lower) = choose|b: int, lower: bool|
            crate::treesa::first_lowest(rest, b) && #[trigger] crate::scalar::less_is(
                scores.last(),
                scores[b],
                lower,
            ) && k == if lower {
                scores.len() - 1
            } else {
                b
            };
        first_lowest_is_read(e, rest, b);
        reveal(Reading::linear);
        assert(rest[b] == scores[b]);
        assert forall|i: int| 0 <= i < scores.len() implies (e.value)(scores[k])
            <= #[trigger] (e.value)(scores[i]) by {
            if i < rest.len() {
                assert(rest[i] == scores[i]);
                assert((e.value)(rest[b]) <= (e.value)(rest[i]));
            }
        }
        assert forall|i: int| 0 <= i < k implies (e.value)(scores[k]) < #[trigger] (e.value)(
            scores[i],
        ) by {
            assert(rest[i] == scores[i]);
            assert((e.value)(rest[b]) <= (e.value)(rest[i]));
            if !lower {
                assert((e.value)(rest[b]) < (e.value)(rest[i]));
            }
        }
    }
}

/// The order that annealing comes to is that of a trial whose tree has the lowest score of all
/// trials, where a score is the weighted sum of what the tree costs.
pub proof fn best_tree_is_returned<L, R: Scalar>(
    e: Reading<R>,
    code: Ein<L>,
    size_dict: Map<L, usize>,
    config: TreeSA<R>,
    given: Option<Tree>,
    nested: Nested<L>,
    table: Seq<R>,
    trials: Seq<Trial<R>>,
    k: int,
    i: int,
    c: TreeCost<R>,
    d: TreeCost<R>,
)
    requires
        e.exact(),
        crate::treesa::annealed_by(code, size_dict, config, given, nested, table, trials, k),
        0 <= i < trials.len(),
        trials[k].tree@.neat() && trials[i].tree@.neat(),
        trials[k].tree@.labels_below(table.len()) && trials[i].tree@.labels_below(table.len()),
        crate::reading::measures(table, code.sizes(size_dict)),
        crate::score::tree_cost_is(trials[k].tree@, table, c),
        crate::score::tree_cost_is(trials[i].tree@, table, d),
    ensures
        nested == code.order_of(trials[k].tree@),
        (e.value)(config.score.tc_weight) * amount_of(e, c.tc) + (e.value)(config.score.rw_weight)
            * amount_of(e, c.rw) + (e.value)(config.score.sc_weight) * upper(
            0 as real,
            (e.amount)(c.sc) - (e.amount)(config.score.sc_target),
        ) <= (e.value)(config.score.tc_weight) * amount_of(e, d.tc) + (e.value)(
            config.score.rw_weight,
        ) * amount_of(e, d.rw) + (e.value)(config.score.sc_weight) * upper(
            0 as real,
            (e.amount)(d.sc) - (e.amount)(config.score.sc_target),
        ),
{
    let net = crate::treesa::Instance { ixs: code.int_ixs(), iy: code.int_iy(), table };
    let sizes = code.sizes(size_dict);
    let scores = crate::treesa::scores_of(trials);
    first_lowest_is_read(e, scores, k);
    assert((e.value)(scores[k]) <= (e.value)(scores[i]));
    lemma_trial_score(e, net, k as usize, given, config, trials[k], sizes, c);
    lemma_trial_score(e, net, i as usize, given, config, trials[i], sizes, d);
}

proof fn lemma_trial_score<R: Scalar>(
    e: Reading<R>,
    net: crate::treesa::Instance<R>,
    index: usize,
    given: Option<Tree>,
    config: TreeSA<R>,
    trial: Trial<R>,
    sizes: Seq<usize>,
    c: TreeCost<R>,
)
    requires
        e.exact(),
        net.yields(index, given, config, trial),
        trial.tree@.neat(),
        trial.tree@.labels_below(sizes.len()),
        crate::reading::measures(net.table, sizes),
        crate::score::tree_cost_is(trial.tree@, net.table, c),
    ensures
        (e.value)(trial.score) == (e.value)(config.score.tc_weight) * amount_of(e, c.tc)
            + (e.value)(config.score.rw_weight) * amount_of(e, c.rw) + (e.value)(
            config.score.sc_weight,
        ) * upper(0 as real, (e.amount)(c.sc) - (e.amount)(config.score.sc_target)),
{
    let b = choose|b: TreeCost<R>| #[trigger]
        crate::score::tree_cost_is(trial.tree@, net.table, b) && config.score.scores(
            b,
            trial.score,
        );
    score_is_weighed(e, config.score, b, trial.score);
    crate::reading::tree_cost_is_one(e, trial.tree@, net.table, sizes, b, c);
}

/// Inverse temperatures start at `(1 + step * first) / 100` and rise by `step / 100` each.
pub proof fn schedule_is_read<R: Scalar>(
    e: Reading<R>,
    betas: Seq<R>,
    first: u64,
    count: nat,
    step: u64,
    k: int,
)
    requires
        e.exact(),
        crate::treesa::schedule_is(betas, first, count, step),
        first + count <= u64::MAX,
        0 <= k < count,
    ensures
        betas.len() == count,
        (e.value)(betas[k]) * 100 as real == (1 + step * (first + k)) as real,
        k > 0 ==> ((e.value)(betas[k]) - (e.value)(betas[k - 1])) * 100 as real == step as real,
{
    reveal(Reading::linear);
    assert(call_ensures(R::affine, (1u64, step, (first + k) as u64), betas[k]));
    if k > 0 {
        assert(call_ensures(R::affine, (1u64, step, (first + k - 1) as u64), betas[k - 1]));
        assert(step * (first + k) == step * (first + k - 1) + step) by (nonlinear_arith);
    }
}

/// Where no score is given, products and the largest tensor weigh one, reads and writes nothing,
/// and tensors are free up to two to the power of twenty.
pub proof fn default_score_is_read<R: Scalar>(e: Reading<R>, f: ScoreFunction<R>)
    requires
        e.exact(),
        crate::treesa::default_score(f),
    ensures
        (e.value)(f.tc_weight) == 1 as real,
        (e.value)(f.sc_weight) == 1 as real,
        (e.value)(f.rw_weight) == 0 as real,
        (e.value)(f.sc_target) == 20 as real,
{
    reveal(Reading::linear);
}

/// Reads and writes count where their weight is above zero, and then with its logarithm.
pub proof fn log2_weight_is_read<R: Scalar>(e: Reading<R>, weight: R, log2_weight: Option<R>)
    requires
        e.exact(),
        crate::sweep::log2_weight_is(weight, log2_weight),
    ensures
        log2_weight is Some <==> (e.value)(weight) > 0 as real,
        log2_weight matches Some(w) ==> (e.amount)(w) == (e.value)(weight),
{
    reveal(Reading::linear);
    reveal(Reading::exponential);
    let (z, counts) = choose|z: R, counts: bool|
        call_ensures(R::zero, (), z) && #[trigger] crate::scalar::less_is(z, weight, counts)
            && match log2_weight {
            None => !counts,
            Some(w) => counts && call_ensures(R::log2, (&weight,), w),
        };
}

/// Trials start from different seeds: that of a trial is its number and forty-two, unless a machine
/// word is too small for it.
pub proof fn seeds_differ(i: usize, j: usize)
    ensures
        i + 42 <= u64::MAX ==> crate::treesa::seed_of(i) == i + 42,
        i != j ==> crate::treesa::seed_of(i) != crate::treesa::seed_of(j),
        j == i + 1 && crate::treesa::seed_of(i) < u64::MAX ==> crate::treesa::seed_of(j)
            == crate::treesa::seed_of(i) + 1,
{
}

/// A runner-up is taken if and only if the number drawn is below the exponential of minus the
/// difference of the losses over the temperature.
pub proof fn switch_is_read<R: Scalar>(
    e: Reading<R>,
    high: nat,
    low: nat,
    denominator: nat,
    temperature: R,
    draw: R,
    accept: bool,
)
    requires
        e.exact(),
        crate::greedy::switch_is(high, low, denominator, temperature, draw, accept),
        (e.value)(temperature) > 0 as real,
        denominator > 0,
    ensures
        accept == ((e.value)(draw) < (e.euler)(
            -(((high - low) as real) / ((e.value)(temperature) * denominator as real)),
        )),
{
    reveal(Reading::linear);
    let (d, x, nx, p) = choose|d: R, x: R, nx: R, p: R|
        crate::greedy::gap_is(high, low, d) && #[trigger] crate::greedy::scaled_is(
            d,
            temperature,
            denominator,
            x,
        ) && call_ensures(R::negated, (&x,), nx) && #[trigger] call_ensures(R::exp, (&nx,), p)
            && crate::scalar::less_is(draw, p, accept);
    let (a, b) = choose|a: R, b: R|
        crate::greedy::counted_is(high, a) && crate::greedy::counted_is(low, b)
            && #[trigger] crate::scalar::minus_is(a, b, d);
    assert((e.value)(d) == (high - low) as real);
    let (w, m) = choose|w: R, m: R|
        crate::greedy::counted_is(denominator, w) && #[trigger] crate::scalar::times_is(
            temperature,
            w,
            m,
        ) && call_ensures(R::quotient, (&d, &m), x);
    let t = (e.value)(temperature);
    let n = denominator as real;
    let v = (e.value)(m);
    assert(v > 0 as real) by (nonlinear_arith)
        requires
            v == t * n,
            t > 0 as real,
            n > 0 as real,
    ;
    let y = (e.value)(x);
    let g = (e.value)(d);
    assert(y == g / v) by (nonlinear_arith)
        requires
            y * v == g,
            v > 0 as real,
    ;
}

/// At a temperature above zero a number is drawn, and the pair with the lowest loss is contracted
/// unless the number is below the exponential of minus the loss by which the runner-up is higher
/// over the temperature: then the runner-up is.
pub proof fn runner_up_needs_low_draw<R: Scalar>(
    e: Reading<R>,
    g: Gauge,
    s: Seq<Tree>,
    temperature: R,
    p: int,
    q: int,
    before: SmallRng,
    after: SmallRng,
) -> (at: ((int, int), (int, int), R))
    requires
        e.exact(),
        crate::greedy::picks(g, s, Some(temperature), p, q, before, after),
        (e.value)(temperature) > 0 as real,
        g.denominator > 0,
        s.len() > 2,
    ensures
        g.least(s, (0, 0), at.0.0, at.0.1),
        g.least(s, at.0, at.1.0, at.1.1),
        crate::scalar::drawn(before, at.2, after),
        (e.value)(at.2) < (e.euler)(
            -(((g.loss(s, at.1.0, at.1.1) - g.loss(s, at.0.0, at.0.1)) as real) / ((e.value)(
                temperature,
            ) * g.denominator as real)),
        ) ==> (p, q) == at.1,
        !((e.value)(at.2) < (e.euler)(
            -(((g.loss(s, at.1.0, at.1.1) - g.loss(s, at.0.0, at.0.1)) as real) / ((e.value)(
                temperature,
            ) * g.denominator as real)),
        )) ==> (p, q) == at.0,
{
    reveal(Reading::linear);
    let (p1, q1, hot) = choose|p1: int, q1: int, hot: bool| #[trigger]
        g.least(s, (0, 0), p1, q1) && #[trigger] crate::greedy::hot_is(Some(temperature), hot)
            && if !hot || s.len() == 2 {
            p == p1 && q == q1 && after == before
        } else {
            crate::greedy::picks_hot(g, s, temperature, p1, q1, p, q, before, after)
        };
    let z = choose|z: R|
        call_ensures(R::zero, (), z) && #[trigger] crate::scalar::less_is(z, temperature, hot);
    assert(hot);
    let (p2, q2, draw, accept) = choose|p2: int, q2: int, draw: R, accept: bool| #[trigger]
        g.least(s, (p1, q1), p2, q2) && crate::scalar::drawn(before, draw, after)
            && #[trigger] crate::greedy::switch_is(
            g.cost(s, p2, q2) + g.relief(s, p1, q1),
            g.cost(s, p1, q1) + g.relief(s, p2, q2),
            g.denominator as nat,
            temperature,
            draw,
            accept,
        ) && if accept {
            p == p2 && q == q2
        } else {
            p == p1 && q == q1
        };
    switch_is_read(
        e,
        g.cost(s, p2, q2) + g.relief(s, p1, q1),
        g.cost(s, p1, q1) + g.relief(s, p2, q2),
        g.denominator as nat,
        temperature,
        draw,
        accept,
    );
    ((p1, q1), (p2, q2), draw)
}

/// At a temperature of zero or below, and where two tensors are left, the pair with the lowest loss
/// is contracted, and nothing is drawn.
pub proof fn cold_greedy_takes_best<R: Scalar>(
    e: Reading<R>,
    g: Gauge,
    s: Seq<Tree>,
    temperature: R,
    p: int,
    q: int,
    before: SmallRng,
    after: SmallRng,
)
    requires
        e.exact(),
        crate::greedy::picks(g, s, Some(temperature), p, q, before, after),
        (e.value)(temperature) <= 0 as real || s.len() == 2,
    ensures
        g.least(s, (0, 0), p, q),
        after == before,
{
    reveal(Reading::linear);
}

} // verus!
