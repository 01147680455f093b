//! Annealing a contraction tree: single tries, sweeps over all nodes, and whole schedules.

use crate::energy::{RuleDiff, Terms};
use crate::expr_tree::{DecompositionType, ExprTree, Rule, Tree};
use crate::scalar::Scalar;
use crate::score::ScoreFunction;
use rand::rngs::SmallRng;
use vstd::prelude::*;

verus! {

/// Whether a try of `rule` at the root of `t`, at the inverse temperature `beta` and where `draw`
/// was drawn, leaves `u`.
pub open spec fn step_is<R: Scalar>(
    t: Tree,
    u: Tree,
    rule: Rule,
    beta: R,
    terms: Terms<R>,
    draw: R,
) -> bool {
    exists|accept: bool| #[trigger]
        crate::energy::accept_is(t, rule, beta, terms, draw, accept) && u == if accept {
            t.applied(rule)
        } else {
            t
        }
}

/// Whether a try at the root of `t`, with random numbers from the state `before` on, can leave `u`
/// and the state `after`: an index is drawn for one of the rules that apply, then a number that
/// decides.
pub open spec fn tried<R: Scalar>(
    t: Tree,
    u: Tree,
    beta: R,
    terms: Terms<R>,
    before: SmallRng,
    after: SmallRng,
) -> bool {
    let rules = t.applicable(terms.decomp);
    exists|k: usize, mid: SmallRng, draw: R|
        k < rules.len() && #[trigger] crate::random::index_drawn(
            rules.len() as usize,
            before,
            k,
            mid,
        ) && #[trigger] crate::scalar::drawn(mid, draw, after) && step_is(
            t,
            u,
            rules[k as int],
            beta,
            terms,
            draw,
        )
}

/// Whether one sweep at the inverse temperature `beta`, with random numbers from the state `before`
/// on, can turn `t` into `u` and leave the state `after`: a try at the root, then sweeps of the
/// left and of the right child of what it left. At a node where no rule applies a sweep stops, and
/// draws nothing.
pub open spec fn swept_by<R: Scalar>(
    t: Tree,
    u: Tree,
    beta: R,
    terms: Terms<R>,
    before: SmallRng,
    after: SmallRng,
) -> bool
    decreases u,
{
    if t.applicable(terms.decomp).len() == 0 {
        u == t && after == before
    } else {
        &&& u is Node
        &&& exists|mid: Tree, rng1: SmallRng, rng2: SmallRng| #[trigger]
            tried(t, mid, beta, terms, before, rng1) && #[trigger] crate::random::between(rng2)
                && mid is Node && u.info() == mid.info() && swept_by(
                *mid->left,
                *u->left,
                beta,
                terms,
                rng1,
                rng2,
            ) && swept_by(*mid->right, *u->right, beta, terms, rng2, after)
    }
}

/// Whether `sweeps` sweeps at the inverse temperature `beta`, with random numbers from the state
/// `before` on, can turn `t` into `u` and leave the state `after`.
pub open spec fn held_at<R: Scalar>(
    t: Tree,
    u: Tree,
    beta: R,
    sweeps: nat,
    terms: Terms<R>,
    before: SmallRng,
    after: SmallRng,
) -> bool
    decreases sweeps,
{
    if sweeps == 0 {
        u == t && after == before
    } else {
        exists|mid: Tree, rng: SmallRng|
            held_at(t, mid, beta, (sweeps - 1) as nat, terms, before, rng)
                && #[trigger] swept_by(mid, u, beta, terms, rng, after)
    }
}

/// Whether `niters` sweeps at each of the inverse temperatures `betas`, one after the other and
/// with random numbers from the state `before` on, can turn `t` into `u` and leave the state
/// `after`.
pub open spec fn scheduled<R: Scalar>(
    t: Tree,
    u: Tree,
    betas: Seq<R>,
    niters: nat,
    terms: Terms<R>,
    before: SmallRng,
    after: SmallRng,
) -> bool
    decreases betas.len(),
{
    if betas.len() == 0 {
        u == t && after == before
    } else {
        exists|mid: Tree, rng: SmallRng|
            scheduled(t, mid, betas.drop_last(), niters, terms, before, rng)
                && #[trigger] held_at(mid, u, betas.last(), niters, terms, rng, after)
    }
}

/// A rule that is tried at the root of a tree fits there.
pub proof fn lemma_applicable_fits(t: Tree, decomp: DecompositionType, rule: Rule)
    requires
        t.applicable(decomp).contains(rule),
    ensures
        t.fits(rule),
{
}

/// A rewrite at the root brings in no label that was not there.
proof fn lemma_applied_below(t: Tree, rule: Rule, n: nat)
    requires
        t.labels_below(n),
    ensures
        t.applied(rule).labels_below(n),
{
    if t.fits(rule) {
        crate::energy::lemma_inner_below(t, rule, n);
        reveal_with_fuel(Tree::labels_below, 3);
        let u = t.applied(rule);
        match rule {
            Rule::Rule1 | Rule::Rule2 => {
                assert(u->left.dims() == t.inner_dims(rule));
                assert(u->left.labels_below(n));
            },
            Rule::Rule3 | Rule::Rule4 => {
                assert(u->right.dims() == t.inner_dims(rule));
                assert(u->right.labels_below(n));
            },
            Rule::Rule5 => {},
        }
        assert(u.dims() == t.dims());
    }
}

/// What a try leaves is the tree as it was or as one of the rules that apply rewrites it, and
/// brings in no label.
proof fn lemma_tried<R: Scalar>(
    t: Tree,
    u: Tree,
    beta: R,
    terms: Terms<R>,
    before: SmallRng,
    after: SmallRng,
    n: nat,
)
    requires
        tried(t, u, beta, terms, before, after),
        t.labels_below(n),
    ensures
        t.moved(u, terms.decomp),
        u.labels_below(n),
        u is Node,
        u.leaf_count() == t.leaf_count(),
{
    let rules = t.applicable(terms.decomp);
    let (k, mid, draw) = choose|k: usize, mid: SmallRng, draw: R|
        k < rules.len() && #[trigger] crate::random::index_drawn(
            rules.len() as usize,
            before,
            k,
            mid,
        ) && #[trigger] crate::scalar::drawn(mid, draw, after) && step_is(
            t,
            u,
            rules[k as int],
            beta,
            terms,
            draw,
        );
    let rule = rules[k as int];
    assert(rules.contains(rule));
    lemma_applicable_fits(t, terms.decomp, rule);
    lemma_applied_below(t, rule, n);
    crate::anneal::rule_keeps_leaves(t, rule);
}

/// A sweep at a temperature is a sweep, and brings in no label.
pub proof fn lemma_swept_by<R: Scalar>(
    t: Tree,
    u: Tree,
    beta: R,
    terms: Terms<R>,
    before: SmallRng,
    after: SmallRng,
    n: nat,
)
    requires
        swept_by(t, u, beta, terms, before, after),
        t.labels_below(n),
    ensures
        t.swept(u, terms.decomp),
        u.labels_below(n),
    decreases u,
{
    if t.applicable(terms.decomp).len() > 0 {
        let (mid, rng1, rng2) = choose|mid: Tree, rng1: SmallRng, rng2: SmallRng| #[trigger]
            tried(t, mid, beta, terms, before, rng1) && #[trigger] crate::random::between(rng2)
                && mid is Node && u.info() == mid.info() && swept_by(
                *mid->left,
                *u->left,
                beta,
                terms,
                rng1,
                rng2,
            ) && swept_by(*mid->right, *u->right, beta, terms, rng2, after);
        lemma_tried(t, mid, beta, terms, before, rng1, n);
        lemma_swept_by(*mid->left, *u->left, beta, terms, rng1, rng2, n);
        lemma_swept_by(*mid->right, *u->right, beta, terms, rng2, after, n);
        assert(t.moved(mid, terms.decomp));
        assert(u.dims() == mid.dims());
    }
}

/// Sweeps at a temperature go on a run of sweeps, and bring in no label.
proof fn lemma_held_at<R: Scalar>(
    s: Tree,
    t: Tree,
    u: Tree,
    done: nat,
    beta: R,
    sweeps: nat,
    terms: Terms<R>,
    before: SmallRng,
    after: SmallRng,
    n: nat,
)
    requires
        s.annealed(t, done, terms.decomp),
        held_at(t, u, beta, sweeps, terms, before, after),
        t.labels_below(n),
    ensures
        s.annealed(u, done + sweeps, terms.decomp),
        u.labels_below(n),
    decreases sweeps,
{
    if sweeps > 0 {
        let (mid, rng) = choose|mid: Tree, rng: SmallRng|
            held_at(t, mid, beta, (sweeps - 1) as nat, terms, before, rng)
                && #[trigger] swept_by(mid, u, beta, terms, rng, after);
        lemma_held_at(s, t, mid, done, beta, (sweeps - 1) as nat, terms, before, rng, n);
        lemma_swept_by(mid, u, beta, terms, rng, after, n);
        assert((done + sweeps - 1) as nat == done + (sweeps - 1) as nat);
        assert(mid.swept(u, terms.decomp));
    }
}

/// A schedule of `niters` sweeps at each of some temperatures is that many sweeps in all, and
/// brings in no label.
pub proof fn schedule_anneals<R: Scalar>(
    t: Tree,
    u: Tree,
    betas: Seq<R>,
    niters: nat,
    terms: Terms<R>,
    before: SmallRng,
    after: SmallRng,
    n: nat,
)
    requires
        scheduled(t, u, betas, niters, terms, before, after),
        t.labels_below(n),
    ensures
        t.annealed(u, betas.len() * niters, terms.decomp),
        u.labels_below(n),
    decreases betas.len(),
{
    if betas.len() > 0 {
        let (mid, rng) = choose|mid: Tree, rng: SmallRng|
            scheduled(t, mid, betas.drop_last(), niters, terms, before, rng)
                && #[trigger] held_at(mid, u, betas.last(), niters, terms, rng, after);
        schedule_anneals(t, mid, betas.drop_last(), niters, terms, before, rng, n);
        let done: nat = betas.drop_last().len() * niters;
        lemma_held_at(t, mid, u, done, betas.last(), niters, terms, rng, after, n);
        let k: nat = betas.len();
        assert(k * niters == (k - 1) * niters + niters) by (nonlinear_arith)
            requires
                k > 0,
        ;
    }
}

/// Tries `rule` at the root of `tree`, where `draw` was drawn: makes the rewrite if it lowers the
/// energy by enough for that draw, and leaves the tree as it is otherwise.
pub fn try_rule<R: Scalar>(
    tree: &mut ExprTree,
    rule: Rule,
    beta: &R,
    log2_sizes: &Vec<R>,
    sc_target: &R,
    sc_weight: &R,
    log2_rw_weight: &Option<R>,
    decomp: DecompositionType,
    draw: &R,
)
    requires
        old(tree)@.labels_below(log2_sizes.len() as nat),
    ensures
        old(tree)@.fits(rule) ==> step_is(
            old(tree)@,
            final(tree)@,
            rule,
            *beta,
            (Terms {
                table: log2_sizes@,
                sc_target: *sc_target,
                sc_weight: *sc_weight,
                log2_rw_weight: *log2_rw_weight,
                decomp,
            }),
            *draw,
        ),
        !old(tree)@.fits(rule) ==> final(tree)@ == old(tree)@,
{
    let optimize_rw: bool = log2_rw_weight.is_some();
    if let Some(diff) = crate::energy::rule_diff(tree, rule, log2_sizes, optimize_rw) {
        proof {
            crate::energy::lemma_below(tree@, log2_sizes.len() as nat);
            crate::energy::lemma_below(
                crate::energy::taken_apart(tree@, rule),
                log2_sizes.len() as nat,
            );
        }
        let sc: R = crate::energy::local_sc(tree, rule, log2_sizes);
        let de: R = crate::energy::energy_change(&diff, &sc, sc_target, sc_weight, log2_rw_weight);
        let accept: bool = crate::energy::metropolis(beta, &de, draw);
        proof {
            let terms = Terms {
                table: log2_sizes@,
                sc_target: *sc_target,
                sc_weight: *sc_weight,
                log2_rw_weight: *log2_rw_weight,
                decomp,
            };
            assert(crate::energy::energy_is(
                diff,
                sc,
                terms.sc_target,
                terms.sc_weight,
                terms.log2_rw_weight,
                de,
            ));
            assert(diff.is_of(tree@, rule, terms.table, terms.log2_rw_weight is Some));
            assert(crate::energy::accept_is(tree@, rule, *beta, terms, *draw, accept));
        }
        if accept {
            crate::expr_tree::apply_rule_mut(tree, rule, diff.new_labels);
        }
    }
}

/// Sweeps `tree`: tries a random one of the rules that apply at the root, then sweeps the children
/// of what that left. Where no rule applies, the tree stays as it is.
pub fn optimize_subtree_mut<R: Scalar>(
    tree: &mut ExprTree,
    beta: &R,
    log2_sizes: &Vec<R>,
    sc_target: &R,
    sc_weight: &R,
    log2_rw_weight: &Option<R>,
    decomp: DecompositionType,
    rng: &mut SmallRng,
)
    requires
        old(tree)@.labels_below(log2_sizes.len() as nat),
    ensures
        swept_by(
            old(tree)@,
            final(tree)@,
            *beta,
            (Terms {
                table: log2_sizes@,
                sc_target: *sc_target,
                sc_weight: *sc_weight,
                log2_rw_weight: *log2_rw_weight,
                decomp,
            }),
            *old(rng),
            *final(rng),
        ),
        old(tree)@.applicable(decomp).len() == 0 ==> final(tree)@ == old(tree)@ && *final(rng)
            == *old(rng),
    decreases old(tree)@.leaf_count(),
{
    let ghost terms = Terms {
        table: log2_sizes@,
        sc_target: *sc_target,
        sc_weight: *sc_weight,
        log2_rw_weight: *log2_rw_weight,
        decomp,
    };
    let ghost t = tree@;
    let ghost rng0 = *rng;
    let rules: Vec<Rule> = Rule::applicable_rules(tree, decomp);
    if rules.len() == 0 {
        return;
    }
    let k: usize = crate::random::draw_index(rules.len(), rng);
    let rule: Rule = rules[k];
    let ghost rng1 = *rng;
    let draw: R = crate::scalar::draw_unit(rng);
    proof {
        let all = t.applicable(terms.decomp);
        assert(crate::random::index_drawn(all.len() as usize, rng0, k, rng1));
        assert(all[k as int] == rule);
        assert(all.contains(rule));
        lemma_applicable_fits(t, decomp, rule);
    }
    try_rule(
        tree,
        rule,
        beta,
        log2_sizes,
        sc_target,
        sc_weight,
        log2_rw_weight,
        decomp,
        &draw,
    );
    let ghost mid = tree@;
    let ghost rng2 = *rng;
    proof {
        assert(crate::scalar::drawn(rng1, draw, rng2));
        assert(step_is(t, mid, rule, *beta, terms, draw));
        assert(tried(t, mid, *beta, terms, rng0, rng2));
        lemma_tried(t, mid, *beta, terms, rng0, rng2, log2_sizes.len() as nat);
    }
    if let ExprTree::Node { left, right, .. } = tree {
        proof {
            lemma_leaf_count(left@);
            lemma_leaf_count(right@);
        }
        optimize_subtree_mut(
            left,
            beta,
            log2_sizes,
            sc_target,
            sc_weight,
            log2_rw_weight,
            decomp,
            rng,
        );
        assert(crate::random::between(*rng));
        optimize_subtree_mut(
            right,
            beta,
            log2_sizes,
            sc_target,
            sc_weight,
            log2_rw_weight,
            decomp,
            rng,
        );
    }
    assert(tree@.info() == mid.info());
}

/// A tree has a leaf.
proof fn lemma_leaf_count(t: Tree)
    ensures
        t.leaf_count() > 0,
    decreases t,
{
    match t {
        Tree::Leaf(_) => {},
        Tree::Node { left, right, .. } => {
            lemma_leaf_count(*left);
            lemma_leaf_count(*right);
        },
    }
}

/// Whether `log2_weight` is the logarithm of the weight of reads and writes: nothing where the
/// weight is not above zero.
pub open spec fn log2_weight_is<R: Scalar>(weight: R, log2_weight: Option<R>) -> bool {
    exists|z: R, counts: bool|
        call_ensures(R::zero, (), z) && #[trigger] crate::scalar::less_is(z, weight, counts)
            && match log2_weight {
            None => !counts,
            Some(w) => counts && call_ensures(R::log2, (&weight,), w),
        }
}

/// What an annealing run goes by where reads and writes weigh as `log2_rw_weight` says.
pub open spec fn terms_of<R>(
    table: Seq<R>,
    score: ScoreFunction<R>,
    log2_rw_weight: Option<R>,
    decomp: DecompositionType,
) -> Terms<R> {
    Terms {
        table,
        sc_target: score.sc_target,
        sc_weight: score.sc_weight,
        log2_rw_weight,
        decomp,
    }
}

/// Whether a whole annealing run, with random numbers from the state `before` on, can turn `t` into
/// `u` and leave the state `after`.
pub open spec fn annealing_run<R: Scalar>(
    t: Tree,
    u: Tree,
    table: Seq<R>,
    betas: Seq<R>,
    niters: nat,
    score: ScoreFunction<R>,
    decomp: DecompositionType,
    before: SmallRng,
    after: SmallRng,
) -> bool {
    exists|w: Option<R>| #[trigger]
        log2_weight_is(score.rw_weight, w) && scheduled(
            t,
            u,
            betas,
            niters,
            terms_of(table, score, w, decomp),
            before,
            after,
        )
}

/// A whole annealing run rearranges by `niters` sweeps for each temperature, and brings in no
/// label.
pub proof fn run_anneals<R: Scalar>(
    t: Tree,
    u: Tree,
    table: Seq<R>,
    betas: Seq<R>,
    niters: nat,
    score: ScoreFunction<R>,
    decomp: DecompositionType,
    before: SmallRng,
    after: SmallRng,
    n: nat,
)
    requires
        annealing_run(t, u, table, betas, niters, score, decomp, before, after),
        t.labels_below(n),
    ensures
        t.annealed(u, betas.len() * niters, decomp),
        u.labels_below(n),
{
    let w = choose|w: Option<R>| #[trigger]
        log2_weight_is(score.rw_weight, w) && scheduled(
            t,
            u,
            betas,
            niters,
            terms_of(table, score, w, decomp),
            before,
            after,
        );
    schedule_anneals(t, u, betas, niters, terms_of(table, score, w, decomp), before, after, n);
}

/// Without sweeps a schedule changes nothing, and draws nothing.
proof fn lemma_no_sweeps<R: Scalar>(
    t: Tree,
    u: Tree,
    betas: Seq<R>,
    terms: Terms<R>,
    before: SmallRng,
    after: SmallRng,
)
    requires
        scheduled(t, u, betas, 0, terms, before, after),
    ensures
        u == t,
        after == before,
    decreases betas.len(),
{
    if betas.len() > 0 {
        let (mid, rng) = choose|mid: Tree, rng: SmallRng|
            scheduled(t, mid, betas.drop_last(), 0, terms, before, rng) && #[trigger] held_at(
                mid,
                u,
                betas.last(),
                0,
                terms,
                rng,
                after,
            );
        lemma_no_sweeps(t, mid, betas.drop_last(), terms, before, rng);
    }
}

/// Without temperatures or without sweeps a run changes nothing, and draws nothing.
pub proof fn idle_run_changes_nothing<R: Scalar>(
    t: Tree,
    u: Tree,
    table: Seq<R>,
    betas: Seq<R>,
    niters: nat,
    score: ScoreFunction<R>,
    decomp: DecompositionType,
    before: SmallRng,
    after: SmallRng,
)
    requires
        annealing_run(t, u, table, betas, niters, score, decomp, before, after),
        betas.len() == 0 || niters == 0,
    ensures
        u == t,
        after == before,
{
    let w = choose|w: Option<R>| #[trigger]
        log2_weight_is(score.rw_weight, w) && scheduled(
            t,
            u,
            betas,
            niters,
            terms_of(table, score, w, decomp),
            before,
            after,
        );
    if niters == 0 {
        lemma_no_sweeps(t, u, betas, terms_of(table, score, w, decomp), before, after);
    }
}

/// Two schedules one after the other, the second with the generator as the first left it, are one
/// schedule.
pub proof fn schedules_compose<R: Scalar>(
    t: Tree,
    m: Tree,
    u: Tree,
    first: Seq<R>,
    second: Seq<R>,
    niters: nat,
    terms: Terms<R>,
    before: SmallRng,
    mid: SmallRng,
    after: SmallRng,
)
    requires
        scheduled(t, m, first, niters, terms, before, mid),
        scheduled(m, u, second, niters, terms, mid, after),
    ensures
        scheduled(t, u, first + second, niters, terms, before, after),
    decreases second.len(),
{
    if second.len() == 0 {
        assert(first + second =~= first);
    } else {
        let (last, rng) = choose|last: Tree, rng: SmallRng|
            scheduled(m, last, second.drop_last(), niters, terms, mid, rng)
                && #[trigger] held_at(last, u, second.last(), niters, terms, rng, after);
        schedules_compose(
            t,
            m,
            last,
            first,
            second.drop_last(),
            niters,
            terms,
            before,
            mid,
            rng,
        );
        assert((first + second).drop_last() =~= first + second.drop_last());
        assert((first + second).last() == second.last());
        assert(held_at(last, u, (first + second).last(), niters, terms, rng, after));
    }
}

/// Two runs one after the other, the second with the generator as the first left it, are one run
/// with the temperatures of both, where the weight of reads and writes has one logarithm.
pub proof fn runs_compose<R: Scalar>(
    t: Tree,
    m: Tree,
    u: Tree,
    table: Seq<R>,
    first: Seq<R>,
    second: Seq<R>,
    niters: nat,
    score: ScoreFunction<R>,
    decomp: DecompositionType,
    before: SmallRng,
    mid: SmallRng,
    after: SmallRng,
)
    requires
        annealing_run(t, m, table, first, niters, score, decomp, before, mid),
        annealing_run(m, u, table, second, niters, score, decomp, mid, after),
        forall|v: Option<R>, w: Option<R>| #[trigger]
            log2_weight_is(score.rw_weight, v) && #[trigger] log2_weight_is(score.rw_weight, w)
                ==> v == w,
    ensures
        annealing_run(t, u, table, first + second, niters, score, decomp, before, after),
{
    let v = choose|w: Option<R>| #[trigger]
        log2_weight_is(score.rw_weight, w) && scheduled(
            t,
            m,
            first,
            niters,
            terms_of(table, score, w, decomp),
            before,
            mid,
        );
    let w = choose|w: Option<R>| #[trigger]
        log2_weight_is(score.rw_weight, w) && scheduled(
            m,
            u,
            second,
            niters,
            terms_of(table, score, w, decomp),
            mid,
            after,
        );
    assert(v == w);
    schedules_compose(
        t,
        m,
        u,
        first,
        second,
        niters,
        terms_of(table, score, w, decomp),
        before,
        mid,
        after,
    );
}

/// The weight of the products that are formed plays no part in annealing.
pub proof fn tc_weight_plays_no_part<R: Scalar>(
    t: Tree,
    u: Tree,
    table: Seq<R>,
    betas: Seq<R>,
    niters: nat,
    score: ScoreFunction<R>,
    tc_weight: R,
    decomp: DecompositionType,
    before: SmallRng,
    after: SmallRng,
)
    ensures
        annealing_run(t, u, table, betas, niters, score, decomp, before, after)
            <==> annealing_run(
            t,
            u,
            table,
            betas,
            niters,
            (ScoreFunction { tc_weight, ..score }),
            decomp,
            before,
            after,
        ),
{
    let other = ScoreFunction { tc_weight, ..score };
    assert forall|w: Option<R>| terms_of(table, score, w, decomp) == #[trigger] terms_of(
        table,
        other,
        w,
        decomp,
    ) by {}
    if annealing_run(t, u, table, betas, niters, score, decomp, before, after) {
        let w = choose|w: Option<R>| #[trigger]
            log2_weight_is(score.rw_weight, w) && scheduled(
                t,
                u,
                betas,
                niters,
                terms_of(table, score, w, decomp),
                before,
                after,
            );
        assert(log2_weight_is(other.rw_weight, w));
    }
    if annealing_run(t, u, table, betas, niters, other, decomp, before, after) {
        let w = choose|w: Option<R>| #[trigger]
            log2_weight_is(other.rw_weight, w) && scheduled(
                t,
                u,
                betas,
                niters,
                terms_of(table, other, w, decomp),
                before,
                after,
            );
        assert(log2_weight_is(score.rw_weight, w));
    }
}

/// Whether what is accepted under `a` is accepted under `b`, and the same rewrites are tried.
spec fn as_good<R: Scalar>(a: Terms<R>, b: Terms<R>) -> bool {
    &&& a.decomp == b.decomp
    &&& forall|t: Tree, rule: Rule, beta: R, draw: R, accept: bool| #[trigger]
        crate::energy::accept_is(t, rule, beta, a, draw, accept) ==> crate::energy::accept_is(
            t,
            rule,
            beta,
            b,
            draw,
            accept,
        )
}

/// A sweep goes by what is accepted.
proof fn lemma_swept_alike<R: Scalar>(
    t: Tree,
    u: Tree,
    beta: R,
    a: Terms<R>,
    b: Terms<R>,
    before: SmallRng,
    after: SmallRng,
)
    requires
        as_good(a, b),
        swept_by(t, u, beta, a, before, after),
    ensures
        swept_by(t, u, beta, b, before, after),
    decreases u,
{
    let rules = t.applicable(a.decomp);
    if rules.len() > 0 {
        let (mid, rng1, rng2) = choose|mid: Tree, rng1: SmallRng, rng2: SmallRng| #[trigger]
            tried(t, mid, beta, a, before, rng1) && #[trigger] crate::random::between(rng2)
                && mid is Node && u.info() == mid.info() && swept_by(
                *mid->left,
                *u->left,
                beta,
                a,
                rng1,
                rng2,
            ) && swept_by(*mid->right, *u->right, beta, a, rng2, after);
        let (k, rng, draw) = choose|k: usize, rng: SmallRng, draw: R|
            k < rules.len() && #[trigger] crate::random::index_drawn(
                rules.len() as usize,
                before,
                k,
                rng,
            ) && #[trigger] crate::scalar::drawn(rng, draw, rng1) && step_is(
                t,
                mid,
                rules[k as int],
                beta,
                a,
                draw,
            );
        assert(step_is(t, mid, rules[k as int], beta, b, draw));
        assert(tried(t, mid, beta, b, before, rng1));
        lemma_swept_alike(*mid->left, *u->left, beta, a, b, rng1, rng2);
        lemma_swept_alike(*mid->right, *u->right, beta, a, b, rng2, after);
        assert(crate::random::between(rng2));
    }
}

/// Sweeps go by what is accepted.
proof fn lemma_held_alike<R: Scalar>(
    t: Tree,
    u: Tree,
    beta: R,
    sweeps: nat,
    a: Terms<R>,
    b: Terms<R>,
    before: SmallRng,
    after: SmallRng,
)
    requires
        as_good(a, b),
        held_at(t, u, beta, sweeps, a, before, after),
    ensures
        held_at(t, u, beta, sweeps, b, before, after),
    decreases sweeps,
{
    if sweeps > 0 {
        let (mid, rng) = choose|mid: Tree, rng: SmallRng|
            held_at(t, mid, beta, (sweeps - 1) as nat, a, before, rng) && #[trigger] swept_by(
                mid,
                u,
                beta,
                a,
                rng,
                after,
            );
        lemma_held_alike(t, mid, beta, (sweeps - 1) as nat, a, b, before, rng);
        lemma_swept_alike(mid, u, beta, a, b, rng, after);
    }
}

/// A schedule goes by what is accepted.
proof fn lemma_scheduled_alike<R: Scalar>(
    t: Tree,
    u: Tree,
    betas: Seq<R>,
    niters: nat,
    a: Terms<R>,
    b: Terms<R>,
    before: SmallRng,
    after: SmallRng,
)
    requires
        as_good(a, b),
        scheduled(t, u, betas, niters, a, before, after),
    ensures
        scheduled(t, u, betas, niters, b, before, after),
    decreases betas.len(),
{
    if betas.len() > 0 {
        let (mid, rng) = choose|mid: Tree, rng: SmallRng|
            scheduled(t, mid, betas.drop_last(), niters, a, before, rng) && #[trigger] held_at(
                mid,
                u,
                betas.last(),
                niters,
                a,
                rng,
                after,
            );
        lemma_scheduled_alike(t, mid, betas.drop_last(), niters, a, b, before, rng);
        lemma_held_alike(mid, u, betas.last(), niters, a, b, rng, after);
    }
}

/// Below the target the size of tensors costs nothing: where no number is above the target and
/// reads and writes do not count, annealing goes by neither the weight of the size nor that of the
/// products.
pub proof fn free_space_is_not_weighed<R: Scalar>(
    t: Tree,
    u: Tree,
    table: Seq<R>,
    betas: Seq<R>,
    niters: nat,
    score: ScoreFunction<R>,
    other: ScoreFunction<R>,
    decomp: DecompositionType,
    before: SmallRng,
    after: SmallRng,
)
    requires
        annealing_run(t, u, table, betas, niters, score, decomp, before, after),
        other.sc_target == score.sc_target,
        forall|r: R, over: bool| #[trigger]
            crate::scalar::less_is(score.sc_target, r, over) ==> !over,
        forall|w: Option<R>| #[trigger] log2_weight_is(score.rw_weight, w) ==> w is None,
        log2_weight_is(other.rw_weight, None),
    ensures
        annealing_run(t, u, table, betas, niters, other, decomp, before, after),
{
    let w = choose|w: Option<R>| #[trigger]
        log2_weight_is(score.rw_weight, w) && scheduled(
            t,
            u,
            betas,
            niters,
            terms_of(table, score, w, decomp),
            before,
            after,
        );
    let a = terms_of(table, score, w, decomp);
    let b = terms_of(table, other, None, decomp);
    assert forall|t: Tree, rule: Rule, beta: R, draw: R, accept: bool| #[trigger]
        crate::energy::accept_is(
            t,
            rule,
            beta,
            a,
            draw,
            accept,
        ) implies crate::energy::accept_is(t, rule, beta, b, draw, accept) by {
        let (diff, sc, de) = choose|diff: RuleDiff<R>, sc: R, de: R|
            diff.is_of(t, rule, a.table, a.log2_rw_weight is Some) && crate::energy::local_sc_is(
                t,
                rule,
                a.table,
                sc,
            ) && #[trigger] crate::energy::energy_is(
                diff,
                sc,
                a.sc_target,
                a.sc_weight,
                a.log2_rw_weight,
                de,
            ) && crate::energy::metropolis_is(beta, de, draw, accept);
        let (dtc, over) = choose|dtc: R, over: bool| #[trigger]
            crate::energy::work_change_is(diff, a.log2_rw_weight, dtc)
                && #[trigger] crate::energy::over_is(sc, diff.dsc, a.sc_target, over) && if over {
                crate::energy::raised_is(a.sc_weight, diff.dsc, dtc, de)
            } else {
                de == dtc
            };
        assert(!over);
        assert(crate::energy::work_change_is(diff, b.log2_rw_weight, dtc));
        assert(crate::energy::over_is(sc, diff.dsc, b.sc_target, over));
        assert(crate::energy::energy_is(
            diff,
            sc,
            b.sc_target,
            b.sc_weight,
            b.log2_rw_weight,
            de,
        ));
        assert(diff.is_of(t, rule, b.table, b.log2_rw_weight is Some));
    }
    lemma_scheduled_alike(t, u, betas, niters, a, b, before, after);
}

/// Anneals `tree`: `niters` sweeps at each of the inverse temperatures `betas`.
pub fn optimize_tree_sa<R: Scalar>(
    tree: ExprTree,
    log2_sizes: &Vec<R>,
    betas: &Vec<R>,
    niters: usize,
    score: &ScoreFunction<R>,
    decomp: DecompositionType,
    rng: &mut SmallRng,
) -> (optimized: ExprTree)
    requires
        tree@.labels_below(log2_sizes.len() as nat),
    ensures
        annealing_run(
            tree@,
            optimized@,
            log2_sizes@,
            betas@,
            niters as nat,
            *score,
            decomp,
            *old(rng),
            *final(rng),
        ),
        betas.len() == 0 || niters == 0 ==> optimized@ == tree@ && *final(rng) == *old(rng),
{
    let zero: R = R::zero();
    let counts: bool = R::less(&zero, &score.rw_weight);
    let log2_rw_weight: Option<R> = if counts {
        Some(R::log2(&score.rw_weight))
    } else {
        None
    };
    assert(crate::scalar::less_is(zero, score.rw_weight, counts));
    assert(log2_weight_is(score.rw_weight, log2_rw_weight));
    let ghost terms = terms_of(log2_sizes@, *score, log2_rw_weight, decomp);
    let ghost t = tree@;
    let ghost start = *rng;
    let ghost n: nat = log2_sizes.len() as nat;
    let mut tree = tree;
    let mut k: usize = 0;
    while k < betas.len()
        invariant
            k <= betas.len(),
            scheduled(t, tree@, betas@.take(k as int), niters as nat, terms, start, *rng),
            tree@.labels_below(n),
            n == log2_sizes.len(),
            terms == terms_of(log2_sizes@, *score, log2_rw_weight, decomp),
        decreases betas.len() - k,
    {
        let ghost mid = tree@;
        let ghost mid_rng = *rng;
        let ghost beta = betas@[k as int];
        let mut i: usize = 0;
        while i < niters
            invariant
                i <= niters,
                k < betas.len(),
                beta == betas@[k as int],
                held_at(mid, tree@, beta, i as nat, terms, mid_rng, *rng),
                tree@.labels_below(n),
                n == log2_sizes.len(),
                terms == terms_of(log2_sizes@, *score, log2_rw_weight, decomp),
            decreases niters - i,
        {
            let ghost before = tree@;
            let ghost before_rng = *rng;
            optimize_subtree_mut(
                &mut tree,
                &betas[k],
                log2_sizes,
                &score.sc_target,
                &score.sc_weight,
                &log2_rw_weight,
                decomp,
                rng,
            );
            proof {
                assert(swept_by(before, tree@, beta, terms, before_rng, *rng));
                lemma_swept_by(before, tree@, beta, terms, before_rng, *rng, n);
            }
            i = i + 1;
        }
        proof {
            let more = betas@.take(k + 1);
            assert(more.drop_last() =~= betas@.take(k as int));
            assert(held_at(mid, tree@, more.last(), niters as nat, terms, mid_rng, *rng));
        }
        k = k + 1;
    }
    proof {
        assert(betas@.take(k as int) =~= betas@);
        assert(annealing_run(
            t,
            tree@,
            log2_sizes@,
            betas@,
            niters as nat,
            *score,
            decomp,
            start,
            *rng,
        ));
        if betas.len() == 0 || niters == 0 {
            idle_run_changes_nothing(
                t,
                tree@,
                log2_sizes@,
                betas@,
                niters as nat,
                *score,
                decomp,
                start,
                *rng,
            );
        }
    }
    tree
}

} // verus!
