//! That random trees split tensors as coins fall, and that trials are made of the parts that they
//! are said to be.

use crate::energy::Terms;
use crate::expr_tree::{DecompositionType, Tree};
use crate::init::{select, split_drawn, split_tree};
use crate::scalar::Scalar;
use crate::score::{ScoreFunction, TreeCost};
use crate::treesa::{Instance, TreeSA, Trial};
use rand::rngs::SmallRng;
use vstd::prelude::*;

verus! {

/// A selection holds what is marked and nothing else.
pub proof fn selection_follows_mask<T>(s: Seq<T>, mask: Seq<bool>, keep: bool, k: int)
    requires
        s.no_duplicates(),
        0 <= k < s.len(),
    ensures
        select(s, mask, keep).contains(s[k]) <==> mask[k] == keep,
    decreases s.len(),
{
    let rest = s.drop_last();
    let before = select(rest, mask, keep);
    let last = s.len() - 1;
    crate::expr_tree::lemma_push_contains(before, s.last(), s[k]);
    if k < last {
        selection_follows_mask(rest, mask, keep, k);
        assert(rest[k] == s[k] && s[k] != s[last]);
    } else {
        if before.contains(s[k]) {
            lemma_selected(rest, mask, keep, s[k]);
            let j = rest.index_of(s[k]);
            assert(s[j] == s[k]);
        }
    }
}

/// What is selected was there.
proof fn lemma_selected<T>(s: Seq<T>, mask: Seq<bool>, keep: bool, x: T)
    requires
        select(s, mask, keep).contains(x),
    ensures
        s.contains(x),
    decreases s.len(),
{
    if s.len() > 0 {
        let rest = s.drop_last();
        let before = select(rest, mask, keep);
        crate::expr_tree::lemma_push_contains(before, s.last(), x);
        if before.contains(x) {
            lemma_selected(rest, mask, keep, x);
            assert(s[rest.index_of(x)] == x);
        } else {
            assert(s[s.len() - 1] == x);
        }
    }
}

/// What is there is selected on one of the two sides.
proof fn lemma_on_one_side<T>(s: Seq<T>, mask: Seq<bool>, x: T)
    requires
        s.contains(x),
    ensures
        select(s, mask, true).contains(x) || select(s, mask, false).contains(x),
    decreases s.len(),
{
    let rest = s.drop_last();
    crate::expr_tree::lemma_push_contains(select(rest, mask, true), s.last(), x);
    crate::expr_tree::lemma_push_contains(select(rest, mask, false), s.last(), x);
    let k = s.index_of(x);
    if k < rest.len() {
        assert(rest[k] == x);
        lemma_on_one_side(rest, mask, x);
    }
}

/// Selections of two lists by one mask have the same length.
proof fn lemma_same_length<T, U>(s: Seq<T>, r: Seq<U>, mask: Seq<bool>, keep: bool)
    requires
        s.len() == r.len(),
    ensures
        select(s, mask, keep).len() == select(r, mask, keep).len(),
    decreases s.len(),
{
    if s.len() > 0 {
        lemma_same_length(s.drop_last(), r.drop_last(), mask, keep);
    }
}

/// A tree that comes of splitting holds the tensors that were split.
pub proof fn split_tree_holds_tensors(
    t: Tree,
    ixs: Seq<Seq<usize>>,
    ids: Seq<usize>,
    outer: Seq<usize>,
    all: Seq<usize>,
    decomp: DecompositionType,
    id: usize,
)
    requires
        split_tree(t, ixs, ids, outer, all, decomp),
        ids.len() == ixs.len(),
    ensures
        t.ids().contains(id) <==> ids.contains(id),
    decreases t,
{
    if ixs.len() == 1 {
        assert(t.ids() =~= seq![ids[0]]);
        assert(ids =~= seq![ids[0]]);
    } else {
        let mask = choose|mask: Seq<bool>| #[trigger]
            crate::init::splits(mask, ixs.len(), decomp) && split_tree(
                *t->left,
                select(ixs, mask, true),
                select(ids, mask, true),
                crate::init::bumped(outer, select(ixs, mask, false)),
                all,
                decomp,
            ) && split_tree(
                *t->right,
                select(ixs, mask, false),
                select(ids, mask, false),
                crate::init::bumped(outer, select(ixs, mask, true)),
                all,
                decomp,
            );
        lemma_same_length(ixs, ids, mask, true);
        lemma_same_length(ixs, ids, mask, false);
        split_tree_holds_tensors(
            *t->left,
            select(ixs, mask, true),
            select(ids, mask, true),
            crate::init::bumped(outer, select(ixs, mask, false)),
            all,
            decomp,
            id,
        );
        split_tree_holds_tensors(
            *t->right,
            select(ixs, mask, false),
            select(ids, mask, false),
            crate::init::bumped(outer, select(ixs, mask, true)),
            all,
            decomp,
            id,
        );
        assert(t.ids() =~= t->left.ids() + t->right.ids());
        crate::plan::lemma_concat_contains(t->left.ids(), t->right.ids(), id);
        if ids.contains(id) {
            lemma_on_one_side(ids, mask, id);
        }
        if select(ids, mask, true).contains(id) {
            lemma_selected(ids, mask, true, id);
        }
        if select(ids, mask, false).contains(id) {
            lemma_selected(ids, mask, false, id);
        }
    }
}

/// For a tree of any shape a coin is thrown for each tensor. Where not all fall the same, they say
/// where the tensors go; where all do, one of them, drawn, is turned over.
pub proof fn mask_follows_coins(
    mask: Seq<bool>,
    n: nat,
    before: SmallRng,
    after: SmallRng,
) -> (thrown: (Seq<bool>, SmallRng))
    requires
        crate::init::mask_drawn(mask, n, DecompositionType::Tree, before, after),
    ensures
        thrown.0.len() == n && mask.len() == n,
        crate::init::coins_drawn(thrown.0, before, thrown.1),
        thrown.0.contains(true) && thrown.0.contains(false) ==> mask == thrown.0 && after
            == thrown.1,
        !(thrown.0.contains(true) && thrown.0.contains(false)) ==> exists|k: usize|
            k < n && #[trigger] crate::random::index_drawn(n as usize, thrown.1, k, after)
                && mask[k as int] != thrown.0[k as int] && forall|j: int|
                0 <= j < n && j != k ==> mask[j] == thrown.0[j],
{
    let (coins, rng) = choose|coins: Seq<bool>, rng: SmallRng|
        coins.len() == n && #[trigger] crate::init::coins_drawn(coins, before, rng)
            && if crate::init::mixed(coins) {
            mask == coins && after == rng
        } else {
            crate::init::mended(coins, mask, rng, after)
        };
    (coins, rng)
}

/// Coins are thrown one after the other: more of them go on where the first ones stopped.
pub proof fn coins_are_thrown_in_order(
    coins: Seq<bool>,
    coin: bool,
    before: SmallRng,
    after: SmallRng,
)
    ensures
        crate::init::coins_drawn(Seq::<bool>::empty(), before, after) <==> after == before,
        crate::init::coins_drawn(coins.push(coin), before, after) <==> exists|rng: SmallRng|
            crate::init::coins_drawn(coins, before, rng) && #[trigger] crate::random::coin_drawn(
                rng,
                coin,
                after,
            ),
{
    let more = coins.push(coin);
    assert(more.drop_last() =~= coins);
    assert(more.last() == coin);
    if crate::init::coins_drawn(more, before, after) {
        let rng = choose|rng: SmallRng|
            crate::init::coins_drawn(more.drop_last(), before, rng)
                && #[trigger] crate::random::coin_drawn(rng, more.last(), after);
        assert(crate::random::coin_drawn(rng, coin, after));
    }
    if exists|rng: SmallRng|
        crate::init::coins_drawn(coins, before, rng) && #[trigger] crate::random::coin_drawn(
            rng,
            coin,
            after,
        ) {
        let rng = choose|rng: SmallRng|
            crate::init::coins_drawn(coins, before, rng) && #[trigger] crate::random::coin_drawn(
                rng,
                coin,
                after,
            );
        assert(crate::random::coin_drawn(rng, more.last(), after));
    }
}

/// A tensor goes to the left child of a random tree if its coin fell so, and to the right one
/// otherwise. The masks of the left child are drawn before those of the right one.
pub proof fn tensors_go_where_coins_fall(
    t: Tree,
    ixs: Seq<Seq<usize>>,
    ids: Seq<usize>,
    outer: Seq<usize>,
    all: Seq<usize>,
    decomp: DecompositionType,
    before: SmallRng,
    after: SmallRng,
) -> (at: (Seq<bool>, SmallRng, SmallRng))
    requires
        split_drawn(t, ixs, ids, outer, all, decomp, before, after),
        ids.len() == ixs.len(),
        ids.no_duplicates(),
        ixs.len() >= 2,
    ensures
        t is Node,
        crate::init::mask_drawn(at.0, ixs.len(), decomp, before, at.1),
        forall|k: int|
            0 <= k < ids.len() ==> (t->left.ids().contains(#[trigger] ids[k]) <==> at.0[k]),
        forall|k: int|
            0 <= k < ids.len() ==> (t->right.ids().contains(#[trigger] ids[k]) <==> !at.0[k]),
        split_drawn(
            *t->left,
            select(ixs, at.0, true),
            select(ids, at.0, true),
            crate::init::bumped(outer, select(ixs, at.0, false)),
            all,
            decomp,
            at.1,
            at.2,
        ),
        split_drawn(
            *t->right,
            select(ixs, at.0, false),
            select(ids, at.0, false),
            crate::init::bumped(outer, select(ixs, at.0, true)),
            all,
            decomp,
            at.2,
            after,
        ),
{
    let (mask, rng1, rng2) = choose|mask: Seq<bool>, rng1: SmallRng, rng2: SmallRng| #[trigger]
        crate::init::mask_drawn(mask, ixs.len(), decomp, before, rng1)
            && #[trigger] crate::random::between(rng2) && split_drawn(
            *t->left,
            select(ixs, mask, true),
            select(ids, mask, true),
            crate::init::bumped(outer, select(ixs, mask, false)),
            all,
            decomp,
            rng1,
            rng2,
        ) && split_drawn(
            *t->right,
            select(ixs, mask, false),
            select(ids, mask, false),
            crate::init::bumped(outer, select(ixs, mask, true)),
            all,
            decomp,
            rng2,
            after,
        );
    let left_outer = crate::init::bumped(outer, select(ixs, mask, false));
    let right_outer = crate::init::bumped(outer, select(ixs, mask, true));
    let (xl, xr) = (select(ixs, mask, true), select(ixs, mask, false));
    let (il, ir) = (select(ids, mask, true), select(ids, mask, false));
    lemma_same_length(ixs, ids, mask, true);
    lemma_same_length(ixs, ids, mask, false);
    crate::init::lemma_mask_drawn(mask, ixs.len(), decomp, before, rng1);
    crate::init::lemma_both_sides(ixs, mask, decomp);
    crate::init::drawn_split_is_split(*t->left, xl, il, left_outer, all, decomp, rng1, rng2);
    crate::init::drawn_split_is_split(*t->right, xr, ir, right_outer, all, decomp, rng2, after);
    assert forall|k: int| 0 <= k < ids.len() implies (t->left.ids().contains(#[trigger] ids[k])
        <==> mask[k]) && (t->right.ids().contains(ids[k]) <==> !mask[k]) by {
        split_tree_holds_tensors(*t->left, xl, il, left_outer, all, decomp, ids[k]);
        split_tree_holds_tensors(*t->right, xr, ir, right_outer, all, decomp, ids[k]);
        selection_follows_mask(ids, mask, true, k);
        selection_follows_mask(ids, mask, false, k);
    }
    (mask, rng1, rng2)
}

/// An annealing run goes by the target and the weight of the size that the score names, and by the
/// logarithm of its weight of reads and writes.
pub proof fn run_goes_by_score<R: Scalar>(
    t: Tree,
    u: Tree,
    table: Seq<R>,
    betas: Seq<R>,
    niters: nat,
    score: ScoreFunction<R>,
    decomp: DecompositionType,
    before: SmallRng,
    after: SmallRng,
) -> (log2_rw_weight: Option<R>)
    requires
        crate::sweep::annealing_run(t, u, table, betas, niters, score, decomp, before, after),
    ensures
        crate::sweep::log2_weight_is(score.rw_weight, log2_rw_weight),
        crate::sweep::scheduled(
            t,
            u,
            betas,
            niters,
            (Terms {
                table,
                sc_target: score.sc_target,
                sc_weight: score.sc_weight,
                log2_rw_weight,
                decomp,
            }),
            before,
            after,
        ),
{
    choose|w: Option<R>| #[trigger]
        crate::sweep::log2_weight_is(score.rw_weight, w) && crate::sweep::scheduled(
            t,
            u,
            betas,
            niters,
            crate::sweep::terms_of(table, score, w, decomp),
            before,
            after,
        )
}

/// A trial starts its generator from its number, takes the given tree or draws a random one,
/// anneals it with all temperatures of the setting in their order, and scores what that left.
pub proof fn trial_is_made_of_parts<R: Scalar>(
    net: Instance<R>,
    index: usize,
    given: Option<Tree>,
    config: TreeSA<R>,
    trial: Trial<R>,
) -> (at: (Tree, SmallRng, SmallRng, SmallRng, TreeCost<R>))
    requires
        net.yields(index, given, config, trial),
    ensures
        crate::random::started(crate::treesa::seed_of(index), at.1),
        given matches Some(tree) ==> at.0 == tree && at.2 == at.1,
        given is None ==> crate::init::random_drawn(
            at.0,
            net.ixs,
            net.iy,
            net.table.len(),
            config.decomposition_type,
            at.1,
            at.2,
        ),
        crate::sweep::annealing_run(
            at.0,
            trial.tree@,
            net.table,
            config.betas@,
            config.niters as nat,
            config.score,
            config.decomposition_type,
            at.2,
            at.3,
        ),
        crate::score::tree_cost_is(trial.tree@, net.table, at.4),
        config.score.scores(at.4, trial.score),
{
    let (t, rng0, rng1, rng2) = choose|t: Tree, rng0: SmallRng, rng1: SmallRng, rng2: SmallRng|
     #[trigger]
        crate::random::started(crate::treesa::seed_of(index), rng0) && #[trigger] net.starts(
            given,
            config.decomposition_type,
            t,
            rng0,
            rng1,
        ) && #[trigger] net.anneals(config, t, trial.tree@, rng1, rng2);
    let c = choose|c: TreeCost<R>| #[trigger]
        crate::score::tree_cost_is(trial.tree@, net.table, c) && config.score.scores(
            c,
            trial.score,
        );
    (t, rng0, rng1, rng2, c)
}

} // verus!
