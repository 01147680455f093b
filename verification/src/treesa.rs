//! Contraction orders by simulated annealing on contraction trees.

use crate::convert::{expr_tree_to_nested, map_labels, nested_to_expr_tree};
use crate::eincode::{Ein, EinCode, Nested, NestedEinsum};
use crate::expr_tree::{DecompositionType, ExprTree, Tree};
use crate::greedy::{optimize_greedy, GreedyMethod};
use crate::init::init_random;
use crate::label::Label;
use crate::label_map::LabelMap;
use crate::network::Network;
use crate::scalar::Scalar;
use crate::score::{tree_complexity, ScoreFunction, TreeCost};
use crate::sweep::optimize_tree_sa;
use rand::rngs::SmallRng;
use rayon::prelude::{IntoParallelIterator, ParallelIterator};
use vstd::prelude::*;

verus! {

/// How a trial gets the tree that it starts from.
#[derive(Debug, Clone, Copy, PartialEq, Eq)]
pub enum Initializer {
    /// By contracting pairs greedily.
    Greedy,
    /// By random splitting.
    Random,
}

impl Default for Initializer {
    fn default() -> (d: Self)
        ensures
            d == Initializer::Greedy,
    {
        Initializer::Greedy
    }
}

/// How to anneal.
#[derive(Debug, Clone)]
pub struct TreeSA<R> {
    /// The inverse temperatures, one after the other.
    pub betas: Vec<R>,
    /// How many independent trials to run.
    pub ntrials: usize,
    /// How many sweeps to make at each temperature.
    pub niters: usize,
    /// How a trial gets the tree that it starts from.
    pub initializer: Initializer,
    /// What the trials are compared by.
    pub score: ScoreFunction<R>,
    /// Which orders to look for.
    pub decomposition_type: DecompositionType,
}

/// Whether `betas` are `count` inverse temperatures from `(1 + step * first) / 100` upwards in
/// steps of `step / 100`.
pub open spec fn schedule_is<R: Scalar>(betas: Seq<R>, first: u64, count: nat, step: u64) -> bool {
    &&& betas.len() == count
    &&& forall|k: int|
        0 <= k < count ==> call_ensures(
            R::affine,
            (1u64, step, (first + k) as u64),
            #[trigger] betas[k],
        )
}

/// Inverse temperatures from `(1 + step * first) / 100` upwards in steps of `step / 100`.
fn schedule<R: Scalar>(first: u64, count: u64, step: u64) -> (betas: Vec<R>)
    requires
        first + count <= u64::MAX,
    ensures
        schedule_is(betas@, first, count as nat, step),
{
    let mut betas: Vec<R> = Vec::new();
    let mut k: u64 = 0;
    while k < count
        invariant
            k <= count,
            first + count <= u64::MAX,
            schedule_is(betas@, first, k as nat, step),
        decreases count - k,
    {
        betas.push(R::affine(1, step, first + k));
        k = k + 1;
    }
    betas
}

/// Whether `score` is the score that is used where none is given.
pub open spec fn default_score<R: Scalar>(score: ScoreFunction<R>) -> bool {
    &&& call_ensures(R::affine, (100u64, 0u64, 0u64), score.tc_weight)
    &&& call_ensures(R::affine, (100u64, 0u64, 0u64), score.sc_weight)
    &&& call_ensures(R::affine, (0u64, 0u64, 0u64), score.rw_weight)
    &&& call_ensures(R::affine, (2000u64, 0u64, 0u64), score.sc_target)
}

impl<R: Scalar> Default for TreeSA<R> {
    /// Ten trials with fifty sweeps at each of three hundred temperatures.
    fn default() -> (config: Self)
        ensures
            schedule_is(config.betas@, 0, 300, 5),
            config.ntrials == 10,
            config.niters == 50,
            config.initializer == Initializer::Greedy,
            default_score(config.score),
            config.decomposition_type == DecompositionType::Tree,
    {
        TreeSA {
            betas: schedule(0, 300, 5),
            ntrials: 10,
            niters: 50,
            initializer: Initializer::Greedy,
            score: ScoreFunction::default(),
            decomposition_type: DecompositionType::Tree,
        }
    }
}

impl<R> TreeSA<R> {
    /// Annealing with these parameters, for trees of any shape.
    pub fn new(
        betas: Vec<R>,
        ntrials: usize,
        niters: usize,
        initializer: Initializer,
        score: ScoreFunction<R>,
    ) -> (config: Self)
        ensures
            config == (TreeSA {
                betas,
                ntrials,
                niters,
                initializer,
                score,
                decomposition_type: DecompositionType::Tree,
            }),
    {
        TreeSA {
            betas,
            ntrials,
            niters,
            initializer,
            score,
            decomposition_type: DecompositionType::Tree,
        }
    }

    /// The same, with another size up to which the largest tensor costs nothing.
    pub fn with_sc_target(self, sc_target: R) -> (config: Self)
        ensures
            config == (TreeSA { score: ScoreFunction { sc_target, ..self.score }, ..self }),
    {
        let mut config = self;
        config.score.sc_target = sc_target;
        config
    }

    /// The same, with another number of trials.
    pub fn with_ntrials(self, ntrials: usize) -> (config: Self)
        ensures
            config == (TreeSA { ntrials, ..self }),
    {
        let mut config = self;
        config.ntrials = ntrials;
        config
    }

    /// The same, with another number of sweeps at each temperature.
    pub fn with_niters(self, niters: usize) -> (config: Self)
        ensures
            config == (TreeSA { niters, ..self }),
    {
        let mut config = self;
        config.niters = niters;
        config
    }

    /// The same, with other inverse temperatures.
    pub fn with_betas(self, betas: Vec<R>) -> (config: Self)
        ensures
            config == (TreeSA { betas, ..self }),
    {
        let mut config = self;
        config.betas = betas;
        config
    }
}

impl<R: Scalar> TreeSA<R> {
    /// One trial with twenty sweeps at each of a hundred temperatures.
    pub fn fast() -> (config: Self)
        ensures
            schedule_is(config.betas@, 1, 100, 15),
            config.ntrials == 1,
            config.niters == 20,
            config.initializer == Initializer::Greedy,
            default_score(config.score),
            config.decomposition_type == DecompositionType::Tree,
    {
        TreeSA {
            betas: schedule(1, 100, 15),
            ntrials: 1,
            niters: 20,
            initializer: Initializer::Greedy,
            score: ScoreFunction::default(),
            decomposition_type: DecompositionType::Tree,
        }
    }

    /// Annealing for linear orders, from random ones.
    pub fn path() -> (config: Self)
        ensures
            schedule_is(config.betas@, 0, 300, 5),
            config.ntrials == 10,
            config.niters == 50,
            config.initializer == Initializer::Random,
            default_score(config.score),
            config.decomposition_type == DecompositionType::Path,
    {
        let mut config: TreeSA<R> = TreeSA::default();
        config.initializer = Initializer::Random;
        config.decomposition_type = DecompositionType::Path;
        config
    }
}

/// What the random numbers of a trial start from: its number plus forty-two, in 64 bits.
pub open spec fn seed_of(trial: usize) -> u64 {
    ((trial + 42) % 0x1_0000_0000_0000_0000) as u64
}

/// What the random numbers of a trial start from.
pub fn trial_seed(trial: usize) -> (seed: u64)
    ensures
        seed == seed_of(trial),
        seed == (trial + 42) % 0x1_0000_0000_0000_0000,
{
    (trial as u64).wrapping_add(42)
}

/// What a trial comes to.
pub struct Trial<R> {
    pub tree: ExprTree,
    pub score: R,
}

/// A network and the binary logarithms of the sizes of its labels.
pub struct Instance<R> {
    pub ixs: Seq<Seq<usize>>,
    pub iy: Seq<usize>,
    pub table: Seq<R>,
}

impl<R: Scalar> Instance<R> {
    /// Whether a trial, with random numbers from the state `before` on, may start from `t` and
    /// leave the state `after`: from the given tree, or from a random one where none is given.
    pub open spec fn starts(
        self,
        given: Option<Tree>,
        decomp: DecompositionType,
        t: Tree,
        before: SmallRng,
        after: SmallRng,
    ) -> bool {
        match given {
            Some(tree) => t == tree && after == before,
            None => crate::init::random_drawn(
                t,
                self.ixs,
                self.iy,
                self.table.len(),
                decomp,
                before,
                after,
            ),
        }
    }

    /// Whether trials can start from the given tree, or from random ones where none is given.
    pub open spec fn ready(self, given: Option<Tree>) -> bool {
        match given {
            Some(tree) => tree.labels_below(self.table.len()),
            None => self.ixs.len() >= 2 && crate::init::countable(
                self.ixs,
                self.iy,
                self.table.len(),
            ),
        }
    }

    /// Whether annealing, with random numbers from the state `before` on, can turn `t` into `u` and
    /// leave the state `after`.
    pub open spec fn anneals(
        self,
        config: TreeSA<R>,
        t: Tree,
        u: Tree,
        before: SmallRng,
        after: SmallRng,
    ) -> bool {
        crate::sweep::annealing_run(
            t,
            u,
            self.table,
            config.betas@,
            config.niters as nat,
            config.score,
            config.decomposition_type,
            before,
            after,
        )
    }

    /// Whether `score` is the score of `t`.
    pub open spec fn scores(self, config: TreeSA<R>, t: Tree, score: R) -> bool {
        exists|c: TreeCost<R>| #[trigger]
            crate::score::tree_cost_is(t, self.table, c) && config.score.scores(c, score)
    }

    /// Whether the trial with the number `index` can come to `trial`: its random numbers start from
    /// its number alone, the start draws first, and annealing goes on from there.
    pub open spec fn yields(
        self,
        index: usize,
        given: Option<Tree>,
        config: TreeSA<R>,
        trial: Trial<R>,
    ) -> bool {
        &&& exists|t: Tree, rng0: SmallRng, rng1: SmallRng, rng2: SmallRng| #[trigger]
            crate::random::started(seed_of(index), rng0) && #[trigger] self.starts(
                given,
                config.decomposition_type,
                t,
                rng0,
                rng1,
            ) && #[trigger] self.anneals(config, t, trial.tree@, rng1, rng2)
        &&& self.scores(config, trial.tree@, trial.score)
    }
}

/// The tree that stands in an option, read as a model.
pub open spec fn given_tree(tree: Option<ExprTree>) -> Option<Tree> {
    match tree {
        Some(tree) => Some(tree@),
        None => None,
    }
}

/// Whether trials can start from the given tree, or from random ones where none is given.
pub open spec fn trial_ready<R: Scalar>(
    given: &Option<ExprTree>,
    int_ixs: &Vec<Vec<usize>>,
    int_iy: &Vec<usize>,
    log2_sizes: &Vec<R>,
) -> bool {
    (Instance {
        ixs: crate::init::lists(int_ixs@),
        iy: int_iy@,
        table: log2_sizes@,
    }).ready(given_tree(*given))
}

/// Whether the trial with the number `index` can come to `trial`.
pub open spec fn trial_yields<R: Scalar>(
    index: usize,
    given: &Option<ExprTree>,
    int_ixs: &Vec<Vec<usize>>,
    int_iy: &Vec<usize>,
    log2_sizes: &Vec<R>,
    config: &TreeSA<R>,
    trial: Trial<R>,
) -> bool {
    (Instance {
        ixs: crate::init::lists(int_ixs@),
        iy: int_iy@,
        table: log2_sizes@,
    }).yields(index, given_tree(*given), *config, trial)
}

/// A random tree for a network has the labels of the network and no others.
pub proof fn lemma_random_below<R: Scalar>(
    net: Instance<R>,
    decomp: DecompositionType,
    t: Tree,
    before: SmallRng,
    after: SmallRng,
)
    requires
        net.ready(None),
        net.starts(None, decomp, t, before, after),
        net.ixs.len() <= usize::MAX,
        net.table.len() <= usize::MAX,
    ensures
        t.labels_below(net.table.len()),
        t.is_plan_of(net.ixs, net.iy),
        decomp == DecompositionType::Path ==> t.left_deep(),
{
    let outer = crate::init::output_counts(net.iy, net.table.len());
    crate::init::drawn_split_is_split(
        t,
        net.ixs,
        crate::init::first_ids(net.ixs.len()),
        outer,
        crate::init::bumped(outer, net.ixs),
        decomp,
        before,
        after,
    );
    crate::init::random_tree_is_consistent(t, net.ixs, net.iy, net.table.len(), decomp);
    crate::order::lemma_plan_leaves(t, net.ixs);
    crate::order::lemma_consistent_below(t, net.iy.to_set(), net.ixs, net.table.len());
    crate::plan::lemma_consistent_is_root_consistent(t, net.iy.to_set());
}

/// Runs one trial: anneals the given tree, or a random one where none is given, with random
/// numbers of its own, and scores what comes out.
pub fn run_trial<R: Scalar>(
    trial: usize,
    given: &Option<ExprTree>,
    int_ixs: &Vec<Vec<usize>>,
    int_iy: &Vec<usize>,
    log2_sizes: &Vec<R>,
    config: &TreeSA<R>,
) -> (result: Trial<R>)
    requires
        trial_ready(given, int_ixs, int_iy, log2_sizes),
    ensures
        trial_yields(trial, given, int_ixs, int_iy, log2_sizes, config, result),
{
    let ghost net = Instance {
        ixs: crate::init::lists(int_ixs@),
        iy: int_iy@,
        table: log2_sizes@,
    };
    let mut rng: SmallRng = crate::random::start(trial_seed(trial));
    let ghost rng0 = rng;
    let tree: ExprTree = match given {
        Some(tree) => tree.clone(),
        None => init_random(
            int_ixs,
            int_iy,
            log2_sizes.len(),
            config.decomposition_type,
            &mut rng,
        ),
    };
    let ghost t = tree@;
    let ghost rng1 = rng;
    proof {
        assert(crate::random::started(seed_of(trial), rng0));
        assert(net.starts(given_tree(*given), config.decomposition_type, t, rng0, rng1));
        if *given is None {
            assert(int_ixs@.len() == int_ixs.len());
            assert(log2_sizes@.len() == log2_sizes.len());
            lemma_random_below(net, config.decomposition_type, t, rng0, rng1);
        }
    }
    let optimized: ExprTree = optimize_tree_sa(
        tree,
        log2_sizes,
        &config.betas,
        config.niters,
        &config.score,
        config.decomposition_type,
        &mut rng,
    );
    proof {
        crate::sweep::run_anneals(
            t,
            optimized@,
            log2_sizes@,
            config.betas@,
            config.niters as nat,
            config.score,
            config.decomposition_type,
            rng1,
            rng,
            log2_sizes.len() as nat,
        );
    }
    let cost: TreeCost<R> = tree_complexity(&optimized, log2_sizes);
    let score: R = config.score.evaluate(&cost);
    proof {
        assert(crate::score::tree_cost_is(optimized@, net.table, cost));
        assert(net.anneals(*config, t, optimized@, rng1, rng));
    }
    Trial { tree: optimized, score }
}

/// What `f` returns for each number below `n`, in order, where the calls may run at the same time:
/// [`IntoParallelIterator::into_par_iter`] of a range, [`ParallelIterator::map`] and
/// [`ParallelIterator::collect`] into a vector.
///
/// A range is an indexed parallel iterator, and collecting one keeps its order: the element at each
/// place is what the call for that number returned. There are few enough numbers that room for the
/// results can be reserved. Nothing is said of where the threads cannot be started.
#[verifier::external_body]
fn parallel_map<T: Send, F: Fn(usize) -> T + Sync + Send>(n: usize, f: F) -> (results: Vec<T>)
    requires
        n <= 1024,
        forall|i: usize| i < n ==> call_requires(f, (i,)),
    ensures
        results.len() == n,
        forall|i: usize| i < n ==> call_ensures(f, (i,), #[trigger] results@[i as int]),
{
    (0..n).into_par_iter().map(f).collect()
}

/// Runs the trials, many at the same time.
fn run_trials<R: Scalar>(
    given: &Option<ExprTree>,
    int_ixs: &Vec<Vec<usize>>,
    int_iy: &Vec<usize>,
    log2_sizes: &Vec<R>,
    config: &TreeSA<R>,
) -> (results: Vec<Trial<R>>)
    requires
        trial_ready(given, int_ixs, int_iy, log2_sizes),
    ensures
        results.len() == config.ntrials,
        forall|i: int|
            0 <= i < results.len() ==> trial_yields(
                i as usize,
                given,
                int_ixs,
                int_iy,
                log2_sizes,
                config,
                #[trigger] results[i],
            ),
        forall|i: int|
            0 <= i < results.len() ==> call_ensures(
                run_trial::<R>,
                (i as usize, given, int_ixs, int_iy, log2_sizes, config),
                #[trigger] results[i],
            ),
{
    let mut results: Vec<Trial<R>> = Vec::new();
    while results.len() < config.ntrials
        invariant
            results.len() <= config.ntrials,
            trial_ready(given, int_ixs, int_iy, log2_sizes),
            forall|i: int|
                0 <= i < results.len() ==> trial_yields(
                    i as usize,
                    given,
                    int_ixs,
                    int_iy,
                    log2_sizes,
                    config,
                    #[trigger] results[i],
                ),
            forall|i: int|
                0 <= i < results.len() ==> call_ensures(
                    run_trial::<R>,
                    (i as usize, given, int_ixs, int_iy, log2_sizes, config),
                    #[trigger] results[i],
                ),
        decreases config.ntrials - results.len(),
    {
        let done: usize = results.len();
        let left: usize = config.ntrials - done;
        let n: usize = if left < 1024 {
            left
        } else {
            1024
        };
        let trial = |i: usize| -> (result: Trial<R>)
            requires
                i < n,
                done + n <= usize::MAX,
                trial_ready(given, int_ixs, int_iy, log2_sizes),
            ensures
                trial_yields((done + i) as usize, given, int_ixs, int_iy, log2_sizes, config, result),
                call_ensures(
                    run_trial::<R>,
                    ((done + i) as usize, given, int_ixs, int_iy, log2_sizes, config),
                    result,
                ),
            { run_trial(done + i, given, int_ixs, int_iy, log2_sizes, config) };
        let mut batch: Vec<Trial<R>> = parallel_map(n, trial);
        let ghost before = results@;
        let ghost new = batch@;
        results.append(&mut batch);
        assert forall|i: int| 0 <= i < results.len() implies trial_yields(
            i as usize,
            given,
            int_ixs,
            int_iy,
            log2_sizes,
            config,
            #[trigger] results[i],
        ) && call_ensures(
            run_trial::<R>,
            (i as usize, given, int_ixs, int_iy, log2_sizes, config),
            results[i],
        ) by {
            if i < before.len() {
                assert(results[i] == before[i]);
            } else {
                let k: usize = (i - before.len()) as usize;
                assert(results[i] == new[k as int]);
                assert(call_ensures(trial, (k,), new[k as int]));
            }
        }
    }
    results
}

/// Whether `k` is the place of the first one of the lowest scores, found by going through them
/// from left to right.
pub open spec fn first_lowest<R: Scalar>(scores: Seq<R>, k: int) -> bool
    decreases scores.len(),
{
    if scores.len() < 2 {
        scores.len() == 1 && k == 0
    } else {
        exists|b: int, lower: bool|
            first_lowest(scores.drop_last(), b) && #[trigger] crate::scalar::less_is(
                scores.last(),
                scores[b],
                lower,
            ) && k == if lower {
                scores.len() - 1
            } else {
                b
            }
    }
}

/// Whether the numbers are compared by a strict order.
pub open spec fn strictly_ordered<R: Scalar>() -> bool {
    &&& forall|a: R, b: R, x: bool, y: bool| #[trigger]
        crate::scalar::less_is(a, b, x) && #[trigger] crate::scalar::less_is(a, b, y) ==> x == y
    &&& forall|a: R, x: bool| #[trigger] crate::scalar::less_is(a, a, x) ==> !x
    &&& forall|a: R, b: R, c: R| #[trigger]
        crate::scalar::less_is(a, b, true) && #[trigger] crate::scalar::less_is(b, c, true)
            ==> crate::scalar::less_is(a, c, true)
}

/// Where numbers are compared by a strict order, no score is below the one that is chosen.
pub proof fn lowest_score_wins<R: Scalar>(scores: Seq<R>, k: int)
    requires
        first_lowest(scores, k),
        strictly_ordered::<R>(),
    ensures
        0 <= k < scores.len(),
        forall|i: int, x: bool|
            0 <= i < scores.len() && #[trigger] crate::scalar::less_is(scores[i], scores[k], x)
                ==> !x,
    decreases scores.len(),
{
    if scores.len() >= 2 {
        let rest = scores.drop_last();
        let (b, lower) = choose|b: int, lower: bool|
            first_lowest(rest, b) && #[trigger] crate::scalar::less_is(
                scores.last(),
                scores[b],
                lower,
            ) && k == if lower {
                scores.len() - 1
            } else {
                b
            };
        lowest_score_wins(rest, b);
        assert forall|i: int, x: bool|
            0 <= i < scores.len() && #[trigger] crate::scalar::less_is(
                scores[i],
                scores[k],
                x,
            ) implies !x by {
            if i < rest.len() {
                assert(rest[i] == scores[i] && rest[b] == scores[b]);
                if lower && x {
                    assert(crate::scalar::less_is(scores[i], scores.last(), true));
                    assert(crate::scalar::less_is(rest[i], rest[b], true));
                }
            }
        }
    }
}

/// Further trials make the score no worse: where numbers are compared by a strict order, the score
/// that is chosen of the first ones is not below that which is chosen of all.
pub proof fn more_scores_are_no_worse<R: Scalar>(few: Seq<R>, k: int, many: Seq<R>, j: int)
    requires
        first_lowest(few, k),
        first_lowest(many, j),
        few.len() <= many.len(),
        few == many.take(few.len() as int),
        strictly_ordered::<R>(),
    ensures
        forall|x: bool| #[trigger] crate::scalar::less_is(few[k], many[j], x) ==> !x,
{
    lowest_score_wins(few, k);
    lowest_score_wins(many, j);
    assert(few[k] == many[k]);
}

/// The scores of `trials`.
pub open spec fn scores_of<R>(trials: Seq<Trial<R>>) -> Seq<R> {
    trials.map_values(|trial: Trial<R>| trial.score)
}

/// The place of the first one of the trials with the lowest score.
fn best_trial<R: Scalar>(trials: &Vec<Trial<R>>) -> (k: Option<usize>)
    ensures
        match k {
            None => trials.len() == 0,
            Some(k) => k < trials.len() && first_lowest(scores_of(trials@), k as int),
        },
{
    if trials.len() == 0 {
        return None;
    }
    let ghost scores = scores_of(trials@);
    let mut best: usize = 0;
    let mut k: usize = 1;
    while k < trials.len()
        invariant
            best < k <= trials.len(),
            scores == scores_of(trials@),
            first_lowest(scores.take(k as int), best as int),
        decreases trials.len() - k,
    {
        let lower: bool = R::less(&trials[k].score, &trials[best].score);
        proof {
            let more = scores.take(k + 1);
            assert(more.drop_last() =~= scores.take(k as int));
            assert(crate::scalar::less_is(more.last(), more[best as int], lower));
        }
        if lower {
            best = k;
        }
        k = k + 1;
    }
    assert(scores.take(k as int) =~= scores);
    Some(best)
}

/// The method that always contracts the pair with the smallest result.
pub open spec fn plain_greedy<R>() -> GreedyMethod<R> {
    GreedyMethod { alpha_numerator: 0, alpha_denominator: 1, temperature: None }
}

/// Whether trials for `code` start from `t` where they start from a greedy order.
pub open spec fn greedy_start<L, R: Scalar>(
    code: Ein<L>,
    size_dict: Map<L, usize>,
    t: Tree,
) -> bool {
    exists|nested: Nested<L>| #[trigger]
        crate::greedy::greedy_order(code, size_dict, plain_greedy::<R>(), nested)
            && crate::convert::converted(nested, code.numbering()) == Some(t)
}

/// The integer tree of a greedy order for `code`. There is none for fewer than two tensors.
pub fn init_greedy<L: Label, R: Scalar>(
    code: &EinCode<L>,
    size_dict: &LabelMap<L>,
    label_map: &LabelMap<L>,
    int_ixs: &Vec<Vec<usize>>,
    int_iy: &Vec<usize>,
) -> (tree: Option<ExprTree>)
    requires
        code@.ixs.len() >= 2 ==> crate::convert::covers(size_dict@, code@.labels()),
        label_map@ == code@.numbering(),
        code@.labels().len() <= usize::MAX,
    ensures
        tree is None <==> code@.ixs.len() < 2,
        tree matches Some(tree) ==> {
            &&& greedy_start::<L, R>(code@, size_dict@, tree@)
            &&& tree@.is_plan_of(code@.int_ixs(), code@.int_iy())
            &&& tree@.labels_below(code@.labels().len())
        },
{
    let method: GreedyMethod<R> = GreedyMethod::default();
    match optimize_greedy(code, size_dict, &method) {
        None => None,
        Some(nested) => {
            proof {
                if code@.ixs.len() >= 2 {
                    assert(code.ixs@.len() == code.ixs.len());
                    crate::network::lemma_numbered(code@);
                    let t = crate::order::order_gives_plan(
                        nested@,
                        code@,
                        code@.labels(),
                        code@.numbering(),
                    );
                    crate::network::lemma_converted_below(
                        nested@,
                        code@.labels(),
                        code@.numbering(),
                        t,
                    );
                    assert(crate::greedy::greedy_order(
                        code@,
                        size_dict@,
                        plain_greedy::<R>(),
                        nested@,
                    ));
                }
            }
            nested_to_expr_tree(&nested, int_ixs, int_iy, label_map)
        },
    }
}

/// Whether `table` holds the binary logarithms of `sizes`.
pub open spec fn log2_table_is<R: Scalar>(sizes: Seq<usize>, table: Seq<R>) -> bool {
    &&& table.len() == sizes.len()
    &&& forall|k: int|
        0 <= k < sizes.len() ==> call_ensures(R::log2_of, (sizes[k],), #[trigger] table[k])
}

/// The binary logarithms of `sizes`.
fn log2_table<R: Scalar>(sizes: &Vec<usize>) -> (table: Vec<R>)
    ensures
        log2_table_is(sizes@, table@),
{
    let mut table: Vec<R> = Vec::new();
    let mut k: usize = 0;
    while k < sizes.len()
        invariant
            k <= sizes.len(),
            table.len() == k,
            forall|j: int| 0 <= j < k ==> call_ensures(R::log2_of, (sizes[j],), #[trigger] table[j]),
        decreases sizes.len() - k,
    {
        table.push(R::log2_of(sizes[k]));
        k = k + 1;
    }
    table
}

/// Whether `trials` are what trials for `code`, from the given tree or from random ones, can come
/// to, where `table` holds the logarithms of the sizes, and `nested` is the order of the tree of
/// the first one of the best trials, which stands at `k`.
pub open spec fn annealed_by<L, R: Scalar>(
    code: Ein<L>,
    size_dict: Map<L, usize>,
    config: TreeSA<R>,
    given: Option<Tree>,
    nested: Nested<L>,
    table: Seq<R>,
    trials: Seq<Trial<R>>,
    k: int,
) -> bool {
    &&& log2_table_is(code.sizes(size_dict), table)
    &&& trials.len() == config.ntrials
    &&& forall|i: int|
        0 <= i < trials.len() ==> (Instance {
            ixs: code.int_ixs(),
            iy: code.int_iy(),
            table,
        }).yields(i as usize, given, config, #[trigger] trials[i])
    &&& 0 <= k < trials.len()
    &&& first_lowest(scores_of(trials), k)
    &&& nested == code.order_of(trials[k].tree@)
}

/// Whether trials for `code`, from the given tree or from random ones, can come to `nested`: the
/// order of the tree of the first one of the best trials.
pub open spec fn annealed_order<L, R: Scalar>(
    code: Ein<L>,
    size_dict: Map<L, usize>,
    config: TreeSA<R>,
    given: Option<Tree>,
    nested: Nested<L>,
) -> bool {
    exists|table: Seq<R>, trials: Seq<Trial<R>>, k: int| #[trigger]
        annealed_by(code, size_dict, config, given, nested, table, trials, k)
}

/// What a trial comes to holds only labels of the network.
proof fn lemma_trial_below<R: Scalar>(
    net: Instance<R>,
    index: usize,
    given: Option<Tree>,
    config: TreeSA<R>,
    trial: Trial<R>,
) -> (t: Tree)
    requires
        net.ready(given),
        net.yields(index, given, config, trial),
        net.ixs.len() <= usize::MAX,
        net.table.len() <= usize::MAX,
    ensures
        match given {
            Some(tree) => t == tree,
            None => {
                &&& t.is_plan_of(net.ixs, net.iy)
                &&& config.decomposition_type == DecompositionType::Path ==> t.left_deep()
            },
        },
        t.labels_below(net.table.len()),
        t.annealed(
            trial.tree@,
            config.betas@.len() * config.niters as nat,
            config.decomposition_type,
        ),
        trial.tree@.labels_below(net.table.len()),
{
    let decomp = config.decomposition_type;
    let (t, rng0, rng1, rng2) = choose|
        t: Tree,
        rng0: SmallRng,
        rng1: SmallRng,
        rng2: SmallRng,
    | #[trigger]
        crate::random::started(seed_of(index), rng0) && #[trigger] net.starts(
            given,
            decomp,
            t,
            rng0,
            rng1,
        ) && #[trigger] net.anneals(config, t, trial.tree@, rng1, rng2);
    if given is None {
        lemma_random_below(net, decomp, t, rng0, rng1);
    }
    crate::sweep::run_anneals(
        t,
        trial.tree@,
        net.table,
        config.betas@,
        config.niters as nat,
        config.score,
        decomp,
        rng1,
        rng2,
        net.table.len(),
    );
    t
}

/// Anneals, and gives the order of the best tree that was found.
fn anneal<L: Label, R: Scalar>(
    code: &EinCode<L>,
    size_dict: &LabelMap<L>,
    network: &Network<L>,
    given: &Option<ExprTree>,
    config: &TreeSA<R>,
) -> (nested: Option<NestedEinsum<L>>)
    requires
        crate::convert::covers(size_dict@, code@.labels()),
        network.is_of(code@),
        code@.ixs.len() >= 2,
        match given {
            Some(tree) => tree@.labels_below(code@.labels().len()),
            None => code@.fits(),
        },
    ensures
        nested is None <==> config.ntrials == 0,
        nested matches Some(nested) ==> annealed_order(
            code@,
            size_dict@,
            *config,
            given_tree(*given),
            nested@,
        ),
{
    let sizes: Vec<usize> = map_labels(&network.labels, size_dict);
    let log2_sizes: Vec<R> = log2_table(&sizes);
    let ghost net = Instance {
        ixs: code@.int_ixs(),
        iy: code@.int_iy(),
        table: log2_sizes@,
    };
    proof {
        assert(network.labels@.len() == network.labels.len());
        assert(log2_sizes@.len() == code@.labels().len());
        crate::network::lemma_numbered(code@);
        if *given is None {
            crate::network::lemma_countable(code@);
        }
        assert(net.ready(given_tree(*given)));
    }
    let trials: Vec<Trial<R>> = run_trials(
        given,
        &network.int_ixs,
        &network.int_iy,
        &log2_sizes,
        config,
    );
    match best_trial(&trials) {
        None => None,
        Some(k) => {
            let ghost u = trials[k as int].tree@;
            proof {
                assert(code.ixs@.len() == code.ixs.len());
                assert(net.yields(k, given_tree(*given), *config, trials[k as int]));
                let t = lemma_trial_below(net, k, given_tree(*given), *config, trials[k as int]);
                crate::network::lemma_nodes_bounded(u, code@.labels().len());
            }
            let nested: NestedEinsum<L> = expr_tree_to_nested(
                &trials[k].tree,
                &code.ixs,
                &network.labels,
                &code.iy,
                0,
            );
            proof {
                assert(nested@ == code@.order_of(u));
                assert(annealed_by(
                    code@,
                    size_dict@,
                    *config,
                    given_tree(*given),
                    nested@,
                    net.table,
                    trials@,
                    k as int,
                ));
            }
            Some(nested)
        },
    }
}

/// The trial that an annealed order comes of, and the tree that it started from.
proof fn lemma_annealed_order<L, R: Scalar>(
    code: Ein<L>,
    size_dict: Map<L, usize>,
    config: TreeSA<R>,
    given: Option<Tree>,
    nested: Nested<L>,
) -> (run: (Tree, Tree))
    requires
        annealed_order(code, size_dict, config, given, nested),
        code.ixs.len() >= 2,
        code.ixs.len() <= usize::MAX,
        code.labels().len() <= usize::MAX,
        match given {
            Some(t) => t.labels_below(code.labels().len()),
            None => code.fits(),
        },
    ensures
        nested == code.order_of(run.1),
        run.0.annealed(
            run.1,
            config.betas@.len() * config.niters as nat,
            config.decomposition_type,
        ),
        match given {
            Some(t) => run.0 == t,
            None => {
                &&& run.0.is_plan_of(code.int_ixs(), code.int_iy())
                &&& config.decomposition_type == DecompositionType::Path ==> run.0.left_deep()
            },
        },
{
    let (table, trials, k) = choose|table: Seq<R>, trials: Seq<Trial<R>>, k: int| #[trigger]
        annealed_by(code, size_dict, config, given, nested, table, trials, k);
    let net = Instance { ixs: code.int_ixs(), iy: code.int_iy(), table };
    assert(table.len() == code.labels().len());
    crate::network::lemma_numbered(code);
    if given is None {
        crate::network::lemma_countable(code);
    }
    assert(net.yields(k as usize, given, config, trials[k]));
    let t = lemma_trial_below(net, k as usize, given, config, trials[k]);
    (t, trials[k].tree@)
}

/// Annealing gives an order of the expression, where it starts from one or from random trees.
pub proof fn annealing_gives_order<L, R: Scalar>(
    code: Ein<L>,
    size_dict: Map<L, usize>,
    config: TreeSA<R>,
    given: Option<Tree>,
    nested: Nested<L>,
)
    requires
        annealed_order(code, size_dict, config, given, nested),
        code.ixs.len() >= 2,
        code.ixs.len() <= usize::MAX,
        code.labels().len() <= usize::MAX,
        match given {
            Some(t) => t.labels_below(code.labels().len()) && t.is_plan_of(
                code.int_ixs(),
                code.int_iy(),
            ),
            None => code.fits(),
        },
    ensures
        nested.is_order_of(code),
{
    let (t, u) = lemma_annealed_order(code, size_dict, config, given, nested);
    crate::anneal::annealing_rearranges(
        t,
        u,
        config.betas@.len() * config.niters as nat,
        config.decomposition_type,
        code.int_iy().to_set(),
    );
    crate::network::lemma_numbered(code);
    crate::order::plan_gives_order(u, code, code.labels(), code.numbering());
}

/// Annealing for linear orders gives a linear order, where it starts from one or from random
/// trees.
pub proof fn annealing_gives_path<L, R: Scalar>(
    code: Ein<L>,
    size_dict: Map<L, usize>,
    config: TreeSA<R>,
    given: Option<Tree>,
    nested: Nested<L>,
)
    requires
        annealed_order(code, size_dict, config, given, nested),
        code.ixs.len() >= 2,
        code.ixs.len() <= usize::MAX,
        code.labels().len() <= usize::MAX,
        config.decomposition_type == DecompositionType::Path,
        match given {
            Some(t) => t.labels_below(code.labels().len()) && t.left_deep(),
            None => code.fits(),
        },
    ensures
        nested.linear(),
{
    let (t, u) = lemma_annealed_order(code, size_dict, config, given, nested);
    crate::anneal::annealing_rearranges(
        t,
        u,
        config.betas@.len() * config.niters as nat,
        config.decomposition_type,
        code.int_iy().to_set(),
    );
    crate::network::lemma_linear(u, code.ixs, code.labels(), code.iy);
}

/// Annealing that starts from an order keeps its tensors: those of the result are those of the
/// start, each as often. The result contracts them pairwise, and yields the output of the
/// expression.
pub proof fn annealing_keeps_tensors<L, R: Scalar>(
    code: Ein<L>,
    size_dict: Map<L, usize>,
    config: TreeSA<R>,
    seed: Nested<L>,
    nested: Nested<L>,
)
    requires
        crate::convert::readable(seed, code.numbering()),
        crate::convert::converted(seed, code.numbering()) is Some,
        annealed_order(
            code,
            size_dict,
            config,
            crate::convert::converted(seed, code.numbering()),
            nested,
        ),
        code.ixs.len() >= 2,
        code.ixs.len() <= usize::MAX,
        code.labels().len() <= usize::MAX,
    ensures
        nested.leaves().to_multiset() == seed.leaves().to_multiset(),
        nested.binary(),
        nested is Node,
        nested->eins.iy == code.iy,
{
    let t = crate::convert::converted(seed, code.numbering())->0;
    crate::network::lemma_numbered(code);
    crate::network::lemma_converted_below(seed, code.labels(), code.numbering(), t);
    crate::network::lemma_converted_ids(seed, code.numbering(), t);
    let (s, u) = lemma_annealed_order(code, size_dict, config, Some(t), nested);
    crate::anneal::annealing_rearranges(
        t,
        u,
        config.betas@.len() * config.niters as nat,
        config.decomposition_type,
        code.int_iy().to_set(),
    );
    crate::order::lemma_same_ids(t, u);
    crate::order::lemma_ordered_leaves(u, code.ixs, code.labels(), code.iy);
}

/// Annealing from a given tree never looks at how trials get a tree where none is given.
pub proof fn given_start_ignores_initializer<L, R: Scalar>(
    code: Ein<L>,
    size_dict: Map<L, usize>,
    config: TreeSA<R>,
    initializer: Initializer,
    t: Tree,
    nested: Nested<L>,
)
    ensures
        annealed_order(code, size_dict, config, Some(t), nested) <==> annealed_order(
            code,
            size_dict,
            (TreeSA { initializer, ..config }),
            Some(t),
            nested,
        ),
{
    let other = TreeSA { initializer, ..config };
    if annealed_order(code, size_dict, config, Some(t), nested) {
        lemma_initializer(code, size_dict, config, other, t, nested);
    }
    if annealed_order(code, size_dict, other, Some(t), nested) {
        lemma_initializer(code, size_dict, other, config, t, nested);
    }
}

/// What annealing from a given tree comes to under one setting it comes to under another one that
/// differs in the initializer only.
proof fn lemma_initializer<L, R: Scalar>(
    code: Ein<L>,
    size_dict: Map<L, usize>,
    config: TreeSA<R>,
    other: TreeSA<R>,
    t: Tree,
    nested: Nested<L>,
)
    requires
        annealed_order(code, size_dict, config, Some(t), nested),
        other == (TreeSA { initializer: other.initializer, ..config }),
    ensures
        annealed_order(code, size_dict, other, Some(t), nested),
{
    let given = Some(t);
    let (table, trials, k) = choose|table: Seq<R>, trials: Seq<Trial<R>>, k: int| #[trigger]
        annealed_by(code, size_dict, config, given, nested, table, trials, k);
    let net = Instance { ixs: code.int_ixs(), iy: code.int_iy(), table };
    assert forall|i: int| 0 <= i < trials.len() implies net.yields(
        i as usize,
        given,
        other,
        #[trigger] trials[i],
    ) by {
        assert(net.yields(i as usize, given, config, trials[i]));
        let trial = trials[i];
        let (s, rng0, rng1, rng2) = choose|
            s: Tree,
            rng0: SmallRng,
            rng1: SmallRng,
            rng2: SmallRng,
        | #[trigger]
            crate::random::started(seed_of(i as usize), rng0) && #[trigger] net.starts(
                given,
                config.decomposition_type,
                s,
                rng0,
                rng1,
            ) && #[trigger] net.anneals(config, s, trial.tree@, rng1, rng2);
        assert(net.anneals(other, s, trial.tree@, rng1, rng2));
        assert(net.starts(given, other.decomposition_type, s, rng0, rng1));
        assert(net.scores(other, trial.tree@, trial.score));
    }
    assert(annealed_by(code, size_dict, other, given, nested, table, trials, k));
}

/// Without a temperature, or without sweeps, annealing leaves the tree that it starts from.
pub proof fn no_sweeps_keep_start<L, R: Scalar>(
    code: Ein<L>,
    size_dict: Map<L, usize>,
    config: TreeSA<R>,
    t: Tree,
    nested: Nested<L>,
)
    requires
        annealed_order(code, size_dict, config, Some(t), nested),
        code.ixs.len() >= 2,
        code.ixs.len() <= usize::MAX,
        code.labels().len() <= usize::MAX,
        t.labels_below(code.labels().len()),
        config.betas@.len() == 0 || config.niters == 0,
    ensures
        nested == code.order_of(t),
{
    let (s, u) = lemma_annealed_order(code, size_dict, config, Some(t), nested);
    let sweeps: nat = config.betas@.len() * config.niters as nat;
    assert(sweeps == 0) by (nonlinear_arith)
        requires
            config.betas@.len() == 0 || config.niters == 0,
            sweeps == config.betas@.len() * config.niters as nat,
    ;
}

/// Whether annealing for `code` can come to `nested`.
pub open spec fn treesa_order<L, R: Scalar>(
    code: Ein<L>,
    size_dict: Map<L, usize>,
    config: TreeSA<R>,
    nested: Nested<L>,
) -> bool {
    match config.initializer {
        Initializer::Greedy => exists|t: Tree| #[trigger]
            greedy_start::<L, R>(code, size_dict, t) && annealed_order(
                code,
                size_dict,
                config,
                Some(t),
                nested,
            ),
        Initializer::Random => annealed_order(code, size_dict, config, None, nested),
    }
}

/// A contraction order for `code`, by annealing.
///
/// There is none for an expression without tensors, nor without trials. For a single tensor the
/// order only names it.
pub fn optimize_treesa<L: Label, R: Scalar>(
    code: &EinCode<L>,
    size_dict: &LabelMap<L>,
    config: &TreeSA<R>,
) -> (nested: Option<NestedEinsum<L>>)
    requires
        code@.ixs.len() >= 2 ==> crate::convert::covers(size_dict@, code@.labels()),
        config.initializer == Initializer::Random ==> code@.fits(),
    ensures
        nested is None <==> code@.ixs.len() == 0 || code@.ixs.len() >= 2 && config.ntrials == 0,
        nested matches Some(nested) ==> if code@.ixs.len() == 1 {
            nested@ == (Nested::<L>::Leaf { tensor_index: 0 })
        } else {
            &&& treesa_order(code@, size_dict@, *config, nested@)
            &&& nested@.is_order_of(code@)
            &&& config.decomposition_type == DecompositionType::Path && config.initializer
                == Initializer::Random ==> nested@.linear()
        },
{
    if code.num_tensors() == 0 {
        return None;
    }
    if code.num_tensors() == 1 {
        return Some(NestedEinsum::leaf(0));
    }
    let network: Network<L> = Network::new(code);
    proof {
        assert(network.labels@.len() == network.labels.len());
        assert(code.ixs@.len() == code.ixs.len());
    }
    let given: Option<ExprTree> = match config.initializer {
        Initializer::Greedy => init_greedy::<L, R>(
            code,
            size_dict,
            &network.label_map,
            &network.int_ixs,
            &network.int_iy,
        ),
        Initializer::Random => None,
    };
    let nested: Option<NestedEinsum<L>> = anneal(code, size_dict, &network, &given, config);
    proof {
        if nested is Some {
            let n = nested->0;
            let start = given_tree(given);
            annealing_gives_order(code@, size_dict@, *config, start, n@);
            if config.decomposition_type == DecompositionType::Path && config.initializer
                == Initializer::Random {
                annealing_gives_path(code@, size_dict@, *config, start, n@);
            }
            if config.initializer == Initializer::Greedy {
                assert(greedy_start::<L, R>(code@, size_dict@, start->0));
            }
        }
    }
    nested
}

/// A contraction order for `code`, by annealing that starts from the order `seed`.
///
/// The leaves of `seed` index the tensors of `code`, and so do those of the result. There is no
/// result for an expression without tensors, without trials, or where some expression in `seed`
/// does not take two arguments. For a single tensor the order only names it.
pub fn optimize_treesa_warm<L: Label, R: Scalar>(
    seed: &NestedEinsum<L>,
    code: &EinCode<L>,
    size_dict: &LabelMap<L>,
    config: &TreeSA<R>,
) -> (nested: Option<NestedEinsum<L>>)
    requires
        code@.ixs.len() >= 2 ==> crate::convert::covers(size_dict@, code@.labels()),
        code@.ixs.len() >= 2 ==> crate::convert::readable(seed@, code@.numbering()),
    ensures
        nested is None <==> code@.ixs.len() == 0 || code@.ixs.len() >= 2 && (config.ntrials == 0
            || crate::convert::converted(seed@, code@.numbering()) is None),
        nested matches Some(nested) ==> if code@.ixs.len() == 1 {
            nested@ == (Nested::<L>::Leaf { tensor_index: 0 })
        } else {
            &&& annealed_order(
                code@,
                size_dict@,
                *config,
                crate::convert::converted(seed@, code@.numbering()),
                nested@,
            )
            &&& nested@.leaves().to_multiset() == seed@.leaves().to_multiset()
            &&& nested@.binary()
            &&& nested@ is Node && nested@->eins.iy == code@.iy
            &&& seed@.is_order_of(code@) ==> nested@.is_order_of(code@)
            &&& seed@.is_order_of(code@) && (config.betas@.len() == 0 || config.niters == 0)
                ==> nested@ == seed@
        },
{
    if code.num_tensors() == 0 {
        return None;
    }
    if code.num_tensors() == 1 {
        return Some(NestedEinsum::leaf(0));
    }
    let network: Network<L> = Network::new(code);
    proof {
        assert(network.labels@.len() == network.labels.len());
        assert(code.ixs@.len() == code.ixs.len());
        crate::network::lemma_numbered(code@);
    }
    let tree: ExprTree = match nested_to_expr_tree(
        seed,
        &network.int_ixs,
        &network.int_iy,
        &network.label_map,
    ) {
        Some(tree) => tree,
        None => {
            return None;
        },
    };
    let ghost t = tree@;
    proof {
        crate::network::lemma_converted_below(seed@, code@.labels(), code@.numbering(), t);
    }
    let given: Option<ExprTree> = Some(tree);
    let nested: Option<NestedEinsum<L>> = anneal(code, size_dict, &network, &given, config);
    proof {
        if nested is Some {
            let n = nested->0;
            annealing_keeps_tensors(code@, size_dict@, *config, seed@, n@);
            if seed@.is_order_of(code@) {
                let plan = crate::order::order_gives_plan(
                    seed@,
                    code@,
                    code@.labels(),
                    code@.numbering(),
                );
                annealing_gives_order(code@, size_dict@, *config, Some(t), n@);
                if config.betas@.len() == 0 || config.niters == 0 {
                    no_sweeps_keep_start(code@, size_dict@, *config, t, n@);
                }
            }
        }
    }
    nested
}

} // verus!
