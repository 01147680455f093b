//! That the trees which the optimizers form list no label twice, and hand up what they have to,
//! where the tensors list no label twice.

use crate::expr_tree::{DecompositionType, Rule, Tree};
use crate::init::{select, split_tree};
use crate::pairs::Gauge;
use crate::scalar::Scalar;
use crate::treesa::{Instance, TreeSA, Trial};
use rand::rngs::SmallRng;
use vstd::prelude::*;

verus! {

/// A rewrite keeps a tree that lists no label twice such a tree.
pub proof fn rewrite_keeps_neat(t: Tree, rule: Rule)
    requires
        t.neat(),
    ensures
        t.applied(rule).neat(),
{
    if t.fits(rule) {
        reveal_with_fuel(Tree::neat, 3);
        let l = *t->left;
        let r = *t->right;
        let d = t.dims();
        match rule {
            Rule::Rule1 => crate::expr_tree::lemma_needed(
                l->left.dims() + r.dims(),
                l->right.dims(),
                d,
            ),
            Rule::Rule2 => crate::expr_tree::lemma_needed(
                r.dims() + l->right.dims(),
                l->left.dims(),
                d,
            ),
            Rule::Rule3 => crate::expr_tree::lemma_needed(
                l.dims() + r->right.dims(),
                r->left.dims(),
                d,
            ),
            Rule::Rule4 => crate::expr_tree::lemma_needed(
                r->left.dims() + l.dims(),
                r->right.dims(),
                d,
            ),
            Rule::Rule5 => {},
        }
    }
}

/// A sweep keeps a tree that lists no label twice such a tree.
pub proof fn sweep_keeps_neat(t: Tree, u: Tree, decomp: DecompositionType)
    requires
        t.swept(u, decomp),
        t.neat(),
    ensures
        u.neat(),
    decreases u,
{
    if t.applicable(decomp).len() > 0 {
        let mid = choose|mid: Tree| #[trigger]
            t.moved(mid, decomp) && mid is Node && u.info() == mid.info() && mid->left.swept(
                *u->left,
                decomp,
            ) && mid->right.swept(*u->right, decomp);
        if mid != t {
            let rule = choose|rule: Rule|
                t.applicable(decomp).contains(rule) && mid == #[trigger] t.applied(rule);
            rewrite_keeps_neat(t, rule);
        }
        sweep_keeps_neat(*mid->left, *u->left, decomp);
        sweep_keeps_neat(*mid->right, *u->right, decomp);
        assert(u.dims() == mid.dims());
    }
}

/// Annealing keeps a tree that lists no label twice such a tree.
pub proof fn annealing_keeps_neat(t: Tree, u: Tree, sweeps: nat, decomp: DecompositionType)
    requires
        t.annealed(u, sweeps, decomp),
        t.neat(),
    ensures
        u.neat(),
    decreases sweeps,
{
    if sweeps > 0 {
        let mid = choose|mid: Tree|
            t.annealed(mid, (sweeps - 1) as nat, decomp) && #[trigger] mid.swept(u, decomp);
        annealing_keeps_neat(t, mid, (sweeps - 1) as nat, decomp);
        sweep_keeps_neat(mid, u, decomp);
    }
}

/// What a group of tensors shares with the others lists no label twice.
proof fn lemma_shared_once(outer: Seq<usize>, all: Seq<usize>, n: nat)
    requires
        n <= usize::MAX + 1,
    ensures
        crate::init::shared(outer, all, n).no_duplicates(),
        forall|k: int|
            0 <= k < crate::init::shared(outer, all, n).len() ==> (#[trigger] crate::init::shared(
                outer,
                all,
                n,
            )[k]) < n,
    decreases n,
{
    if n > 0 {
        lemma_shared_once(outer, all, (n - 1) as nat);
    }
}

/// A tree that comes of splitting tensors which list no label twice lists none twice.
pub proof fn split_tree_is_neat(
    t: Tree,
    ixs: Seq<Seq<usize>>,
    ids: Seq<usize>,
    outer: Seq<usize>,
    all: Seq<usize>,
    decomp: DecompositionType,
)
    requires
        split_tree(t, ixs, ids, outer, all, decomp),
        outer.len() <= usize::MAX,
        forall|k: int| 0 <= k < ixs.len() ==> (#[trigger] ixs[k]).no_duplicates(),
    ensures
        t.neat(),
    decreases t,
{
    if ixs.len() != 1 {
        let mask = choose|mask: Seq<bool>| #[trigger]
            crate::init::splits(mask, ixs.len(), decomp) && split_tree(
                *t->left,
                select(ixs, mask, true),
                select(ids, mask, true),
                crate::init::bumped(outer, select(ixs, mask, false)),
                all,
                decomp,
            ) && split_tree(
                *t->right,
                select(ixs, mask, false),
                select(ids, mask, false),
                crate::init::bumped(outer, select(ixs, mask, true)),
                all,
                decomp,
            );
        lemma_shared_once(outer, all, outer.len());
        lemma_select_once(ixs, mask, true);
        lemma_select_once(ixs, mask, false);
        split_tree_is_neat(
            *t->left,
            select(ixs, mask, true),
            select(ids, mask, true),
            crate::init::bumped(outer, select(ixs, mask, false)),
            all,
            decomp,
        );
        split_tree_is_neat(
            *t->right,
            select(ixs, mask, false),
            select(ids, mask, false),
            crate::init::bumped(outer, select(ixs, mask, true)),
            all,
            decomp,
        );
    } else {
        assert(ixs[0].no_duplicates());
    }
}

proof fn lemma_select_once(ixs: Seq<Seq<usize>>, mask: Seq<bool>, keep: bool)
    requires
        forall|k: int| 0 <= k < ixs.len() ==> (#[trigger] ixs[k]).no_duplicates(),
    ensures
        forall|k: int|
            0 <= k < select(ixs, mask, keep).len() ==> (#[trigger] select(
                ixs,
                mask,
                keep,
            )[k]).no_duplicates(),
    decreases ixs.len(),
{
    if ixs.len() > 0 {
        let rest = ixs.drop_last();
        assert forall|k: int| 0 <= k < rest.len() implies (#[trigger] rest[k]).no_duplicates() by {
            assert(ixs[k].no_duplicates());
        }
        lemma_select_once(rest, mask, keep);
        assert(ixs[ixs.len() - 1].no_duplicates());
        let kept = select(ixs, mask, keep);
        let before = select(rest, mask, keep);
        assert forall|k: int| 0 <= k < kept.len() implies (#[trigger] kept[k]).no_duplicates() by {
            if k < before.len() {
                assert(before[k].no_duplicates());
                assert(kept[k] == before[k]);
            } else {
                assert(kept[k] == ixs.last());
            }
        }
    }
}

/// A tree that is built greedily of tensors which list no label twice lists none twice.
pub proof fn built_tree_is_neat<R: Scalar>(
    g: Gauge,
    s: Seq<Tree>,
    temperature: Option<R>,
    u: Tree,
    before: SmallRng,
    after: SmallRng,
)
    requires
        crate::greedy::built(g, s, temperature, u, before, after),
        forall|k: int| 0 <= k < s.len() ==> (#[trigger] s[k]).neat(),
    ensures
        u.neat(),
    decreases s.len(),
{
    if s.len() >= 2 {
        let (p, q, next, rng) = crate::counting::greedy_goes_on(
            g,
            s,
            temperature,
            u,
            before,
            after,
        );
        assert forall|k: int| 0 <= k < next.len() implies (#[trigger] next[k]).neat() by {
            if k == p {
                assert(s[p].neat() && s[q].neat());
            } else if k < q {
                assert(next[k] == s[k]);
            } else {
                assert(next[k] == s[k + 1]);
            }
        }
        built_tree_is_neat(g, next, temperature, u, rng, after);
    } else {
        assert(s[0].neat());
    }
}

/// A trial that starts from a tree which lists no label twice, or from tensors that do not, comes
/// to such a tree.
pub proof fn trial_tree_is_neat<R: Scalar>(
    net: Instance<R>,
    index: usize,
    given: Option<Tree>,
    config: TreeSA<R>,
    trial: Trial<R>,
)
    requires
        net.yields(index, given, config, trial),
        net.ready(given),
        net.table.len() <= usize::MAX,
        net.ixs.len() <= usize::MAX,
        given matches Some(t) ==> t.neat(),
        given is None ==> forall|k: int|
            0 <= k < net.ixs.len() ==> (#[trigger] net.ixs[k]).no_duplicates(),
    ensures
        trial.tree@.neat(),
        trial.tree@.labels_below(net.table.len()),
{
    let (t, rng0, rng1, rng2, _) = crate::splitting::trial_is_made_of_parts(
        net,
        index,
        given,
        config,
        trial,
    );
    let decomp = config.decomposition_type;
    if given is None {
        let outer = crate::init::output_counts(net.iy, net.table.len());
        crate::init::drawn_split_is_split(
            t,
            net.ixs,
            crate::init::first_ids(net.ixs.len()),
            outer,
            crate::init::bumped(outer, net.ixs),
            decomp,
            rng0,
            rng1,
        );
        split_tree_is_neat(
            t,
            net.ixs,
            crate::init::first_ids(net.ixs.len()),
            outer,
            crate::init::bumped(outer, net.ixs),
            decomp,
        );
        crate::treesa::lemma_random_below(net, decomp, t, rng0, rng1);
    }
    let sweeps: nat = config.betas@.len() * config.niters as nat;
    crate::sweep::run_anneals(
        t,
        trial.tree@,
        net.table,
        config.betas@,
        config.niters as nat,
        config.score,
        decomp,
        rng1,
        rng2,
        net.table.len(),
    );
    annealing_keeps_neat(t, trial.tree@, sweeps, decomp);
}

/// A tree that hands up exactly what is needed outside of each node hands up labels of the children
/// of each node only.
pub proof fn consistent_tree_hands_up_own(t: Tree, outside: Set<usize>)
    requires
        t.consistent(outside),
    ensures
        t.hands_up_own(),
    decreases t,
{
    if let Tree::Node { left, right, info } = t {
        let lo = outside + right.label_set();
        let ro = outside + left.label_set();
        consistent_tree_hands_up_own(*left, lo);
        consistent_tree_hands_up_own(*right, ro);
        assert forall|l: usize| #[trigger] info.dims.contains(l) implies left.dims().contains(l)
            || right.dims().contains(l) by {
            assert(t.occurs(l) && outside.contains(l));
            crate::plan::lemma_handed_up(*left, lo, l);
            crate::plan::lemma_handed_up(*right, ro, l);
        }
    }
}

} // verus!
