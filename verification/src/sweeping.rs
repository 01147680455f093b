//! That sweeps reach every node, and that sweeps and schedules come apart into shorter ones.

use crate::energy::Terms;
use crate::expr_tree::{DecompositionType, Rule, Tree};
use crate::ranking::stands_in;
use crate::scalar::Scalar;
use rand::rngs::SmallRng;
use vstd::prelude::*;

verus! {

/// For trees of any shape, the rewrites that are tried at a root are those of three subtrees that
/// fit there, and each stands in the list once.
pub proof fn every_fitting_rule_is_tried(t: Tree, rule: Rule)
    ensures
        t.applicable(DecompositionType::Tree).contains(rule) <==> t.fits(rule) && rule
            != Rule::Rule5,
        t.applicable(DecompositionType::Tree).no_duplicates(),
{
    let rules = t.applicable(DecompositionType::Tree);
    if let Tree::Node { left, right, .. } = t {
        if *left is Node {
            assert(rules[0] == Rule::Rule1 && rules[1] == Rule::Rule2);
            if *right is Node {
                assert(rules[2] == Rule::Rule3 && rules[3] == Rule::Rule4);
            }
        } else if *right is Node {
            assert(rules[0] == Rule::Rule3 && rules[1] == Rule::Rule4);
        }
    }
}

/// Where linear orders are looked for, the last two of three subtrees may change places where the
/// left child is no leaf, the two children where both are leaves, and nothing otherwise.
pub proof fn path_rewrites(t: Tree)
    ensures
        t is Leaf ==> t.applicable(DecompositionType::Path).len() == 0,
        t is Node && *t->left is Node ==> t.applicable(DecompositionType::Path) == seq![
            Rule::Rule1,
        ],
        t is Node && *t->left is Leaf && *t->right is Leaf ==> t.applicable(
            DecompositionType::Path,
        ) == seq![Rule::Rule5],
        t is Node && *t->left is Leaf && *t->right is Node ==> t.applicable(
            DecompositionType::Path,
        ).len() == 0,
{
}

/// For linear orders there is always one rewrite to try: the one that exchanges the last two of at
/// least three tensors, or the two where there are no more.
pub proof fn linear_order_has_one_rewrite(t: Tree)
    requires
        t.left_deep(),
        t is Node,
    ensures
        t.applicable(DecompositionType::Path).len() == 1,
        t.applicable(DecompositionType::Path)[0] == if t.leaf_count() > 2 {
            Rule::Rule1
        } else {
            Rule::Rule5
        },
{
    reveal_with_fuel(Tree::leaf_count, 3);
    if *t->left is Node {
        lemma_leaf(*t->left->left);
        lemma_leaf(*t->left->right);
    }
}

proof fn lemma_leaf(t: Tree)
    ensures
        t.leaf_count() > 0,
    decreases t,
{
    if t is Node {
        lemma_leaf(*t->left);
        lemma_leaf(*t->right);
    }
}

/// A sweep of a tree at whose root a rule applies tries a rewrite there, then sweeps the left child
/// of what that left with the generator as the try left it, and then the right child with the
/// generator as the sweep of the left one left it.
pub proof fn sweep_goes_down<R: Scalar>(
    t: Tree,
    u: Tree,
    beta: R,
    terms: Terms<R>,
    before: SmallRng,
    after: SmallRng,
) -> (at: (Tree, SmallRng, SmallRng))
    requires
        crate::sweep::swept_by(t, u, beta, terms, before, after),
        t.applicable(terms.decomp).len() > 0,
    ensures
        crate::sweep::tried(t, at.0, beta, terms, before, at.1),
        at.0 is Node && u is Node && u.info() == at.0.info(),
        crate::sweep::swept_by(*at.0->left, *u->left, beta, terms, at.1, at.2),
        crate::sweep::swept_by(*at.0->right, *u->right, beta, terms, at.2, after),
{
    choose|mid: Tree, rng1: SmallRng, rng2: SmallRng| #[trigger]
        crate::sweep::tried(t, mid, beta, terms, before, rng1)
            && #[trigger] crate::random::between(rng2) && mid is Node && u.info() == mid.info()
            && crate::sweep::swept_by(*mid->left, *u->left, beta, terms, rng1, rng2)
            && crate::sweep::swept_by(*mid->right, *u->right, beta, terms, rng2, after)
}

/// Whether a rewrite was tried that left a node with the labels of `w`, or `w` stands in a tree
/// that the sweep came to and at whose root no rule applies.
pub open spec fn reached<R: Scalar>(w: Tree, beta: R, terms: Terms<R>) -> bool {
    ||| exists|s: Tree, m: Tree, a: SmallRng, b: SmallRng| #[trigger]
        crate::sweep::tried(s, m, beta, terms, a, b) && m is Node && m.info() == w.info()
    ||| exists|s: Tree| #[trigger]
        stands_in(w, s) && s.applicable(terms.decomp).len() == 0
}

/// A sweep comes to every node of the tree that it leaves: at each one a rewrite was tried, unless
/// no rule applied there or above it.
pub proof fn sweep_reaches_every_node<R: Scalar>(
    t: Tree,
    u: Tree,
    w: Tree,
    beta: R,
    terms: Terms<R>,
    before: SmallRng,
    after: SmallRng,
)
    requires
        crate::sweep::swept_by(t, u, beta, terms, before, after),
        stands_in(w, u),
        w is Node,
    ensures
        reached(w, beta, terms),
    decreases u,
{
    if t.applicable(terms.decomp).len() == 0 {
        assert(stands_in(w, t));
    } else {
        let (mid, rng1, rng2) = sweep_goes_down(t, u, beta, terms, before, after);
        if w == u {
            assert(crate::sweep::tried(t, mid, beta, terms, before, rng1));
        } else if stands_in(w, *u->left) {
            sweep_reaches_every_node(*mid->left, *u->left, w, beta, terms, rng1, rng2);
        } else {
            sweep_reaches_every_node(*mid->right, *u->right, w, beta, terms, rng2, after);
        }
    }
}

/// One sweep at a temperature is a sweep, and no sweep leaves everything as it was.
pub proof fn one_sweep_is_a_sweep<R: Scalar>(
    t: Tree,
    u: Tree,
    beta: R,
    terms: Terms<R>,
    before: SmallRng,
    after: SmallRng,
)
    ensures
        crate::sweep::held_at(t, u, beta, 1, terms, before, after) <==> crate::sweep::swept_by(
            t,
            u,
            beta,
            terms,
            before,
            after,
        ),
        crate::sweep::held_at(t, u, beta, 0, terms, before, after) <==> u == t && after == before,
{
    reveal_with_fuel(crate::sweep::held_at, 2);
    assert(crate::sweep::held_at(t, t, beta, 0, terms, before, before));
}

/// Sweeps at one temperature, some and then more, are as many sweeps as the two together.
pub proof fn sweeps_compose<R: Scalar>(
    t: Tree,
    m: Tree,
    u: Tree,
    beta: R,
    x: nat,
    y: nat,
    terms: Terms<R>,
    before: SmallRng,
    mid: SmallRng,
    after: SmallRng,
)
    requires
        crate::sweep::held_at(t, m, beta, x, terms, before, mid),
        crate::sweep::held_at(m, u, beta, y, terms, mid, after),
    ensures
        crate::sweep::held_at(t, u, beta, x + y, terms, before, after),
    decreases y,
{
    if y > 0 {
        let (n, rng) = choose|n: Tree, rng: SmallRng|
            crate::sweep::held_at(m, n, beta, (y - 1) as nat, terms, mid, rng)
                && #[trigger] crate::sweep::swept_by(n, u, beta, terms, rng, after);
        sweeps_compose(t, m, n, beta, x, (y - 1) as nat, terms, before, mid, rng);
        assert((x + y - 1) as nat == x + (y - 1) as nat);
    }
}

/// As many sweeps as two numbers together come apart into the one and then the other.
pub proof fn sweeps_split<R: Scalar>(
    t: Tree,
    u: Tree,
    beta: R,
    x: nat,
    y: nat,
    terms: Terms<R>,
    before: SmallRng,
    after: SmallRng,
) -> (at: (Tree, SmallRng))
    requires
        crate::sweep::held_at(t, u, beta, x + y, terms, before, after),
    ensures
        crate::sweep::held_at(t, at.0, beta, x, terms, before, at.1),
        crate::sweep::held_at(at.0, u, beta, y, terms, at.1, after),
    decreases y,
{
    if y == 0 {
        (u, after)
    } else {
        let (n, rng) = choose|n: Tree, rng: SmallRng|
            crate::sweep::held_at(t, n, beta, (x + y - 1) as nat, terms, before, rng)
                && #[trigger] crate::sweep::swept_by(n, u, beta, terms, rng, after);
        assert((x + y - 1) as nat == x + (y - 1) as nat);
        let at = sweeps_split(t, n, beta, x, (y - 1) as nat, terms, before, rng);
        assert(crate::sweep::swept_by(n, u, beta, terms, rng, after));
        at
    }
}

/// A schedule of one temperature is the sweeps at it, and one of none leaves everything as it was.
pub proof fn one_temperature_is_held<R: Scalar>(
    t: Tree,
    u: Tree,
    beta: R,
    niters: nat,
    terms: Terms<R>,
    before: SmallRng,
    after: SmallRng,
)
    ensures
        crate::sweep::scheduled(t, u, seq![beta], niters, terms, before, after)
            <==> crate::sweep::held_at(t, u, beta, niters, terms, before, after),
        crate::sweep::scheduled(t, u, Seq::<R>::empty(), niters, terms, before, after) <==> u == t
            && after == before,
{
    let betas = seq![beta];
    assert(betas.drop_last() =~= Seq::<R>::empty());
    reveal_with_fuel(crate::sweep::scheduled, 2);
    assert(crate::sweep::scheduled(t, t, Seq::<R>::empty(), niters, terms, before, before));
    if crate::sweep::held_at(t, u, beta, niters, terms, before, after) {
        assert(crate::sweep::held_at(t, u, betas.last(), niters, terms, before, after));
    }
}

/// A schedule comes apart into the schedule of its first temperatures and then that of the others.
pub proof fn schedule_splits<R: Scalar>(
    t: Tree,
    u: Tree,
    first: Seq<R>,
    second: Seq<R>,
    niters: nat,
    terms: Terms<R>,
    before: SmallRng,
    after: SmallRng,
) -> (at: (Tree, SmallRng))
    requires
        crate::sweep::scheduled(t, u, first + second, niters, terms, before, after),
    ensures
        crate::sweep::scheduled(t, at.0, first, niters, terms, before, at.1),
        crate::sweep::scheduled(at.0, u, second, niters, terms, at.1, after),
    decreases second.len(),
{
    let betas = first + second;
    if second.len() == 0 {
        assert(betas =~= first);
        (u, after)
    } else {
        let (n, rng) = choose|n: Tree, rng: SmallRng|
            crate::sweep::scheduled(t, n, betas.drop_last(), niters, terms, before, rng)
                && #[trigger] crate::sweep::held_at(n, u, betas.last(), niters, terms, rng, after);
        assert(betas.drop_last() =~= first + second.drop_last());
        let at = schedule_splits(t, n, first, second.drop_last(), niters, terms, before, rng);
        assert(crate::sweep::held_at(n, u, second.last(), niters, terms, rng, after));
        at
    }
}

} // verus!
