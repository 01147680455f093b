//! Contraction trees by random splitting.

use crate::expr_tree::{DecompositionType, ExprTree, Info, Tree};
use rand::rngs::SmallRng;
use vstd::prelude::*;

verus! {

/// How often `dims` lists the label `l`.
pub open spec fn count(dims: Seq<usize>, l: usize) -> nat
    decreases dims.len(),
{
    if dims.len() == 0 {
        0
    } else {
        count(dims.drop_last(), l) + (if dims.last() == l {
            1nat
        } else {
            0
        })
    }
}

/// How often the lists of `ixs` together list the label `l`.
pub open spec fn total(ixs: Seq<Seq<usize>>, l: usize) -> nat
    decreases ixs.len(),
{
    if ixs.len() == 0 {
        0
    } else {
        total(ixs.drop_last(), l) + count(ixs.last(), l)
    }
}

/// The elements of `s` at whose place `mask` holds `keep`.
pub open spec fn select<T>(s: Seq<T>, mask: Seq<bool>, keep: bool) -> Seq<T>
    decreases s.len(),
{
    if s.len() == 0 {
        Seq::empty()
    } else {
        let before = select(s.drop_last(), mask, keep);
        if mask[s.len() - 1] == keep {
            before.push(s.last())
        } else {
            before
        }
    }
}

/// The counts `counts`, with the labels of `ixs` counted in.
pub open spec fn bumped(counts: Seq<usize>, ixs: Seq<Seq<usize>>) -> Seq<usize> {
    Seq::new(counts.len(), |l: int| (counts[l] + total(ixs, l as usize)) as usize)
}

/// The labels below `n`, in order, that occur inside of a group of tensors as well as outside of
/// it, where `outer` counts the occurrences outside and `all` counts all of them.
pub open spec fn shared(outer: Seq<usize>, all: Seq<usize>, n: nat) -> Seq<usize>
    decreases n,
{
    if n == 0 {
        Seq::empty()
    } else {
        let before = shared(outer, all, (n - 1) as nat);
        if outer[n - 1] != all[n - 1] && outer[n - 1] != 0 {
            before.push((n - 1) as usize)
        } else {
            before
        }
    }
}

/// Whether `mask` holds both truth values.
pub open spec fn mixed(mask: Seq<bool>) -> bool {
    mask.contains(true) && mask.contains(false)
}

/// Whether `mask` may split `n` tensors: for a tree into any two groups, for a linear order into
/// the last tensor and the others.
pub open spec fn splits(mask: Seq<bool>, n: nat, decomp: DecompositionType) -> bool {
    &&& mask.len() == n
    &&& match decomp {
        DecompositionType::Tree => mixed(mask),
        DecompositionType::Path => mask == Seq::new(n, |k: int| k != n - 1),
    }
}

/// Whether `t` comes of splitting the tensors with the labels `ixs` and the indices `ids` again
/// and again.
///
/// `outer` counts, for each label, its occurrences outside of these tensors, and `all` counts all
/// of its occurrences. Every node hands up the labels that occur inside and outside of it.
pub open spec fn split_tree(
    t: Tree,
    ixs: Seq<Seq<usize>>,
    ids: Seq<usize>,
    outer: Seq<usize>,
    all: Seq<usize>,
    decomp: DecompositionType,
) -> bool
    decreases t,
{
    if ixs.len() == 1 {
        t == Tree::Leaf(Info { dims: ixs[0], id: Some(ids[0]) })
    } else {
        &&& t is Node
        &&& t.info() == (Info { dims: shared(outer, all, outer.len()), id: None })
        &&& exists|mask: Seq<bool>| #[trigger]
            splits(mask, ixs.len(), decomp) && split_tree(
                *t->left,
                select(ixs, mask, true),
                select(ids, mask, true),
                bumped(outer, select(ixs, mask, false)),
                all,
                decomp,
            ) && split_tree(
                *t->right,
                select(ixs, mask, false),
                select(ids, mask, false),
                bumped(outer, select(ixs, mask, true)),
                all,
                decomp,
            )
    }
}

/// Whether truth values drawn from the state `before` on can be `coins`, and leave the state
/// `after`.
pub open spec fn coins_drawn(coins: Seq<bool>, before: SmallRng, after: SmallRng) -> bool
    decreases coins.len(),
{
    if coins.len() == 0 {
        after == before
    } else {
        exists|rng: SmallRng|
            coins_drawn(coins.drop_last(), before, rng) && #[trigger] crate::random::coin_drawn(
                rng,
                coins.last(),
                after,
            )
    }
}

/// Whether the mask by which `n` tensors split, drawn from the state `before`, can be `mask`, and
/// leave the state `after`.
///
/// For a tree a truth value is drawn for each tensor. Where all of them come out the same, one that
/// is drawn is turned over. For a linear order nothing is drawn.
pub open spec fn mask_drawn(
    mask: Seq<bool>,
    n: nat,
    decomp: DecompositionType,
    before: SmallRng,
    after: SmallRng,
) -> bool {
    match decomp {
        DecompositionType::Tree => exists|coins: Seq<bool>, rng: SmallRng|
            coins.len() == n && #[trigger] coins_drawn(coins, before, rng) && if mixed(coins) {
                mask == coins && after == rng
            } else {
                mended(coins, mask, rng, after)
            },
        DecompositionType::Path => splits(mask, n, decomp) && after == before,
    }
}

/// Whether turning over one of `coins`, drawn from the state `before`, can give `mask` and leave
/// the state `after`.
pub open spec fn mended(
    coins: Seq<bool>,
    mask: Seq<bool>,
    before: SmallRng,
    after: SmallRng,
) -> bool {
    exists|k: usize|
        k < coins.len() && #[trigger] crate::random::index_drawn(
            coins.len() as usize,
            before,
            k,
            after,
        ) && mask == coins.update(k as int, !coins[k as int])
}

/// As [`split_tree`], with masks that are drawn from the state `before` on: for the root, then for
/// the left and for the right child. The state `after` is left.
pub open spec fn split_drawn(
    t: Tree,
    ixs: Seq<Seq<usize>>,
    ids: Seq<usize>,
    outer: Seq<usize>,
    all: Seq<usize>,
    decomp: DecompositionType,
    before: SmallRng,
    after: SmallRng,
) -> bool
    decreases t,
{
    if ixs.len() == 1 {
        t == Tree::Leaf(Info { dims: ixs[0], id: Some(ids[0]) }) && after == before
    } else {
        &&& t is Node
        &&& t.info() == (Info { dims: shared(outer, all, outer.len()), id: None })
        &&& exists|mask: Seq<bool>, rng1: SmallRng, rng2: SmallRng| #[trigger]
            mask_drawn(mask, ixs.len(), decomp, before, rng1) && #[trigger] crate::random::between(
                rng2,
            ) && split_drawn(
                *t->left,
                select(ixs, mask, true),
                select(ids, mask, true),
                bumped(outer, select(ixs, mask, false)),
                all,
                decomp,
                rng1,
                rng2,
            ) && split_drawn(
                *t->right,
                select(ixs, mask, false),
                select(ids, mask, false),
                bumped(outer, select(ixs, mask, true)),
                all,
                decomp,
                rng2,
                after,
            )
    }
}

/// The lists of labels, read as sequences.
pub open spec fn lists(ixs: Seq<Vec<usize>>) -> Seq<Seq<usize>> {
    ixs.map_values(|ix: Vec<usize>| ix@)
}

/// Whether every label of `ixs` is below `n`.
pub open spec fn bounded(ixs: Seq<Seq<usize>>, n: nat) -> bool {
    forall|i: int, j: int| 0 <= i < ixs.len() && 0 <= j < ixs[i].len() ==> #[trigger] ixs[i][j] < n
}

proof fn lemma_select<T>(s: Seq<T>, mask: Seq<bool>, keep: bool)
    requires
        s.len() <= mask.len(),
    ensures
        select(s, mask, true).len() + select(s, mask, false).len() == s.len(),
        (exists|k: int| 0 <= k < s.len() && mask[k] == keep) ==> select(s, mask, keep).len() > 0,
        forall|k: int|
            0 <= k < select(s, mask, keep).len() ==> s.contains(#[trigger] select(s, mask, keep)[k]),
    decreases s.len(),
{
    if s.len() > 0 {
        let rest = s.drop_last();
        lemma_select(rest, mask, keep);
        assert forall|k: int| 0 <= k < select(s, mask, keep).len() implies s.contains(
            #[trigger] select(s, mask, keep)[k],
        ) by {
            let before = select(rest, mask, keep);
            if k < before.len() {
                assert(rest.contains(before[k]));
                assert(s[rest.index_of(before[k])] == before[k]);
            } else {
                assert(s[s.len() - 1] == s.last());
            }
        }
    }
}

proof fn lemma_select_len<T, U>(s: Seq<T>, r: Seq<U>, mask: Seq<bool>, keep: bool)
    requires
        s.len() == r.len(),
    ensures
        select(s, mask, keep).len() == select(r, mask, keep).len(),
    decreases s.len(),
{
    if s.len() > 0 {
        lemma_select_len(s.drop_last(), r.drop_last(), mask, keep);
    }
}

proof fn lemma_total_push(ixs: Seq<Seq<usize>>, ix: Seq<usize>, l: usize)
    ensures
        total(ixs.push(ix), l) == total(ixs, l) + count(ix, l),
{
    assert(ixs.push(ix).drop_last() =~= ixs);
}

proof fn lemma_total_select(ixs: Seq<Seq<usize>>, mask: Seq<bool>, l: usize)
    ensures
        total(select(ixs, mask, true), l) + total(select(ixs, mask, false), l) == total(ixs, l),
    decreases ixs.len(),
{
    if ixs.len() > 0 {
        let rest = ixs.drop_last();
        lemma_total_select(rest, mask, l);
        lemma_total_push(select(rest, mask, true), ixs.last(), l);
        lemma_total_push(select(rest, mask, false), ixs.last(), l);
    }
}

/// Counts the labels of `dims` in.
fn count_in(counts: &mut Vec<usize>, dims: &Vec<usize>)
    requires
        forall|j: int| 0 <= j < dims.len() ==> (#[trigger] dims[j]) < old(counts).len(),
        forall|l: int|
            0 <= l < old(counts).len() ==> #[trigger] old(counts)[l] + count(dims@, l as usize)
                <= usize::MAX,
    ensures
        final(counts).len() == old(counts).len(),
        forall|l: int|
            0 <= l < old(counts).len() ==> #[trigger] final(counts)[l] == old(counts)[l] + count(
                dims@,
                l as usize,
            ),
{
    let ghost start = counts@;
    let mut k: usize = 0;
    while k < dims.len()
        invariant
            k <= dims.len(),
            counts.len() == start.len(),
            forall|j: int| 0 <= j < dims.len() ==> (#[trigger] dims[j]) < start.len(),
            forall|l: int|
                0 <= l < start.len() ==> #[trigger] start[l] + count(dims@, l as usize)
                    <= usize::MAX,
            forall|l: int|
                0 <= l < start.len() ==> #[trigger] counts[l] == start[l] + count(
                    dims@.take(k as int),
                    l as usize,
                ),
        decreases dims.len() - k,
    {
        let l: usize = dims[k];
        proof {
            assert(dims@.take(k + 1).drop_last() =~= dims@.take(k as int));
            lemma_count_take(dims@, k + 1, l);
            assert(start[l as int] + count(dims@, l) <= usize::MAX);
        }
        counts.set(l, counts[l] + 1);
        k = k + 1;
    }
    assert(dims@.take(k as int) =~= dims@);
}

proof fn lemma_count_take(dims: Seq<usize>, k: int, l: usize)
    requires
        0 <= k <= dims.len(),
    ensures
        count(dims.take(k), l) <= count(dims, l),
    decreases dims.len(),
{
    if k < dims.len() {
        lemma_count_take(dims.drop_last(), k, l);
        assert(dims.drop_last().take(k) =~= dims.take(k));
    } else {
        assert(dims.take(k) =~= dims);
    }
}

/// The counts `counts`, with the labels counted in of those lists of `ixs` at whose place `mask`
/// holds `keep`.
fn counts_of_side(
    counts: &Vec<usize>,
    ixs: &Vec<Vec<usize>>,
    mask: &Vec<bool>,
    keep: bool,
) -> (result: Vec<usize>)
    requires
        mask.len() == ixs.len(),
        bounded(lists(ixs@), counts.len() as nat),
        forall|l: int|
            0 <= l < counts.len() ==> #[trigger] counts[l] + total(lists(ixs@), l as usize)
                <= usize::MAX,
    ensures
        result@ == bumped(counts@, select(lists(ixs@), mask@, keep)),
{
    let mut result: Vec<usize> = crate::expr_tree::copy_dims(counts);
    let ghost all = lists(ixs@);
    let mut k: usize = 0;
    while k < ixs.len()
        invariant
            k <= ixs.len(),
            all == lists(ixs@),
            mask.len() == ixs.len(),
            result.len() == counts.len(),
            bounded(all, counts.len() as nat),
            forall|l: int|
                0 <= l < counts.len() ==> #[trigger] counts[l] + total(all, l as usize)
                    <= usize::MAX,
            forall|l: int|
                0 <= l < counts.len() ==> #[trigger] result[l] == counts[l] + total(
                    select(all.take(k as int), mask@, keep),
                    l as usize,
                ),
        decreases ixs.len() - k,
    {
        let ghost before = select(all.take(k as int), mask@, keep);
        proof {
            assert(all.take(k + 1).drop_last() =~= all.take(k as int));
            assert(all[k as int] == ixs[k as int]@);
        }
        if mask[k] == keep {
            proof {
                assert forall|l: int| 0 <= l < counts.len() implies #[trigger] result[l] + count(
                    ixs[k as int]@,
                    l as usize,
                ) <= usize::MAX by {
                    lemma_total_push(before, ixs[k as int]@, l as usize);
                    lemma_total_select(all.take(k + 1), mask@, l as usize);
                    lemma_total_take(all, k + 1, l as usize);
                    assert(counts[l] + total(all, l as usize) <= usize::MAX);
                }
                assert forall|j: int| 0 <= j < ixs[k as int].len() implies (#[trigger] ixs[k as int][j])
                    < result.len() by {
                    assert(all[k as int][j] < counts.len());
                }
            }
            let ghost prior = result@;
            count_in(&mut result, &ixs[k]);
            proof {
                assert forall|l: int| 0 <= l < counts.len() implies #[trigger] result[l]
                    == counts[l] + total(select(all.take(k + 1), mask@, keep), l as usize) by {
                    lemma_total_push(before, ixs[k as int]@, l as usize);
                    assert(prior[l] == counts[l] + total(before, l as usize));
                }
            }
        }
        k = k + 1;
    }
    proof {
        assert(all.take(k as int) =~= all);
        assert forall|l: int| 0 <= l < counts.len() implies #[trigger] result[l] == bumped(
            counts@,
            select(all, mask@, keep),
        )[l] by {
            lemma_total_select(all, mask@, l as usize);
            assert(counts[l] + total(all, l as usize) <= usize::MAX);
        }
        assert(result@ =~= bumped(counts@, select(all, mask@, keep)));
    }
    result
}

proof fn lemma_total_take(ixs: Seq<Seq<usize>>, k: int, l: usize)
    requires
        0 <= k <= ixs.len(),
    ensures
        total(ixs.take(k), l) <= total(ixs, l),
    decreases ixs.len(),
{
    if k < ixs.len() {
        lemma_total_take(ixs.drop_last(), k, l);
        assert(ixs.drop_last().take(k) =~= ixs.take(k));
    } else {
        assert(ixs.take(k) =~= ixs);
    }
}

/// The lists of `ixs` at whose place `mask` holds `keep`.
fn lists_of_side(ixs: &Vec<Vec<usize>>, mask: &Vec<bool>, keep: bool) -> (side: Vec<Vec<usize>>)
    requires
        mask.len() == ixs.len(),
    ensures
        lists(side@) == select(lists(ixs@), mask@, keep),
{
    let mut side: Vec<Vec<usize>> = Vec::new();
    let ghost all = lists(ixs@);
    let mut k: usize = 0;
    assert(lists(side@) =~= select(all.take(0), mask@, keep));
    while k < ixs.len()
        invariant
            k <= ixs.len(),
            all == lists(ixs@),
            mask.len() == ixs.len(),
            lists(side@) == select(all.take(k as int), mask@, keep),
        decreases ixs.len() - k,
    {
        proof {
            assert(all.take(k + 1).drop_last() =~= all.take(k as int));
            assert(all[k as int] == ixs[k as int]@);
        }
        if mask[k] == keep {
            let ghost prior = side@;
            side.push(crate::expr_tree::copy_dims(&ixs[k]));
            assert(lists(side@) =~= lists(prior).push(all[k as int]));
        }
        k = k + 1;
    }
    assert(all.take(k as int) =~= all);
    side
}

/// The elements of `ids` at whose place `mask` holds `keep`.
fn ids_of_side(ids: &Vec<usize>, mask: &Vec<bool>, keep: bool) -> (side: Vec<usize>)
    requires
        mask.len() == ids.len(),
    ensures
        side@ == select(ids@, mask@, keep),
{
    let mut side: Vec<usize> = Vec::new();
    let mut k: usize = 0;
    while k < ids.len()
        invariant
            k <= ids.len(),
            mask.len() == ids.len(),
            side@ == select(ids@.take(k as int), mask@, keep),
        decreases ids.len() - k,
    {
        assert(ids@.take(k + 1).drop_last() =~= ids@.take(k as int));
        if mask[k] == keep {
            side.push(ids[k]);
        }
        k = k + 1;
    }
    assert(ids@.take(k as int) =~= ids@);
    side
}

/// The labels below `nedge`, in order, that occur inside of a group of tensors as well as outside
/// of it, where `outer` counts the occurrences outside and `all` counts all of them.
pub fn shared_labels(outer: &Vec<usize>, all: &Vec<usize>, nedge: usize) -> (labels: Vec<usize>)
    requires
        nedge <= outer.len(),
        nedge <= all.len(),
    ensures
        labels@ == shared(outer@, all@, nedge as nat),
{
    let mut labels: Vec<usize> = Vec::new();
    let mut l: usize = 0;
    while l < nedge
        invariant
            l <= nedge,
            nedge <= outer.len(),
            nedge <= all.len(),
            labels@ == shared(outer@, all@, l as nat),
        decreases nedge - l,
    {
        if outer[l] != all[l] && outer[l] != 0 {
            labels.push(l);
        }
        l = l + 1;
    }
    labels
}

/// Whether every element of `mask` is `value`.
fn is_all(mask: &Vec<bool>, value: bool) -> (b: bool)
    ensures
        b == !mask@.contains(!value),
{
    let mut k: usize = 0;
    while k < mask.len()
        invariant
            k <= mask.len(),
            forall|j: int| 0 <= j < k ==> mask[j] == value,
        decreases mask.len() - k,
    {
        if mask[k] != value {
            return false;
        }
        k = k + 1;
    }
    true
}

/// `mask` itself where it holds both truth values, else `mask` with its element `k` negated.
pub fn mend_mask(mask: Vec<bool>, k: usize) -> (mended: Vec<bool>)
    requires
        k < mask.len(),
    ensures
        mended@ == if mixed(mask@) {
            mask@
        } else {
            mask@.update(k as int, !mask@[k as int])
        },
        mask.len() >= 2 ==> mixed(mended@),
{
    let mut mended = mask;
    if is_all(&mended, true) || is_all(&mended, false) {
        let bit: bool = mended[k];
        mended.set(k, !bit);
        proof {
            assert(!mixed(mask@));
            if mask.len() >= 2 {
                let other: int = if k == 0 {
                    1
                } else {
                    0
                };
                assert(mask@[other] == bit) by {
                    if mask@[other] != bit {
                        assert(mask@.contains(mask@[other]));
                        assert(mask@.contains(mask@[k as int]));
                    }
                }
                assert(mended@[other] == bit);
                assert(mended@[k as int] == !bit);
            }
        }
    }
    mended
}

/// Draws how `n` tensors split into two groups.
fn draw_mask(n: usize, decomp: DecompositionType, rng: &mut SmallRng) -> (mask: Vec<bool>)
    requires
        n >= 2,
    ensures
        splits(mask@, n as nat, decomp),
        mask_drawn(mask@, n as nat, decomp, *old(rng), *final(rng)),
        decomp == DecompositionType::Path ==> *final(rng) == *old(rng),
{
    let mut mask: Vec<bool> = Vec::new();
    let ghost start = *rng;
    match decomp {
        DecompositionType::Tree => {
            while mask.len() < n
                invariant
                    mask.len() <= n,
                    coins_drawn(mask@, start, *rng),
                decreases n - mask.len(),
            {
                let ghost before = mask@;
                let ghost before_rng = *rng;
                let coin: bool = crate::random::draw_coin(rng);
                mask.push(coin);
                proof {
                    assert(mask@.drop_last() =~= before);
                    assert(crate::random::coin_drawn(before_rng, mask@.last(), *rng));
                }
            }
            let ghost coins = mask@;
            let ghost rng1 = *rng;
            assert(coins_drawn(coins, start, rng1));
            if is_all(&mask, true) || is_all(&mask, false) {
                let k: usize = crate::random::draw_index(n, rng);
                let result: Vec<bool> = mend_mask(mask, k);
                proof {
                    assert(!mixed(coins));
                    assert(crate::random::index_drawn(coins.len() as usize, rng1, k, *rng));
                    assert(mended(coins, result@, rng1, *rng));
                }
                result
            } else {
                assert(mixed(coins));
                mask
            }
        },
        DecompositionType::Path => {
            while mask.len() < n
                invariant
                    mask.len() <= n,
                    mask@ == Seq::new(mask.len() as nat, |k: int| k != n - 1),
                decreases n - mask.len(),
            {
                mask.push(mask.len() != n - 1);
                assert(mask@ =~= Seq::new(mask.len() as nat, |k: int| k != n - 1));
            }
            mask
        },
    }
}

/// A contraction tree for the tensors with the labels `ixs` and the indices `xindices`, by
/// splitting them again and again.
///
/// `outercount` counts, for each label, its occurrences outside of these tensors, and `allcount`
/// counts all of its occurrences.
pub fn init_random_recursive(
    ixs: &Vec<Vec<usize>>,
    xindices: &Vec<usize>,
    outercount: Vec<usize>,
    allcount: &Vec<usize>,
    nedge: usize,
    decomp: DecompositionType,
    rng: &mut SmallRng,
) -> (tree: ExprTree)
    requires
        ixs.len() >= 1,
        xindices.len() == ixs.len(),
        ixs.len() >= 2 ==> {
            &&& outercount.len() == nedge
            &&& allcount.len() == nedge
            &&& bounded(lists(ixs@), nedge as nat)
            &&& forall|l: int|
                0 <= l < nedge ==> #[trigger] outercount[l] + total(lists(ixs@), l as usize)
                    <= usize::MAX
        },
    ensures
        split_tree(tree@, lists(ixs@), xindices@, outercount@, allcount@, decomp),
        split_drawn(
            tree@,
            lists(ixs@),
            xindices@,
            outercount@,
            allcount@,
            decomp,
            *old(rng),
            *final(rng),
        ),
        decomp == DecompositionType::Path ==> *final(rng) == *old(rng),
    decreases ixs.len(),
{
    let n: usize = ixs.len();
    let ghost all = lists(ixs@);
    if n == 1 {
        assert(all[0] == ixs[0]@);
        return ExprTree::leaf(crate::expr_tree::copy_dims(&ixs[0]), xindices[0]);
    }
    let mask = draw_mask(n, decomp, rng);
    proof {
        lemma_splits_mixed(mask@, n as nat, decomp);
        lemma_select(all, mask@, true);
        lemma_select(all, mask@, false);
        lemma_select_len(all, xindices@, mask@, true);
        lemma_select_len(all, xindices@, mask@, false);
        lemma_bounded_select(all, mask@, true, nedge as nat);
        lemma_bounded_select(all, mask@, false, nedge as nat);
    }
    let ghost rng1 = *rng;
    let out_dims = shared_labels(&outercount, allcount, nedge);
    let outercount1 = counts_of_side(&outercount, ixs, &mask, false);
    let outercount2 = counts_of_side(&outercount, ixs, &mask, true);
    let ixs_left = lists_of_side(ixs, &mask, true);
    let xindices_left = ids_of_side(xindices, &mask, true);
    let ixs_right = lists_of_side(ixs, &mask, false);
    let xindices_right = ids_of_side(xindices, &mask, false);
    proof {
        assert(lists(ixs_left@).len() == ixs_left.len());
        assert(lists(ixs_right@).len() == ixs_right.len());
        assert forall|l: int| 0 <= l < nedge implies #[trigger] outercount1[l] + total(
            lists(ixs_left@),
            l as usize,
        ) <= usize::MAX by {
            lemma_total_select(all, mask@, l as usize);
            assert(outercount[l] + total(all, l as usize) <= usize::MAX);
        }
        assert forall|l: int| 0 <= l < nedge implies #[trigger] outercount2[l] + total(
            lists(ixs_right@),
            l as usize,
        ) <= usize::MAX by {
            lemma_total_select(all, mask@, l as usize);
            assert(outercount[l] + total(all, l as usize) <= usize::MAX);
        }
    }
    let left = init_random_recursive(
        &ixs_left,
        &xindices_left,
        outercount1,
        allcount,
        nedge,
        decomp,
        rng,
    );
    let ghost rng2 = *rng;
    assert(crate::random::between(rng2));
    let right = init_random_recursive(
        &ixs_right,
        &xindices_right,
        outercount2,
        allcount,
        nedge,
        decomp,
        rng,
    );
    assert(splits(mask@, all.len(), decomp));
    assert(mask_drawn(mask@, all.len(), decomp, *old(rng), rng1));
    ExprTree::node(left, right, out_dims)
}

proof fn lemma_splits_mixed(mask: Seq<bool>, n: nat, decomp: DecompositionType)
    requires
        splits(mask, n, decomp),
        n >= 2,
    ensures
        exists|k: int| 0 <= k < n && mask[k],
        exists|k: int| 0 <= k < n && !mask[k],
{
    match decomp {
        DecompositionType::Tree => {
            assert(mask[mask.index_of(true)]);
            assert(!mask[mask.index_of(false)]);
        },
        DecompositionType::Path => {
            assert(mask[0]);
            assert(!mask[n - 1]);
        },
    }
}

proof fn lemma_bounded_select(ixs: Seq<Seq<usize>>, mask: Seq<bool>, keep: bool, n: nat)
    requires
        ixs.len() <= mask.len(),
        bounded(ixs, n),
    ensures
        bounded(select(ixs, mask, keep), n),
{
    lemma_select(ixs, mask, keep);
    let side = select(ixs, mask, keep);
    assert forall|i: int, j: int| 0 <= i < side.len() && 0 <= j < side[i].len() implies #[trigger] side[i][j]
        < n by {
        assert(ixs.contains(side[i]));
        let k = ixs.index_of(side[i]);
        assert(ixs[k][j] < n);
    }
}

/// How often each label below `nedge` occurs in the output `iy`.
pub open spec fn output_counts(iy: Seq<usize>, nedge: nat) -> Seq<usize> {
    Seq::new(nedge, |l: int| count(iy, l as usize) as usize)
}

/// The numbers below `n`, in order.
pub open spec fn first_ids(n: nat) -> Seq<usize> {
    Seq::new(n, |k: int| k as usize)
}

/// Whether `t` comes of splitting all the tensors of a network, whose labels are `ixs` and whose
/// output has the labels `iy`, again and again.
pub open spec fn random_tree(
    t: Tree,
    ixs: Seq<Seq<usize>>,
    iy: Seq<usize>,
    nedge: nat,
    decomp: DecompositionType,
) -> bool {
    split_tree(
        t,
        ixs,
        first_ids(ixs.len()),
        output_counts(iy, nedge),
        bumped(output_counts(iy, nedge), ixs),
        decomp,
    )
}

/// As [`random_tree`], with random numbers from the state `before` on, where the state `after` is
/// left.
pub open spec fn random_drawn(
    t: Tree,
    ixs: Seq<Seq<usize>>,
    iy: Seq<usize>,
    nedge: nat,
    decomp: DecompositionType,
    before: SmallRng,
    after: SmallRng,
) -> bool {
    split_drawn(
        t,
        ixs,
        first_ids(ixs.len()),
        output_counts(iy, nedge),
        bumped(output_counts(iy, nedge), ixs),
        decomp,
        before,
        after,
    )
}

/// Whether all labels of a network are below `nedge`, and how often each occurs fits a machine
/// word.
pub open spec fn countable(ixs: Seq<Seq<usize>>, iy: Seq<usize>, nedge: nat) -> bool {
    &&& bounded(ixs, nedge)
    &&& bounded(seq![iy], nedge)
    &&& forall|l: usize| l < nedge ==> #[trigger] total(ixs, l) + count(iy, l) <= usize::MAX
}

/// A contraction tree for a network of at least one tensor, by random splitting.
///
/// `int_ixs` holds the labels of the tensors, `int_iy` those of the output, and all of them are
/// below `nedge`.
pub fn init_random(
    int_ixs: &Vec<Vec<usize>>,
    int_iy: &Vec<usize>,
    nedge: usize,
    decomp: DecompositionType,
    rng: &mut SmallRng,
) -> (tree: ExprTree)
    requires
        int_ixs.len() >= 1,
        int_ixs.len() >= 2 ==> countable(lists(int_ixs@), int_iy@, nedge as nat),
    ensures
        random_tree(tree@, lists(int_ixs@), int_iy@, nedge as nat, decomp),
        random_drawn(
            tree@,
            lists(int_ixs@),
            int_iy@,
            nedge as nat,
            decomp,
            *old(rng),
            *final(rng),
        ),
        decomp == DecompositionType::Path ==> *final(rng) == *old(rng),
{
    let n: usize = int_ixs.len();
    let ghost ixs = lists(int_ixs@);
    if n == 1 {
        assert(ixs[0] == int_ixs[0]@);
        return ExprTree::leaf(crate::expr_tree::copy_dims(&int_ixs[0]), 0);
    }
    let mut outercount: Vec<usize> = Vec::new();
    while outercount.len() < nedge
        invariant
            outercount.len() <= nedge,
            forall|l: int| 0 <= l < outercount.len() ==> outercount[l] == 0,
        decreases nedge - outercount.len(),
    {
        outercount.push(0);
    }
    proof {
        assert forall|j: int| 0 <= j < int_iy.len() implies (#[trigger] int_iy[j])
            < outercount.len() by {
            assert(seq![int_iy@][0][j] < nedge);
        }
        assert forall|l: int| 0 <= l < nedge implies #[trigger] outercount[l] + count(
            int_iy@,
            l as usize,
        ) <= usize::MAX by {
            assert(total(ixs, l as usize) + count(int_iy@, l as usize) <= usize::MAX);
        }
    }
    count_in(&mut outercount, int_iy);
    let mut everywhere: Vec<bool> = Vec::new();
    while everywhere.len() < n
        invariant
            everywhere.len() <= n,
            forall|k: int| 0 <= k < everywhere.len() ==> everywhere[k],
        decreases n - everywhere.len(),
    {
        everywhere.push(true);
    }
    proof {
        lemma_select_all(ixs, everywhere@);
        assert(outercount@ =~= output_counts(int_iy@, nedge as nat));
        assert forall|l: int| 0 <= l < nedge implies #[trigger] outercount[l] + total(
            ixs,
            l as usize,
        ) <= usize::MAX by {
            assert(total(ixs, l as usize) + count(int_iy@, l as usize) <= usize::MAX);
        }
    }
    let allcount = counts_of_side(&outercount, int_ixs, &everywhere, true);
    let mut xindices: Vec<usize> = Vec::new();
    while xindices.len() < n
        invariant
            xindices.len() <= n,
            forall|k: int| 0 <= k < xindices.len() ==> xindices[k] == k,
        decreases n - xindices.len(),
    {
        xindices.push(xindices.len());
    }
    proof {
        assert(xindices@ =~= first_ids(ixs.len()));
        assert forall|l: int| 0 <= l < nedge implies #[trigger] outercount[l] + total(
            ixs,
            l as usize,
        ) == allcount[l] by {
            assert(total(ixs, l as usize) + count(int_iy@, l as usize) <= usize::MAX);
        }
    }
    init_random_recursive(int_ixs, &xindices, outercount, &allcount, nedge, decomp, rng)
}

proof fn lemma_select_all<T>(s: Seq<T>, mask: Seq<bool>)
    requires
        s.len() <= mask.len(),
        forall|k: int| 0 <= k < s.len() ==> mask[k],
    ensures
        select(s, mask, true) == s,
    decreases s.len(),
{
    if s.len() > 0 {
        lemma_select_all(s.drop_last(), mask);
        assert(s.drop_last().push(s.last()) =~= s);
    } else {
        assert(select(s, mask, true) =~= s);
    }
}

/// A label is counted where it occurs.
pub proof fn lemma_count_contains(dims: Seq<usize>, l: usize)
    ensures
        count(dims, l) > 0 <==> dims.contains(l),
    decreases dims.len(),
{
    if dims.len() > 0 {
        lemma_count_contains(dims.drop_last(), l);
        crate::expr_tree::lemma_push_contains(dims.drop_last(), dims.last(), l);
        assert(dims =~= dims.drop_last().push(dims.last()));
    }
}

/// A label is counted where some list has it.
pub proof fn lemma_total_contains(ixs: Seq<Seq<usize>>, l: usize)
    ensures
        total(ixs, l) > 0 <==> exists|i: int| 0 <= i < ixs.len() && (#[trigger] ixs[i]).contains(l),
    decreases ixs.len(),
{
    if ixs.len() > 0 {
        let rest = ixs.drop_last();
        lemma_total_contains(rest, l);
        lemma_count_contains(ixs.last(), l);
        if total(rest, l) > 0 {
            let i = choose|i: int| 0 <= i < rest.len() && (#[trigger] rest[i]).contains(l);
            assert(ixs[i].contains(l));
        }
        if ixs.last().contains(l) {
            assert(ixs[ixs.len() - 1].contains(l));
        }
        if exists|i: int| 0 <= i < ixs.len() && (#[trigger] ixs[i]).contains(l) {
            let i = choose|i: int| 0 <= i < ixs.len() && (#[trigger] ixs[i]).contains(l);
            if i < rest.len() {
                assert(rest[i].contains(l));
            }
        }
    }
}

proof fn lemma_shared(outer: Seq<usize>, all: Seq<usize>, n: nat, l: usize)
    requires
        n <= outer.len(),
        n <= usize::MAX,
    ensures
        shared(outer, all, n).contains(l) <==> l < n && outer[l as int] != all[l as int]
            && outer[l as int] != 0,
    decreases n,
{
    if n > 0 {
        lemma_shared(outer, all, (n - 1) as nat, l);
        crate::expr_tree::lemma_push_contains(
            shared(outer, all, (n - 1) as nat),
            (n - 1) as usize,
            l,
        );
    }
}

/// The leaves for the tensors with the labels `ixs` and the indices `ids`.
pub open spec fn leaf_infos(ixs: Seq<Seq<usize>>, ids: Seq<usize>) -> Seq<Info> {
    Seq::new(ixs.len(), |k: int| Info { dims: ixs[k], id: Some(ids[k]) })
}

proof fn lemma_leaf_infos_select(
    ixs: Seq<Seq<usize>>,
    ids: Seq<usize>,
    mask: Seq<bool>,
    keep: bool,
)
    requires
        ixs.len() == ids.len(),
    ensures
        select(leaf_infos(ixs, ids), mask, keep) == leaf_infos(
            select(ixs, mask, keep),
            select(ids, mask, keep),
        ),
    decreases ixs.len(),
{
    let infos = leaf_infos(ixs, ids);
    if ixs.len() > 0 {
        lemma_leaf_infos_select(ixs.drop_last(), ids.drop_last(), mask, keep);
        lemma_select_len(ixs.drop_last(), ids.drop_last(), mask, keep);
        assert(infos.drop_last() =~= leaf_infos(ixs.drop_last(), ids.drop_last()));
    }
    assert(select(infos, mask, keep) =~= leaf_infos(
        select(ixs, mask, keep),
        select(ids, mask, keep),
    ));
}

proof fn lemma_select_multiset<T>(s: Seq<T>, mask: Seq<bool>)
    ensures
        select(s, mask, true).to_multiset().add(select(s, mask, false).to_multiset())
            == s.to_multiset(),
    decreases s.len(),
{
    broadcast use vstd::seq_lib::group_to_multiset_ensures;

    if s.len() > 0 {
        let rest = s.drop_last();
        lemma_select_multiset(rest, mask);
        assert(rest.push(s.last()) =~= s);
        assert(select(s, mask, true).to_multiset().add(select(s, mask, false).to_multiset())
            =~= s.to_multiset());
    } else {
        assert(select(s, mask, true).to_multiset().add(select(s, mask, false).to_multiset())
            =~= s.to_multiset());
    }
}

/// The labels that `counts` counts at least once.
pub open spec fn counted(counts: Seq<usize>) -> Set<usize> {
    Set::new(|l: usize| l < counts.len() && counts[l as int] > 0)
}

/// A tree that comes of splitting has each of its tensors at one leaf, and hands up exactly the
/// right labels at every node.
pub proof fn split_tree_is_consistent(
    t: Tree,
    ixs: Seq<Seq<usize>>,
    ids: Seq<usize>,
    outer: Seq<usize>,
    all: Seq<usize>,
    decomp: DecompositionType,
)
    requires
        split_tree(t, ixs, ids, outer, all, decomp),
        ixs.len() >= 1,
        ids.len() == ixs.len(),
        all.len() == outer.len(),
        outer.len() <= usize::MAX,
        bounded(ixs, outer.len()),
        forall|l: int|
            0 <= l < outer.len() ==> #[trigger] outer[l] + total(ixs, l as usize) == all[l],
    ensures
        t.leaf_set() == leaf_infos(ixs, ids).to_multiset(),
        t.leaf_count() == ixs.len(),
        forall|l: usize| #[trigger] t.occurs(l) <==> total(ixs, l) > 0,
        t.consistent(counted(outer)),
        decomp == DecompositionType::Path ==> t.left_deep(),
    decreases t,
{
    if ixs.len() == 1 {
        assert(t.leaves() =~= leaf_infos(ixs, ids));
        assert forall|l: usize| #[trigger] t.occurs(l) <==> total(ixs, l) > 0 by {
            lemma_count_contains(ixs[0], l);
            reveal_with_fuel(total, 2);
        }
    } else {
        let mask = choose|mask: Seq<bool>| #[trigger]
            splits(mask, ixs.len(), decomp) && split_tree(
                *t->left,
                select(ixs, mask, true),
                select(ids, mask, true),
                bumped(outer, select(ixs, mask, false)),
                all,
                decomp,
            ) && split_tree(
                *t->right,
                select(ixs, mask, false),
                select(ids, mask, false),
                bumped(outer, select(ixs, mask, true)),
                all,
                decomp,
            );
        let left = *t->left;
        let right = *t->right;
        let (ixs1, ixs2) = (select(ixs, mask, true), select(ixs, mask, false));
        let (ids1, ids2) = (select(ids, mask, true), select(ids, mask, false));
        let (outer1, outer2) = (bumped(outer, ixs2), bumped(outer, ixs1));
        lemma_splits_mixed(mask, ixs.len(), decomp);
        lemma_select(ixs, mask, true);
        lemma_select(ixs, mask, false);
        lemma_select_len(ixs, ids, mask, true);
        lemma_select_len(ixs, ids, mask, false);
        lemma_bounded_select(ixs, mask, true, outer.len());
        lemma_bounded_select(ixs, mask, false, outer.len());
        assert forall|l: int| 0 <= l < outer.len() implies #[trigger] outer1[l] + total(
            ixs1,
            l as usize,
        ) == all[l] && outer1[l] == outer[l] + total(ixs2, l as usize) by {
            lemma_total_select(ixs, mask, l as usize);
            assert(outer[l] + total(ixs, l as usize) == all[l]);
        }
        assert forall|l: int| 0 <= l < outer.len() implies #[trigger] outer2[l] + total(
            ixs2,
            l as usize,
        ) == all[l] && outer2[l] == outer[l] + total(ixs1, l as usize) by {
            lemma_total_select(ixs, mask, l as usize);
            assert(outer[l] + total(ixs, l as usize) == all[l]);
        }
        split_tree_is_consistent(left, ixs1, ids1, outer1, all, decomp);
        split_tree_is_consistent(right, ixs2, ids2, outer2, all, decomp);
        let infos = leaf_infos(ixs, ids);
        lemma_leaf_infos_select(ixs, ids, mask, true);
        lemma_leaf_infos_select(ixs, ids, mask, false);
        lemma_select_multiset(infos, mask);
        vstd::seq_lib::lemma_multiset_commutative(left.leaves(), right.leaves());
        assert forall|l: usize| #[trigger] t.occurs(l) <==> total(ixs, l) > 0 by {
            lemma_total_select(ixs, mask, l);
            assert(left.occurs(l) <==> total(ixs1, l) > 0);
            assert(right.occurs(l) <==> total(ixs2, l) > 0);
            assert(t.occurs(l) == (left.occurs(l) || right.occurs(l)));
        }
        assert forall|l: usize| total(ixs, l) > 0 implies l < outer.len() by {
            lemma_total_contains(ixs, l);
            let i = choose|i: int| 0 <= i < ixs.len() && (#[trigger] ixs[i]).contains(l);
            let j = ixs[i].index_of(l);
            assert(ixs[i][j] < outer.len());
        }
        assert forall|l: usize| #[trigger] t.dims().contains(l) <==> t.occurs(l) && counted(
            outer,
        ).contains(l) by {
            lemma_shared(outer, all, outer.len(), l);
            if l < outer.len() {
                assert(outer[l as int] + total(ixs, l) == all[l as int]);
            }
        }
        assert forall|l: usize| #[trigger] counted(outer1).contains(l) <==> (counted(outer)
            + right.label_set()).contains(l) by {
            lemma_total_select(ixs, mask, l);
            assert(right.occurs(l) <==> total(ixs2, l) > 0);
            if l < outer.len() {
                assert(outer1[l as int] == outer[l as int] + total(ixs2, l));
            }
        }
        assert forall|l: usize| #[trigger] counted(outer2).contains(l) <==> (counted(outer)
            + left.label_set()).contains(l) by {
            lemma_total_select(ixs, mask, l);
            assert(left.occurs(l) <==> total(ixs1, l) > 0);
            if l < outer.len() {
                assert(outer2[l as int] == outer[l as int] + total(ixs1, l));
            }
        }
        assert(counted(outer1) =~= counted(outer) + right.label_set());
        assert(counted(outer2) =~= counted(outer) + left.label_set());
        assert(t.consistent(counted(outer))) by {
            assert(left.consistent(counted(outer) + right.label_set()));
            assert(right.consistent(counted(outer) + left.label_set()));
            assert(t->Node_info.dims == t.dims());
            assert(t == Tree::Node { left: Box::new(left), right: Box::new(right), info: t.info() });
        }
        if decomp == DecompositionType::Path {
            lemma_path_mask(ixs, mask);
        }
    }
}

/// The mask for a linear order keeps one tensor on its own.
proof fn lemma_path_mask<T>(s: Seq<T>, mask: Seq<bool>)
    requires
        s.len() >= 1,
        splits(mask, s.len(), DecompositionType::Path),
    ensures
        select(s, mask, false).len() == 1,
{
    let rest = s.drop_last();
    lemma_select_all(rest, mask);
    lemma_select(rest, mask, true);
}

/// A random tree for a network has each tensor at one leaf and hands up exactly the right labels
/// at every node. For a linear order it contracts one tensor in at a time.
pub proof fn random_tree_is_consistent(
    t: Tree,
    ixs: Seq<Seq<usize>>,
    iy: Seq<usize>,
    nedge: nat,
    decomp: DecompositionType,
)
    requires
        random_tree(t, ixs, iy, nedge, decomp),
        ixs.len() >= 1,
        nedge <= usize::MAX,
        countable(ixs, iy, nedge),
    ensures
        t.leaf_set() == leaf_infos(ixs, first_ids(ixs.len())).to_multiset(),
        t.leaf_count() == ixs.len(),
        forall|l: usize| #[trigger] t.occurs(l) <==> total(ixs, l) > 0,
        t.consistent(iy.to_set()),
        decomp == DecompositionType::Path ==> t.left_deep(),
{
    let outer = output_counts(iy, nedge);
    let all = bumped(outer, ixs);
    assert forall|l: int| 0 <= l < outer.len() implies #[trigger] outer[l] + total(
        ixs,
        l as usize,
    ) == all[l] by {
        assert(total(ixs, l as usize) + count(iy, l as usize) <= usize::MAX);
    }
    split_tree_is_consistent(t, ixs, first_ids(ixs.len()), outer, all, decomp);
    assert forall|l: usize| counted(outer).contains(l) <==> iy.contains(l) by {
        lemma_count_contains(iy, l);
        if iy.contains(l) {
            let j = iy.index_of(l);
            assert(seq![iy][0][j] < nedge);
        }
        if l < nedge {
            assert(total(ixs, l) + count(iy, l) <= usize::MAX);
        }
    }
    assert(counted(outer) =~= iy.to_set());
}

/// A mask that splits tensors leaves some on both sides.
pub proof fn lemma_both_sides<T>(s: Seq<T>, mask: Seq<bool>, decomp: DecompositionType)
    requires
        splits(mask, s.len(), decomp),
        s.len() >= 2,
    ensures
        select(s, mask, true).len() >= 1,
        select(s, mask, false).len() >= 1,
{
    lemma_splits_mixed(mask, s.len(), decomp);
    let i = mask.index_of(true);
    let j = mask.index_of(false);
    assert(mask[i] && !mask[j]);
    lemma_select(s, mask, true);
    lemma_select(s, mask, false);
}

/// A mask that is drawn splits the tensors.
pub proof fn lemma_mask_drawn(
    mask: Seq<bool>,
    n: nat,
    decomp: DecompositionType,
    before: SmallRng,
    after: SmallRng,
)
    requires
        mask_drawn(mask, n, decomp, before, after),
        n >= 2,
    ensures
        splits(mask, n, decomp),
{
    if decomp == DecompositionType::Tree {
        let (coins, rng) = choose|coins: Seq<bool>, rng: SmallRng|
            coins.len() == n && #[trigger] coins_drawn(coins, before, rng) && if mixed(coins) {
                mask == coins && after == rng
            } else {
                mended(coins, mask, rng, after)
            };
        if !mixed(coins) {
            let k = choose|k: usize|
                k < coins.len() && #[trigger] crate::random::index_drawn(
                    coins.len() as usize,
                    rng,
                    k,
                    after,
                ) && mask == coins.update(k as int, !coins[k as int]);
            let other: int = if k == 0 {
                1
            } else {
                0
            };
            assert(coins.contains(coins[other]) && coins.contains(coins[k as int]));
            assert(coins[other] == coins[k as int]);
            assert(mask[other] == coins[other] && mask[k as int] == !coins[k as int]);
            assert(mask.contains(mask[other]) && mask.contains(mask[k as int]));
        }
    }
}

/// A tree that comes of splitting by drawn masks comes of splitting. For a linear order nothing is
/// drawn.
pub proof fn drawn_split_is_split(
    t: Tree,
    ixs: Seq<Seq<usize>>,
    ids: Seq<usize>,
    outer: Seq<usize>,
    all: Seq<usize>,
    decomp: DecompositionType,
    before: SmallRng,
    after: SmallRng,
)
    requires
        split_drawn(t, ixs, ids, outer, all, decomp, before, after),
        ixs.len() >= 1,
    ensures
        split_tree(t, ixs, ids, outer, all, decomp),
        decomp == DecompositionType::Path ==> after == before,
    decreases t,
{
    if ixs.len() > 1 {
        let (mask, rng1, rng2) = choose|mask: Seq<bool>, rng1: SmallRng, rng2: SmallRng| #[trigger]
            mask_drawn(mask, ixs.len(), decomp, before, rng1) && #[trigger] crate::random::between(
                rng2,
            ) && split_drawn(
                *t->left,
                select(ixs, mask, true),
                select(ids, mask, true),
                bumped(outer, select(ixs, mask, false)),
                all,
                decomp,
                rng1,
                rng2,
            ) && split_drawn(
                *t->right,
                select(ixs, mask, false),
                select(ids, mask, false),
                bumped(outer, select(ixs, mask, true)),
                all,
                decomp,
                rng2,
                after,
            );
        lemma_mask_drawn(mask, ixs.len(), decomp, before, rng1);
        lemma_splits_mixed(mask, ixs.len(), decomp);
        lemma_select(ixs, mask, true);
        lemma_select(ixs, mask, false);
        drawn_split_is_split(
            *t->left,
            select(ixs, mask, true),
            select(ids, mask, true),
            bumped(outer, select(ixs, mask, false)),
            all,
            decomp,
            rng1,
            rng2,
        );
        drawn_split_is_split(
            *t->right,
            select(ixs, mask, false),
            select(ids, mask, false),
            bumped(outer, select(ixs, mask, true)),
            all,
            decomp,
            rng2,
            after,
        );
        assert(splits(mask, ixs.len(), decomp));
    }
}

/// What the mask for a linear order keeps together and on its own.
proof fn lemma_path_select<T>(s: Seq<T>, mask: Seq<bool>)
    requires
        s.len() >= 1,
        splits(mask, s.len(), DecompositionType::Path),
    ensures
        select(s, mask, true) == s.drop_last(),
        select(s, mask, false) == seq![s.last()],
{
    let rest = s.drop_last();
    lemma_select_all(rest, mask);
    lemma_select(rest, mask, true);
    assert(select(rest, mask, false) =~= Seq::empty());
    assert(select(s, mask, false) =~= seq![s.last()]);
}

/// Splitting for a linear order takes the tensors in their order, one at a time: every right child
/// is a leaf, and the leaves from left to right have the indices as they are given.
pub proof fn path_split_is_linear(
    t: Tree,
    ixs: Seq<Seq<usize>>,
    ids: Seq<usize>,
    outer: Seq<usize>,
    all: Seq<usize>,
)
    requires
        split_tree(t, ixs, ids, outer, all, DecompositionType::Path),
        ixs.len() >= 1,
        ids.len() == ixs.len(),
    ensures
        t.left_deep(),
        t.leaves() == leaf_infos(ixs, ids),
        t.ids() == ids,
    decreases t,
{
    let path = DecompositionType::Path;
    if ixs.len() > 1 {
        let mask = choose|mask: Seq<bool>| #[trigger]
            splits(mask, ixs.len(), path) && split_tree(
                *t->left,
                select(ixs, mask, true),
                select(ids, mask, true),
                bumped(outer, select(ixs, mask, false)),
                all,
                path,
            ) && split_tree(
                *t->right,
                select(ixs, mask, false),
                select(ids, mask, false),
                bumped(outer, select(ixs, mask, true)),
                all,
                path,
            );
        lemma_path_select(ixs, mask);
        lemma_path_select(ids, mask);
        path_split_is_linear(
            *t->left,
            ixs.drop_last(),
            ids.drop_last(),
            bumped(outer, select(ixs, mask, false)),
            all,
        );
        assert(*t->right == Tree::Leaf(Info { dims: ixs.last(), id: Some(ids.last()) }));
        assert(t.leaves() =~= t->left.leaves() + t->right.leaves());
    }
    assert(t.leaves() =~= leaf_infos(ixs, ids));
    assert(t.ids() =~= ids);
}

/// Splitting for a linear order gives one tree.
pub proof fn path_split_is_unique(
    t: Tree,
    u: Tree,
    ixs: Seq<Seq<usize>>,
    ids: Seq<usize>,
    outer: Seq<usize>,
    all: Seq<usize>,
)
    requires
        split_tree(t, ixs, ids, outer, all, DecompositionType::Path),
        split_tree(u, ixs, ids, outer, all, DecompositionType::Path),
        ixs.len() >= 1,
        ids.len() == ixs.len(),
    ensures
        t == u,
    decreases t,
{
    let path = DecompositionType::Path;
    if ixs.len() > 1 {
        let mask = Seq::new(ixs.len(), |k: int| k != ixs.len() - 1);
        lemma_path_select(ixs, mask);
        lemma_path_select(ids, mask);
        path_split_is_unique(
            *t->left,
            *u->left,
            ixs.drop_last(),
            ids.drop_last(),
            bumped(outer, select(ixs, mask, false)),
            all,
        );
        path_split_is_unique(
            *t->right,
            *u->right,
            seq![ixs.last()],
            seq![ids.last()],
            bumped(outer, select(ixs, mask, true)),
            all,
        );
        assert(t.info() == u.info());
        assert(t->Node_info == t.info() && u->Node_info == u.info());
    }
}

} // verus!
