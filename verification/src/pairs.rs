//! Lists of tensors of which two at a time are contracted, and what that costs.

use crate::expr_tree::{Info, Tree};
use vstd::multiset::Multiset;
use vstd::prelude::*;

verus! {

/// What losses are measured by: the labels of the output, the sizes of all labels, and the weight
/// of the inputs as a fraction.
pub struct Gauge {
    pub iy: Seq<usize>,
    pub sizes: Seq<usize>,
    pub numerator: usize,
    pub denominator: usize,
}

/// How many entries a tensor with the labels `dims` has.
pub open spec fn int_volume(dims: Seq<usize>, sizes: Seq<usize>) -> nat
    decreases dims.len(),
{
    if dims.len() == 0 {
        1
    } else {
        int_volume(dims.drop_last(), sizes) * sizes[dims.last() as int] as nat
    }
}

/// Whether a tensor other than those at `p` and `q` hands up `l`.
pub open spec fn elsewhere(s: Seq<Tree>, p: int, q: int, l: usize) -> bool {
    exists|r: int|
        0 <= r < s.len() && r != p && r != q && (#[trigger] s[r]).dims().contains(l)
}

/// The labels of `labels` that the output or a tensor other than those at `p` and `q` needs, each
/// where it stands first.
pub open spec fn kept_of(labels: Seq<usize>, s: Seq<Tree>, p: int, q: int, iy: Seq<usize>) -> Seq<
    usize,
>
    decreases labels.len(),
{
    if labels.len() == 0 {
        Seq::empty()
    } else {
        let before = kept_of(labels.drop_last(), s, p, q, iy);
        let l = labels.last();
        if !before.contains(l) && (iy.contains(l) || elsewhere(s, p, q, l)) {
            before.push(l)
        } else {
            before
        }
    }
}

/// The labels that the contraction of the tensors at `p` and `q` hands up.
pub open spec fn kept(s: Seq<Tree>, p: int, q: int, iy: Seq<usize>) -> Seq<usize> {
    kept_of(s[p].dims() + s[q].dims(), s, p, q, iy)
}

impl Gauge {
    /// The size of the result of contracting the tensors at `p` and `q`, times the denominator of
    /// the weight.
    pub open spec fn cost(self, s: Seq<Tree>, p: int, q: int) -> nat {
        int_volume(kept(s, p, q, self.iy), self.sizes) * self.denominator as nat
    }

    /// The sizes of the tensors at `p` and `q` together, times the numerator of the weight.
    pub open spec fn relief(self, s: Seq<Tree>, p: int, q: int) -> nat {
        (int_volume(s[p].dims(), self.sizes) + int_volume(s[q].dims(), self.sizes))
            * self.numerator as nat
    }

    /// The loss of contracting the tensors at `p` and `q`: the size of the result less the
    /// weighted sizes of the two, times the denominator of the weight.
    pub open spec fn loss(self, s: Seq<Tree>, p: int, q: int) -> int {
        self.cost(s, p, q) - self.relief(s, p, q)
    }

    /// Whether the tensors at `p` and `q` are the pair with the lowest loss, and the first such
    /// pair, where the pair `skip` does not count.
    pub open spec fn least(self, s: Seq<Tree>, skip: (int, int), p: int, q: int) -> bool {
        &&& 0 <= p < q < s.len()
        &&& (p, q) != skip
        &&& forall|a: int, b: int|
            0 <= a < b < s.len() && (a, b) != skip ==> self.loss(s, p, q) <= #[trigger] self.loss(
                s,
                a,
                b,
            )
        &&& forall|a: int, b: int|
            0 <= a < b < s.len() && (a, b) != skip && (a < p || a == p && b < q) ==> self.loss(
                s,
                p,
                q,
            ) < #[trigger] self.loss(s, a, b)
    }
}

/// The tensors after those at `p` and `q` are contracted: the result stands at `p`.
pub open spec fn merged(s: Seq<Tree>, p: int, q: int, iy: Seq<usize>) -> Seq<Tree> {
    s.update(p, Tree::join(s[p], s[q], kept(s, p, q, iy))).remove(q)
}

/// What a contraction keeps of a list of labels: those that are needed and no others.
pub proof fn lemma_kept_of(
    labels: Seq<usize>,
    s: Seq<Tree>,
    p: int,
    q: int,
    iy: Seq<usize>,
    l: usize,
)
    ensures
        kept_of(labels, s, p, q, iy).contains(l) <==> labels.contains(l) && (iy.contains(l)
            || elsewhere(s, p, q, l)),
    decreases labels.len(),
{
    if labels.len() > 0 {
        let rest = labels.drop_last();
        let before = kept_of(rest, s, p, q, iy);
        lemma_kept_of(rest, s, p, q, iy, l);
        crate::expr_tree::lemma_push_contains(rest, labels.last(), l);
        crate::expr_tree::lemma_push_contains(before, labels.last(), l);
        assert(labels =~= rest.push(labels.last()));
        lemma_kept_of(rest, s, p, q, iy, labels.last());
    }
}

/// What the contraction of two tensors hands up.
pub proof fn lemma_kept(s: Seq<Tree>, p: int, q: int, iy: Seq<usize>, l: usize)
    ensures
        kept(s, p, q, iy).contains(l) <==> (s[p].dims().contains(l) || s[q].dims().contains(l)) && (
        iy.contains(l) || elsewhere(s, p, q, l)),
{
    lemma_kept_of(s[p].dims() + s[q].dims(), s, p, q, iy, l);
    crate::plan::lemma_concat_contains(s[p].dims(), s[q].dims(), l);
}

/// Where a tensor stood before the one at `q` was taken out.
pub open spec fn place(k: int, q: int) -> int {
    if k < q {
        k
    } else {
        k + 1
    }
}

/// A contraction moves the tensors that it leaves alone, and nothing else.
pub proof fn lemma_merged(s: Seq<Tree>, p: int, q: int, iy: Seq<usize>)
    requires
        0 <= p < q < s.len(),
    ensures
        merged(s, p, q, iy).len() == s.len() - 1,
        merged(s, p, q, iy)[p] == Tree::join(s[p], s[q], kept(s, p, q, iy)),
        forall|k: int|
            0 <= k < s.len() - 1 && k != p ==> #[trigger] merged(s, p, q, iy)[k] == s[place(k, q)],
{
}

/// Which labels of other tensors are needed does not change where two tensors are contracted.
pub proof fn lemma_elsewhere(s: Seq<Tree>, p: int, q: int, iy: Seq<usize>, a: int, b: int, l: usize)
    requires
        0 <= p < q < s.len(),
        0 <= a < s.len() - 1,
        0 <= b < s.len() - 1,
        a != p,
        b != p,
        s[place(a, q)].dims().contains(l) || s[place(b, q)].dims().contains(l),
    ensures
        elsewhere(merged(s, p, q, iy), a, b, l) <==> elsewhere(s, place(a, q), place(b, q), l),
{
    let t = merged(s, p, q, iy);
    lemma_merged(s, p, q, iy);
    lemma_kept(s, p, q, iy, l);
    let a0 = place(a, q);
    let b0 = place(b, q);
    assert(elsewhere(s, p, q, l)) by {
        if s[a0].dims().contains(l) {
        } else {
            assert(s[b0].dims().contains(l));
        }
    }
    assert(t[p].dims() == kept(s, p, q, iy));
    if elsewhere(t, a, b, l) {
        let r = choose|r: int|
            0 <= r < t.len() && r != a && r != b && (#[trigger] t[r]).dims().contains(l);
        if r == p {
            if s[p].dims().contains(l) {
            } else {
                assert(s[q].dims().contains(l));
            }
        } else {
            assert(s[place(r, q)].dims().contains(l));
        }
    }
    if elsewhere(s, a0, b0, l) {
        let r = choose|r: int|
            0 <= r < s.len() && r != a0 && r != b0 && (#[trigger] s[r]).dims().contains(l);
        if r == p || r == q {
            assert(t[p].dims().contains(l));
        } else {
            let k = if r < q {
                r
            } else {
                r - 1
            };
            assert(place(k, q) == r);
            assert(t[k].dims().contains(l));
        }
    }
}

/// What a contraction of other tensors keeps does not change where two tensors are contracted.
pub proof fn lemma_kept_stays(
    labels: Seq<usize>,
    s: Seq<Tree>,
    p: int,
    q: int,
    iy: Seq<usize>,
    a: int,
    b: int,
)
    requires
        0 <= p < q < s.len(),
        0 <= a < s.len() - 1,
        0 <= b < s.len() - 1,
        a != p,
        b != p,
        forall|k: int|
            0 <= k < labels.len() ==> s[place(a, q)].dims().contains(#[trigger] labels[k])
                || s[place(b, q)].dims().contains(labels[k]),
    ensures
        kept_of(labels, merged(s, p, q, iy), a, b, iy) == kept_of(
            labels,
            s,
            place(a, q),
            place(b, q),
            iy,
        ),
    decreases labels.len(),
{
    if labels.len() > 0 {
        let rest = labels.drop_last();
        assert forall|k: int| 0 <= k < rest.len() implies s[place(a, q)].dims().contains(
            #[trigger] rest[k],
        ) || s[place(b, q)].dims().contains(rest[k]) by {
            assert(rest[k] == labels[k]);
        }
        lemma_kept_stays(rest, s, p, q, iy, a, b);
        assert(labels.last() == labels[labels.len() - 1]);
        lemma_elsewhere(s, p, q, iy, a, b, labels.last());
    }
}

/// The loss of contracting other tensors does not change where two tensors are contracted.
pub proof fn loss_stays(g: Gauge, s: Seq<Tree>, p: int, q: int, a: int, b: int)
    requires
        0 <= p < q < s.len(),
        0 <= a < s.len() - 1,
        0 <= b < s.len() - 1,
        a != p,
        b != p,
    ensures
        g.cost(merged(s, p, q, g.iy), a, b) == g.cost(s, place(a, q), place(b, q)),
        g.relief(merged(s, p, q, g.iy), a, b) == g.relief(s, place(a, q), place(b, q)),
{
    lemma_merged(s, p, q, g.iy);
    let x = s[place(a, q)].dims();
    let y = s[place(b, q)].dims();
    let labels = x + y;
    assert forall|k: int| 0 <= k < labels.len() implies x.contains(#[trigger] labels[k])
        || y.contains(labels[k]) by {
        if k < x.len() {
            assert(x[k] == labels[k]);
        } else {
            assert(y[k - x.len()] == labels[k]);
        }
    }
    lemma_kept_stays(labels, s, p, q, g.iy, a, b);
}

/// The leaves of all tensors, without their order.
pub open spec fn bag(s: Seq<Tree>) -> Multiset<Info>
    decreases s.len(),
{
    if s.len() == 0 {
        Multiset::empty()
    } else {
        bag(s.drop_last()).add(s.last().leaf_set())
    }
}

/// The leaves of all tensors are those of one and those of the others.
pub proof fn lemma_bag_remove(s: Seq<Tree>, k: int)
    requires
        0 <= k < s.len(),
    ensures
        bag(s) == bag(s.remove(k)).add(s[k].leaf_set()),
    decreases s.len(),
{
    if k == s.len() - 1 {
        assert(s.remove(k) =~= s.drop_last());
    } else {
        lemma_bag_remove(s.drop_last(), k);
        assert(s.remove(k).drop_last() =~= s.drop_last().remove(k));
        assert(s.remove(k).last() == s.last());
        assert(bag(s) =~= bag(s.remove(k)).add(s[k].leaf_set()));
    }
}

/// A contraction neither drops nor adds a leaf.
pub proof fn lemma_bag_merged(s: Seq<Tree>, p: int, q: int, iy: Seq<usize>)
    requires
        0 <= p < q < s.len(),
    ensures
        bag(merged(s, p, q, iy)) == bag(s),
{
    let m = Tree::join(s[p], s[q], kept(s, p, q, iy));
    let u = s.update(p, m);
    lemma_bag_remove(s, p);
    lemma_bag_remove(u, p);
    lemma_bag_remove(u, q);
    assert(u.remove(p) =~= s.remove(p));
    vstd::seq_lib::lemma_multiset_commutative(s[p].leaves(), s[q].leaves());
    assert(m.leaf_set() == s[p].leaf_set().add(s[q].leaf_set()));
    assert(u[q] == s[q] && u[p] == m);
    let rest = bag(merged(s, p, q, iy));
    assert(rest == bag(u.remove(q)));
    assert(rest.add(s[q].leaf_set()) == bag(s.remove(p)).add(m.leaf_set()));
    assert forall|info: Info| rest.count(info) == bag(s).count(info) by {
        assert(rest.add(s[q].leaf_set()).count(info) == bag(s.remove(p)).count(info)
            + m.leaf_set().count(info));
    }
    assert(rest =~= bag(s));
}

/// The labels that occur outside of the tensor at `k`: at a leaf of another one, or in the output.
pub open spec fn around(s: Seq<Tree>, k: int, iy: Seq<usize>) -> Set<usize> {
    Set::new(
        |l: usize|
            iy.contains(l) || exists|r: int|
                0 <= r < s.len() && r != k && (#[trigger] s[r]).occurs(l),
    )
}

/// Whether every tensor hands up, along its tree, exactly what is needed around it.
pub open spec fn all_consistent(s: Seq<Tree>, iy: Seq<usize>) -> bool {
    forall|k: int| 0 <= k < s.len() ==> (#[trigger] s[k]).consistent(around(s, k, iy))
}

/// A contraction of two tensors keeps the labels right.
pub proof fn lemma_merged_consistent(s: Seq<Tree>, p: int, q: int, iy: Seq<usize>)
    requires
        0 <= p < q < s.len(),
        all_consistent(s, iy),
    ensures
        all_consistent(merged(s, p, q, iy), iy),
{
    let t = merged(s, p, q, iy);
    lemma_merged(s, p, q, iy);
    let x = s[p];
    let y = s[q];
    let m = t[p];
    let out = around(t, p, iy);
    assert forall|k: int| 0 <= k < t.len() implies (#[trigger] t[k]).consistent(
        around(t, k, iy),
    ) by {
        if k == p {
            assert forall|l: usize| around(s, p, iy).contains(l) <==> (out
                + y.label_set()).contains(l) by {
                lemma_around(s, p, q, iy, l);
            }
            assert(around(s, p, iy) =~= out + y.label_set());
            assert forall|l: usize| around(s, q, iy).contains(l) <==> (out
                + x.label_set()).contains(l) by {
                lemma_around(s, p, q, iy, l);
            }
            assert(around(s, q, iy) =~= out + x.label_set());
            assert forall|l: usize| #[trigger]
                m.dims().contains(l) <==> m.occurs(l) && out.contains(l) by {
                lemma_around(s, p, q, iy, l);
                lemma_kept(s, p, q, iy, l);
                crate::plan::lemma_handed_up(x, around(s, p, iy), l);
                crate::plan::lemma_handed_up(y, around(s, q, iy), l);
                if elsewhere(s, p, q, l) {
                    let r = choose|r: int|
                        0 <= r < s.len() && r != p && r != q && (#[trigger] s[r]).dims().contains(
                            l,
                        );
                    crate::plan::lemma_handed_up(s[r], around(s, r, iy), l);
                }
                if m.occurs(l) && out.contains(l) && !iy.contains(l) {
                    let r = choose|r: int|
                        0 <= r < s.len() && r != p && r != q && (#[trigger] s[r]).occurs(l);
                    crate::plan::lemma_handed_up(s[r], around(s, r, iy), l);
                    assert(around(s, r, iy).contains(l)) by {
                        if x.occurs(l) {
                            assert(s[p].occurs(l));
                        } else {
                            assert(s[q].occurs(l));
                        }
                    }
                    assert(s[r].dims().contains(l));
                }
            }
            assert(m->Node_info.dims == m.dims());
        } else {
            let k0 = place(k, q);
            assert forall|l: usize| around(t, k, iy).contains(l) <==> around(s, k0, iy).contains(
                l,
            ) by {
                if exists|r: int| 0 <= r < t.len() && r != k && (#[trigger] t[r]).occurs(l) {
                    let r = choose|r: int| 0 <= r < t.len() && r != k && (#[trigger] t[r]).occurs(l);
                    if r == p {
                        assert(s[p].occurs(l) || s[q].occurs(l));
                    } else {
                        assert(s[place(r, q)].occurs(l));
                    }
                }
                if exists|r: int| 0 <= r < s.len() && r != k0 && (#[trigger] s[r]).occurs(l) {
                    let r = choose|r: int|
                        0 <= r < s.len() && r != k0 && (#[trigger] s[r]).occurs(l);
                    if r == p || r == q {
                        assert(t[p].occurs(l));
                    } else {
                        let j = if r < q {
                            r
                        } else {
                            r - 1
                        };
                        assert(t[j] == s[place(j, q)]);
                        assert(t[j].occurs(l));
                    }
                }
            }
            assert(around(t, k, iy) =~= around(s, k0, iy));
            assert(s[k0].consistent(around(s, k0, iy)));
        }
    }
}

/// What is around the result of a contraction.
pub proof fn lemma_around(s: Seq<Tree>, p: int, q: int, iy: Seq<usize>, l: usize)
    requires
        0 <= p < q < s.len(),
    ensures
        around(merged(s, p, q, iy), p, iy).contains(l) <==> iy.contains(l) || exists|r: int|
            0 <= r < s.len() && r != p && r != q && (#[trigger] s[r]).occurs(l),
        around(s, p, iy).contains(l) <==> around(merged(s, p, q, iy), p, iy).contains(l)
            || s[q].occurs(l),
        around(s, q, iy).contains(l) <==> around(merged(s, p, q, iy), p, iy).contains(l)
            || s[p].occurs(l),
{
    let t = merged(s, p, q, iy);
    lemma_merged(s, p, q, iy);
    if exists|r: int| 0 <= r < t.len() && r != p && (#[trigger] t[r]).occurs(l) {
        let r = choose|r: int| 0 <= r < t.len() && r != p && (#[trigger] t[r]).occurs(l);
        assert(s[place(r, q)].occurs(l));
    }
    if exists|r: int| 0 <= r < s.len() && r != p && r != q && (#[trigger] s[r]).occurs(l) {
        let r = choose|r: int|
            0 <= r < s.len() && r != p && r != q && (#[trigger] s[r]).occurs(l);
        let j = if r < q {
            r
        } else {
            r - 1
        };
        assert(t[j] == s[place(j, q)]);
        assert(t[j].occurs(l));
    }
}

} // verus!
