//! What an expression and a contraction order compute, for tensors with integer entries.
//!
//! A tensor is read at an assignment, which gives each label an index. An expression adds up the
//! products of the entries of its arguments over all indices of the labels that it does not
//! yield.

use crate::eincode::{Ein, Nested};
use vstd::prelude::*;

verus! {

/// An index for each label.
pub type Assignment<L> = spec_fn(L) -> int;

/// A tensor: an entry for each assignment.
pub type Tensor<L> = spec_fn(spec_fn(L) -> int) -> int;

/// The assignment `s`, with the index `v` for the label `l`.
pub open spec fn with<L>(s: Assignment<L>, l: L, v: int) -> Assignment<L> {
    |x: L|
        if x == l {
            v
        } else {
            s(x)
        }
}

/// The sum of `f(0)`, `f(1)` and so on, up to `f(n - 1)`.
spec fn sum_to(n: nat, f: spec_fn(int) -> int) -> int
    decreases n,
{
    if n == 0 {
        0
    } else {
        sum_to((n - 1) as nat, f) + f(n - 1)
    }
}

/// The sum of `f` over all indices of the labels `labels`, where `size` says how many indices a
/// label has, and all other labels have their index in `s`.
pub open spec fn sum_over<L>(
    labels: Seq<L>,
    size: spec_fn(L) -> nat,
    f: Tensor<L>,
    s: Assignment<L>,
) -> int
    decreases labels.len(), size(labels.last()) + 1,
{
    if labels.len() == 0 {
        f(s)
    } else {
        sum_below(labels, size, f, s, size(labels.last()))
    }
}

/// As [`sum_over`], but the indices of the last label stop below `n`.
pub open spec fn sum_below<L>(
    labels: Seq<L>,
    size: spec_fn(L) -> nat,
    f: Tensor<L>,
    s: Assignment<L>,
    n: nat,
) -> int
    decreases labels.len(), n,
{
    if n == 0 || labels.len() == 0 {
        0
    } else {
        sum_below(labels, size, f, s, (n - 1) as nat) + sum_over(
            labels.drop_last(),
            size,
            f,
            with(s, labels.last(), n - 1),
        )
    }
}

/// The labels of `labels` that `iy` does not list.
pub open spec fn without<L>(labels: Seq<L>, iy: Seq<L>) -> Seq<L>
    decreases labels.len(),
{
    if labels.len() == 0 {
        Seq::empty()
    } else {
        let before = without(labels.drop_last(), iy);
        if iy.contains(labels.last()) {
            before
        } else {
            before.push(labels.last())
        }
    }
}

impl<L> Ein<L> {
    /// The labels over which the expression sums.
    pub open spec fn summed(self) -> Seq<L> {
        without(crate::eincode::distinct(crate::eincode::concat(self.ixs)), self.iy)
    }
}

/// The product of the entries at `s` of the tensors with the indices `ids`.
pub open spec fn product<L>(ids: Seq<usize>, tensors: Seq<Tensor<L>>, s: Assignment<L>) -> int
    decreases ids.len(),
{
    if ids.len() == 0 {
        1
    } else {
        product(ids.drop_last(), tensors, s) * (tensors[ids.last() as int])(s)
    }
}

/// The product of tensors, entry by entry.
pub open spec fn product_of<L>(tensors: Seq<Tensor<L>>) -> Tensor<L> {
    |s: Assignment<L>| product(crate::init::first_ids(tensors.len()), tensors, s)
}

impl<L> Ein<L> {
    /// What the expression computes of `tensors`: the sum of the products of their entries over
    /// all indices of the labels that it does not yield.
    pub open spec fn value(self, tensors: Seq<Tensor<L>>, size: spec_fn(L) -> nat) -> Tensor<L> {
        |s: Assignment<L>| sum_over(self.summed(), size, product_of(tensors), s)
    }
}

impl<L> Nested<L> {
    /// What the contraction order computes of `tensors`.
    pub open spec fn value(self, tensors: Seq<Tensor<L>>, size: spec_fn(L) -> nat) -> Tensor<L>
        decreases self,
    {
        match self {
            Nested::Leaf { tensor_index } => tensors[tensor_index as int],
            Nested::Node { args, eins } => eins.value(Self::values(args, tensors, size), size),
        }
    }

    /// What each of `args` computes of `tensors`.
    pub open spec fn values(
        args: Seq<Nested<L>>,
        tensors: Seq<Tensor<L>>,
        size: spec_fn(L) -> nat,
    ) -> Seq<Tensor<L>>
        decreases args,
    {
        if args.len() == 0 {
            Seq::empty()
        } else {
            Self::values(args.drop_last(), tensors, size).push(args.last().value(tensors, size))
        }
    }
}

/// Whether the entries of `f` do not depend on the index of `l`.
pub open spec fn ignores<L>(f: Tensor<L>, l: L) -> bool {
    forall|s: Assignment<L>, v: int| #[trigger] f(with(s, l, v)) == f(s)
}

/// Whether `tensors` are tensors with the labels `ixs`: the entries of each depend on the indices
/// of its own labels only.
pub open spec fn carry<L>(tensors: Seq<Tensor<L>>, ixs: Seq<Seq<L>>) -> bool {
    &&& tensors.len() == ixs.len()
    &&& forall|i: int, l: L|
        0 <= i < ixs.len() && !ixs[i].contains(l) ==> #[trigger] ignores(tensors[i], l)
}

proof fn lemma_sum_to_eq(n: nat, f: spec_fn(int) -> int, g: spec_fn(int) -> int)
    requires
        forall|v: int| 0 <= v < n ==> #[trigger] f(v) == g(v),
    ensures
        sum_to(n, f) == sum_to(n, g),
    decreases n,
{
    if n > 0 {
        lemma_sum_to_eq((n - 1) as nat, f, g);
        assert(f(n - 1) == g(n - 1));
    }
}

proof fn lemma_sum_to_plus(n: nat, f: spec_fn(int) -> int, g: spec_fn(int) -> int)
    ensures
        sum_to(n, |v: int| f(v) + g(v)) == sum_to(n, f) + sum_to(n, g),
    decreases n,
{
    if n > 0 {
        lemma_sum_to_plus((n - 1) as nat, f, g);
    }
}

proof fn lemma_sum_to_zero(n: nat)
    ensures
        sum_to(n, |v: int| 0int) == 0,
    decreases n,
{
    if n > 0 {
        lemma_sum_to_zero((n - 1) as nat);
    }
}

proof fn lemma_sum_to_times(n: nat, f: spec_fn(int) -> int, c: int)
    ensures
        sum_to(n, |v: int| f(v) * c) == sum_to(n, f) * c,
    decreases n,
{
    if n > 0 {
        lemma_sum_to_times((n - 1) as nat, f, c);
        let a = sum_to((n - 1) as nat, f);
        let b = f(n - 1);
        assert((a + b) * c == a * c + b * c) by (nonlinear_arith);
    } else {
        assert(0 * c == 0);
    }
}

/// Two finite sums may be exchanged.
proof fn lemma_sum_to_swap(n: nat, m: nat, h: spec_fn(int, int) -> int)
    ensures
        sum_to(n, |v: int| sum_to(m, |w: int| h(v, w))) == sum_to(
            m,
            |w: int| sum_to(n, |v: int| h(v, w)),
        ),
    decreases n,
{
    let right = |w: int| sum_to(n, |v: int| h(v, w));
    if n == 0 {
        lemma_sum_to_zero(m);
        lemma_sum_to_eq(m, right, |w: int| 0int);
    } else {
        let k = (n - 1) as nat;
        lemma_sum_to_swap(k, m, h);
        let before = |w: int| sum_to(k, |v: int| h(v, w));
        let last = |w: int| h(n - 1, w);
        lemma_sum_to_plus(m, before, last);
        assert forall|w: int| 0 <= w < m implies #[trigger] right(w) == before(w) + last(w) by {
            let col = |v: int| h(v, w);
            assert(sum_to(n, col) == sum_to(k, col) + col(n - 1));
        }
        lemma_sum_to_eq(m, right, |w: int| before(w) + last(w));
    }
}

/// A sum over labels is a sum over the indices of the last label.
proof fn lemma_sum_over_step<L>(
    labels: Seq<L>,
    size: spec_fn(L) -> nat,
    f: Tensor<L>,
    s: Assignment<L>,
    g: spec_fn(int) -> int,
)
    requires
        labels.len() > 0,
        forall|v: int|
            0 <= v < size(labels.last()) ==> #[trigger] g(v) == sum_over(
                labels.drop_last(),
                size,
                f,
                with(s, labels.last(), v),
            ),
    ensures
        sum_over(labels, size, f, s) == sum_to(size(labels.last()), g),
{
    lemma_sum_below_step(labels, size, f, s, g, size(labels.last()));
}

proof fn lemma_sum_below_step<L>(
    labels: Seq<L>,
    size: spec_fn(L) -> nat,
    f: Tensor<L>,
    s: Assignment<L>,
    g: spec_fn(int) -> int,
    n: nat,
)
    requires
        labels.len() > 0,
        forall|v: int|
            0 <= v < n ==> #[trigger] g(v) == sum_over(
                labels.drop_last(),
                size,
                f,
                with(s, labels.last(), v),
            ),
    ensures
        sum_below(labels, size, f, s, n) == sum_to(n, g),
    decreases n,
{
    if n > 0 {
        lemma_sum_below_step(labels, size, f, s, g, (n - 1) as nat);
        assert(g(n - 1) == sum_over(labels.drop_last(), size, f, with(s, labels.last(), n - 1)));
    }
}

proof fn lemma_with_commutes<L>(s: Assignment<L>, x: L, v: int, y: L, w: int)
    requires
        x != y,
    ensures
        with(with(s, x, v), y, w) == with(with(s, y, w), x, v),
{
    assert(with(with(s, x, v), y, w) =~= with(with(s, y, w), x, v));
}

/// Summing over two lists is summing over one inside of the other.
proof fn lemma_sum_over_concat<L>(
    a: Seq<L>,
    b: Seq<L>,
    size: spec_fn(L) -> nat,
    f: Tensor<L>,
    s: Assignment<L>,
)
    ensures
        sum_over(a + b, size, f, s) == sum_over(
            b,
            size,
            |r: Assignment<L>| sum_over(a, size, f, r),
            s,
        ),
    decreases b.len(),
{
    let inner = |r: Assignment<L>| sum_over(a, size, f, r);
    if b.len() == 0 {
        assert(a + b =~= a);
    } else {
        let l = b.last();
        assert((a + b).last() == l);
        assert((a + b).drop_last() =~= a + b.drop_last());
        let p = |v: int| sum_over((a + b).drop_last(), size, f, with(s, l, v));
        let q = |v: int| sum_over(b.drop_last(), size, inner, with(s, l, v));
        assert forall|v: int| 0 <= v < size(l) implies #[trigger] p(v) == q(v) by {
            lemma_sum_over_concat(a, b.drop_last(), size, f, with(s, l, v));
        }
        lemma_sum_to_eq(size(l), p, q);
        lemma_sum_over_step(a + b, size, f, s, p);
        lemma_sum_over_step(b, size, inner, s, q);
    }
}

/// A label may be summed over last instead of first.
proof fn lemma_sum_over_rotate<L>(
    x: L,
    b: Seq<L>,
    size: spec_fn(L) -> nat,
    f: Tensor<L>,
    s: Assignment<L>,
)
    requires
        !b.contains(x),
    ensures
        sum_over(seq![x] + b, size, f, s) == sum_over(b.push(x), size, f, s),
    decreases b.len(),
{
    let first = seq![x] + b;
    let last = b.push(x);
    if b.len() == 0 {
        assert(first =~= last);
    } else {
        let y = b.last();
        let rest = b.drop_last();
        assert(b.contains(y));
        assert(x != y);
        assert(!rest.contains(x)) by {
            if rest.contains(x) {
                assert(b[rest.index_of(x)] == x);
            }
        }
        let h = |v: int, w: int| sum_over(rest, size, f, with(with(s, y, v), x, w));
        assert(first.last() == y);
        assert(first.drop_last() =~= seq![x] + rest);
        let p = |v: int| sum_over(first.drop_last(), size, f, with(s, y, v));
        let p2 = |v: int| sum_to(size(x), |w: int| h(v, w));
        assert forall|v: int| 0 <= v < size(y) implies #[trigger] p(v) == p2(v) by {
            lemma_sum_over_rotate(x, rest, size, f, with(s, y, v));
            assert(rest.push(x).drop_last() =~= rest);
            lemma_sum_over_step(rest.push(x), size, f, with(s, y, v), |w: int| h(v, w));
        }
        lemma_sum_to_eq(size(y), p, p2);
        lemma_sum_over_step(first, size, f, s, p);
        assert(last.drop_last() =~= b);
        let q = |w: int| sum_over(last.drop_last(), size, f, with(s, x, w));
        let q2 = |w: int| sum_to(size(y), |v: int| h(v, w));
        assert forall|w: int| 0 <= w < size(x) implies #[trigger] q(w) == q2(w) by {
            let c = |v: int| h(v, w);
            assert forall|v: int| 0 <= v < size(y) implies #[trigger] c(v) == sum_over(
                rest,
                size,
                f,
                with(with(s, x, w), y, v),
            ) by {
                lemma_with_commutes(s, x, w, y, v);
            }
            lemma_sum_over_step(b, size, f, with(s, x, w), c);
        }
        lemma_sum_to_eq(size(x), q, q2);
        lemma_sum_over_step(last, size, f, s, q);
        lemma_sum_to_swap(size(y), size(x), h);
    }
}

/// A label may be moved to the end of the list that is summed over.
proof fn lemma_sum_over_move<L>(
    p: Seq<L>,
    i: int,
    size: spec_fn(L) -> nat,
    f: Tensor<L>,
    s: Assignment<L>,
)
    requires
        p.no_duplicates(),
        0 <= i < p.len(),
    ensures
        sum_over(p, size, f, s) == sum_over(p.remove(i).push(p[i]), size, f, s),
{
    let a = p.take(i);
    let x = p[i];
    let b = p.skip(i + 1);
    let inner = |r: Assignment<L>| sum_over(a, size, f, r);
    assert(p =~= a + (seq![x] + b));
    assert(p.remove(i).push(x) =~= a + b.push(x));
    assert(!b.contains(x)) by {
        if b.contains(x) {
            let j = b.index_of(x);
            assert(p[i + 1 + j] == x);
        }
    }
    lemma_sum_over_concat(a, seq![x] + b, size, f, s);
    lemma_sum_over_concat(a, b.push(x), size, f, s);
    lemma_sum_over_rotate(x, b, size, inner, s);
}

/// The order of the labels that are summed over does not matter.
proof fn lemma_sum_over_permute<L>(
    p: Seq<L>,
    q: Seq<L>,
    size: spec_fn(L) -> nat,
    f: Tensor<L>,
    s: Assignment<L>,
)
    requires
        p.no_duplicates(),
        q.no_duplicates(),
        forall|l: L| p.contains(l) <==> q.contains(l),
    ensures
        sum_over(p, size, f, s) == sum_over(q, size, f, s),
    decreases q.len(),
{
    if q.len() == 0 {
        if p.len() > 0 {
            assert(p.contains(p[0]));
        }
        assert(p =~= q);
    } else {
        let x = q.last();
        assert(q.contains(x));
        let i = p.index_of(x);
        let rest = p.remove(i);
        lemma_sum_over_move(p, i, size, f, s);
        assert(rest.push(x).drop_last() =~= rest);
        assert(rest.no_duplicates());
        assert forall|l: L| rest.contains(l) <==> q.drop_last().contains(l) by {
            if rest.contains(l) {
                let j = rest.index_of(l);
                let k = if j < i {
                    j
                } else {
                    j + 1
                };
                assert(p[k] == l);
                assert(p.contains(l));
                let m = q.index_of(l);
                assert(l != x);
                assert(m != q.len() - 1);
                assert(q.drop_last()[m] == l);
            }
            if q.drop_last().contains(l) {
                let m = q.drop_last().index_of(l);
                assert(q[m] == l);
                assert(q.contains(l));
                assert(p.contains(l));
                assert(l != x);
                let k = p.index_of(l);
                assert(k != i);
                let j = if k < i {
                    k
                } else {
                    k - 1
                };
                assert(rest[j] == l);
            }
        }
        let a = |v: int| sum_over(rest.push(x).drop_last(), size, f, with(s, x, v));
        let b = |v: int| sum_over(q.drop_last(), size, f, with(s, x, v));
        assert forall|v: int| 0 <= v < size(x) implies #[trigger] a(v) == b(v) by {
            lemma_sum_over_permute(rest, q.drop_last(), size, f, with(s, x, v));
        }
        lemma_sum_to_eq(size(x), a, b);
        lemma_sum_over_step(rest.push(x), size, f, s, a);
        lemma_sum_over_step(q, size, f, s, b);
    }
}

/// A factor that ignores the labels that are summed over may be taken out of the sum.
proof fn lemma_sum_over_times<L>(
    labels: Seq<L>,
    size: spec_fn(L) -> nat,
    f: Tensor<L>,
    g: Tensor<L>,
    s: Assignment<L>,
)
    requires
        forall|l: L| labels.contains(l) ==> #[trigger] ignores(g, l),
    ensures
        sum_over(labels, size, |r: Assignment<L>| f(r) * g(r), s) == sum_over(labels, size, f, s)
            * g(s),
    decreases labels.len(),
{
    let fg = |r: Assignment<L>| f(r) * g(r);
    if labels.len() > 0 {
        let x = labels.last();
        let rest = labels.drop_last();
        assert(labels.contains(x));
        assert(ignores(g, x));
        assert forall|l: L| rest.contains(l) implies #[trigger] ignores(g, l) by {
            assert(labels[rest.index_of(l)] == l);
        }
        let a = |v: int| sum_over(rest, size, fg, with(s, x, v));
        let b = |v: int| sum_over(rest, size, f, with(s, x, v));
        assert forall|v: int| 0 <= v < size(x) implies #[trigger] a(v) == b(v) * g(s) by {
            lemma_sum_over_times(rest, size, f, g, with(s, x, v));
            assert(g(with(s, x, v)) == g(s));
        }
        lemma_sum_over_step(labels, size, fg, s, a);
        lemma_sum_over_step(labels, size, f, s, b);
        lemma_sum_to_eq(size(x), a, |v: int| b(v) * g(s));
        lemma_sum_to_times(size(x), b, g(s));
    }
}

/// A sum ignores a label that its terms ignore.
proof fn lemma_sum_over_ignores<L>(
    labels: Seq<L>,
    size: spec_fn(L) -> nat,
    f: Tensor<L>,
    l: L,
    s: Assignment<L>,
    w: int,
)
    requires
        ignores(f, l),
        !labels.contains(l),
    ensures
        sum_over(labels, size, f, with(s, l, w)) == sum_over(labels, size, f, s),
    decreases labels.len(),
{
    if labels.len() == 0 {
        assert(f(with(s, l, w)) == f(s));
    } else {
        let x = labels.last();
        let rest = labels.drop_last();
        assert(labels.contains(x));
        assert(!rest.contains(l)) by {
            if rest.contains(l) {
                assert(labels[rest.index_of(l)] == l);
            }
        }
        let a = |v: int| sum_over(rest, size, f, with(with(s, l, w), x, v));
        let b = |v: int| sum_over(rest, size, f, with(s, x, v));
        assert forall|v: int| 0 <= v < size(x) implies #[trigger] a(v) == b(v) by {
            lemma_with_commutes(s, l, w, x, v);
            lemma_sum_over_ignores(rest, size, f, l, with(s, x, v), w);
        }
        lemma_sum_to_eq(size(x), a, b);
        lemma_sum_over_step(labels, size, f, with(s, l, w), a);
        lemma_sum_over_step(labels, size, f, s, b);
    }
}

proof fn lemma_without<L>(labels: Seq<L>, iy: Seq<L>)
    requires
        labels.no_duplicates(),
    ensures
        without(labels, iy).no_duplicates(),
        forall|l: L| #[trigger]
            without(labels, iy).contains(l) <==> labels.contains(l) && !iy.contains(l),
    decreases labels.len(),
{
    if labels.len() > 0 {
        let rest = labels.drop_last();
        let x = labels.last();
        lemma_without(rest, iy);
        assert(!rest.contains(x)) by {
            if rest.contains(x) {
                assert(labels[rest.index_of(x)] == labels[labels.len() - 1]);
            }
        }
        assert forall|l: L| #[trigger] without(labels, iy).contains(l) <==> labels.contains(l)
            && !iy.contains(l) by {
            crate::expr_tree::lemma_push_contains(rest, x, l);
            crate::expr_tree::lemma_push_contains(without(rest, iy), x, l);
            assert(labels =~= rest.push(x));
            assert(without(rest, iy).contains(l) <==> rest.contains(l) && !iy.contains(l));
        }
        assert(!without(rest, iy).contains(x));
    }
}

/// An expression sums over exactly the labels of its arguments that it does not yield.
proof fn lemma_summed<L>(eins: Ein<L>)
    ensures
        eins.summed().no_duplicates(),
        forall|l: L| #[trigger]
            eins.summed().contains(l) <==> (exists|i: int|
                0 <= i < eins.ixs.len() && (#[trigger] eins.ixs[i]).contains(l))
                && !eins.iy.contains(l),
{
    let all = crate::eincode::concat(eins.ixs);
    crate::eincode::lemma_distinct(all);
    lemma_without(crate::eincode::distinct(all), eins.iy);
    assert forall|l: L| #[trigger] eins.summed().contains(l) <==> (exists|i: int|
        0 <= i < eins.ixs.len() && (#[trigger] eins.ixs[i]).contains(l))
        && !eins.iy.contains(l) by {
        crate::eincode::lemma_concat(eins.ixs, l);
        assert(crate::eincode::distinct(all).contains(l) <==> all.contains(l));
    }
}

proof fn lemma_product_concat<L>(
    a: Seq<usize>,
    b: Seq<usize>,
    tensors: Seq<Tensor<L>>,
    s: Assignment<L>,
)
    ensures
        product(a + b, tensors, s) == product(a, tensors, s) * product(b, tensors, s),
    decreases b.len(),
{
    let pa = product(a, tensors, s);
    if b.len() == 0 {
        assert(a + b =~= a);
        assert(pa * 1 == pa);
    } else {
        assert((a + b).drop_last() =~= a + b.drop_last());
        lemma_product_concat(a, b.drop_last(), tensors, s);
        let pb = product(b.drop_last(), tensors, s);
        let x = (tensors[b.last() as int])(s);
        assert((pa * pb) * x == pa * (pb * x)) by (nonlinear_arith);
    }
}

/// The product does not depend on the order of the factors.
proof fn lemma_product_permute<L>(
    a: Seq<usize>,
    b: Seq<usize>,
    tensors: Seq<Tensor<L>>,
    s: Assignment<L>,
)
    requires
        a.to_multiset() == b.to_multiset(),
    ensures
        product(a, tensors, s) == product(b, tensors, s),
    decreases a.len(),
{
    broadcast use vstd::seq_lib::group_to_multiset_ensures;

    assert(a.to_multiset().len() == a.len() && b.to_multiset().len() == b.len());
    if a.len() == 0 {
        assert(a =~= b);
    } else {
        let x = a.last();
        assert(a.contains(x));
        assert(b.to_multiset().count(x) > 0);
        let k = b.index_of(x);
        let rest = b.remove(k);
        assert(a.drop_last() =~= a.remove(a.len() - 1));
        assert(a.remove(a.len() - 1).to_multiset() =~= rest.to_multiset());
        lemma_product_permute(a.drop_last(), rest, tensors, s);
        let left = b.take(k);
        let right = b.skip(k + 1);
        assert(b =~= left.push(x) + right);
        assert(rest =~= left + right);
        lemma_product_concat(left.push(x), right, tensors, s);
        lemma_product_concat(left, right, tensors, s);
        assert(left.push(x).drop_last() =~= left);
        let (p, q, t) = (
            product(left, tensors, s),
            product(right, tensors, s),
            (tensors[x as int])(s),
        );
        assert((p * t) * q == (p * q) * t) by (nonlinear_arith);
    }
}

/// The product of tensors ignores a label that none of them carries.
proof fn lemma_product_ignores<L>(
    ids: Seq<usize>,
    tensors: Seq<Tensor<L>>,
    l: L,
    s: Assignment<L>,
    v: int,
)
    requires
        forall|k: int| 0 <= k < ids.len() ==> ignores(tensors[#[trigger] ids[k] as int], l),
    ensures
        product(ids, tensors, with(s, l, v)) == product(ids, tensors, s),
    decreases ids.len(),
{
    if ids.len() > 0 {
        let rest = ids.drop_last();
        assert forall|k: int| 0 <= k < rest.len() implies ignores(
            tensors[#[trigger] rest[k] as int],
            l,
        ) by {
            assert(rest[k] == ids[k]);
        }
        lemma_product_ignores(rest, tensors, l, s, v);
        let last = tensors[ids[ids.len() - 1] as int];
        assert(ignores(last, l));
        assert(last(with(s, l, v)) == last(s));
    }
}

/// A label that does not occur in a part of an order is carried by none of its tensors.
proof fn lemma_absent<L>(
    n: Nested<L>,
    ixs: Seq<Seq<L>>,
    outside: Set<L>,
    tensors: Seq<Tensor<L>>,
    l: L,
)
    requires
        carry(tensors, ixs),
        n.contracts(ixs, outside),
        !n.occurs(ixs, l),
    ensures
        forall|k: int|
            0 <= k < n.leaves().len() ==> ignores(tensors[#[trigger] n.leaves()[k] as int], l),
    decreases n,
{
    match n {
        Nested::Leaf { tensor_index } => {
            assert(ignores(tensors[tensor_index as int], l));
        },
        Nested::Node { args, .. } => {
            let (a, b) = (args[0], args[1]);
            crate::order::lemma_two_occurs(n, ixs, l);
            lemma_absent(a, ixs, outside + b.label_set(ixs), tensors, l);
            lemma_absent(b, ixs, outside + a.label_set(ixs), tensors, l);
            crate::eincode::lemma_two_leaves(args);
            assert forall|k: int| 0 <= k < n.leaves().len() implies ignores(
                tensors[#[trigger] n.leaves()[k] as int],
                l,
            ) by {
                if k < a.leaves().len() {
                    assert(n.leaves()[k] == a.leaves()[k]);
                } else {
                    assert(n.leaves()[k] == b.leaves()[k - a.leaves().len()]);
                }
            }
        },
    }
}

/// The product of the tensors of an order, as a tensor.
spec fn leaf_product<L>(n: Nested<L>, tensors: Seq<Tensor<L>>) -> Tensor<L> {
    |r: Assignment<L>| product(n.leaves(), tensors, r)
}

/// Whether the value of `n` is the sum over `e` of the products of its tensors.
spec fn sums_to<L>(
    n: Nested<L>,
    tensors: Seq<Tensor<L>>,
    size: spec_fn(L) -> nat,
    e: Seq<L>,
) -> bool {
    forall|s: Assignment<L>|
        #[trigger] n.value(tensors, size)(s) == sum_over(e, size, leaf_product(n, tensors), s)
}

/// The value of an expression over two parts, given what the parts sum to.
proof fn lemma_pair_value<L>(
    n: Nested<L>,
    ixs: Seq<Seq<L>>,
    outside: Set<L>,
    tensors: Seq<Tensor<L>>,
    size: spec_fn(L) -> nat,
    ea: Seq<L>,
    eb: Seq<L>,
)
    requires
        carry(tensors, ixs),
        n is Node,
        n.pairs_up(ixs),
        n->args[0].contracts(ixs, outside + n->args[1].label_set(ixs)),
        n->args[1].contracts(ixs, outside + n->args[0].label_set(ixs)),
        forall|l: L| ea.contains(l) ==> !(#[trigger] n->args[1].occurs(ixs, l)),
        forall|l: L| eb.contains(l) ==> !(#[trigger] n->args[0].occurs(ixs, l)),
        forall|l: L| !(ea.contains(l) && eb.contains(l)),
        sums_to(n->args[0], tensors, size, ea),
        sums_to(n->args[1], tensors, size, eb),
    ensures
        sums_to(n, tensors, size, eb + ea + n->eins.summed()),
{
    let (a, b) = (n->args[0], n->args[1]);
    let args = n->args;
    let summed = n->eins.summed();
    let pa = leaf_product(a, tensors);
    let pb = leaf_product(b, tensors);
    let pn = leaf_product(n, tensors);
    let va = a.value(tensors, size);
    let vb = b.value(tensors, size);
    let both = product_of(seq![va, vb]);
    let aout = outside + b.label_set(ixs);
    let bout = outside + a.label_set(ixs);
    assert forall|l: L| ea.contains(l) implies #[trigger] ignores(vb, l) by {
        assert(!b.occurs(ixs, l));
        lemma_absent(b, ixs, bout, tensors, l);
        assert(ignores(pb, l)) by {
            assert forall|s: Assignment<L>, v: int| #[trigger] pb(with(s, l, v)) == pb(s) by {
                lemma_product_ignores(b.leaves(), tensors, l, s, v);
            }
        }
        assert forall|s: Assignment<L>, v: int| #[trigger] vb(with(s, l, v)) == vb(s) by {
            assert(vb(with(s, l, v)) == sum_over(eb, size, pb, with(s, l, v)));
            assert(vb(s) == sum_over(eb, size, pb, s));
            lemma_sum_over_ignores(eb, size, pb, l, s, v);
        }
    }
    assert forall|l: L| eb.contains(l) implies #[trigger] ignores(pa, l) by {
        assert(!a.occurs(ixs, l));
        lemma_absent(a, ixs, aout, tensors, l);
        assert forall|s: Assignment<L>, v: int| #[trigger] pa(with(s, l, v)) == pa(s) by {
            lemma_product_ignores(a.leaves(), tensors, l, s, v);
        }
    }
    crate::eincode::lemma_two_leaves(args);
    let f1 = |r: Assignment<L>| pa(r) * vb(r);
    let f2 = |r: Assignment<L>| pb(r) * pa(r);
    let inner = |r: Assignment<L>| sum_over(eb, size, pn, r);
    assert forall|r: Assignment<L>| #[trigger] f2(r) == pn(r) by {
        lemma_product_concat(a.leaves(), b.leaves(), tensors, r);
        let (x, y) = (pa(r), pb(r));
        assert(y * x == x * y) by (nonlinear_arith);
    }
    assert(f2 =~= pn);
    assert forall|r: Assignment<L>| #[trigger] f1(r) == inner(r) by {
        lemma_sum_over_times(eb, size, pb, pa, r);
        assert(vb(r) == sum_over(eb, size, pb, r));
        let (x, y) = (pa(r), vb(r));
        assert(x * y == y * x) by (nonlinear_arith);
    }
    assert(f1 =~= inner);
    let outer = |r: Assignment<L>| sum_over(eb + ea, size, pn, r);
    assert forall|r: Assignment<L>| #[trigger] both(r) == outer(r) by {
        lemma_two_product(va, vb, r);
        assert(va(r) == sum_over(ea, size, pa, r));
        lemma_sum_over_times(ea, size, pa, vb, r);
        lemma_sum_over_concat(eb, ea, size, pn, r);
    }
    assert(both =~= outer);
    assert forall|s: Assignment<L>| #[trigger] n.value(tensors, size)(s) == sum_over(
        eb + ea + summed,
        size,
        pn,
        s,
    ) by {
        lemma_sum_over_concat(eb + ea, summed, size, pn, s);
        lemma_pair_unfold(n, tensors, size);
    }
}

proof fn lemma_two_product<L>(f: Tensor<L>, g: Tensor<L>, s: Assignment<L>)
    ensures
        product_of(seq![f, g])(s) == f(s) * g(s),
{
    let ids = crate::init::first_ids(2);
    reveal_with_fuel(product, 3);
    assert(ids.drop_last().drop_last() =~= Seq::empty());
    let x = f(s);
    assert(1 * x == x);
}

/// An expression over two arguments, unfolded.
proof fn lemma_pair_unfold<L>(n: Nested<L>, tensors: Seq<Tensor<L>>, size: spec_fn(L) -> nat)
    requires
        n is Node,
        n->args.len() == 2,
    ensures
        n.value(tensors, size) == n->eins.value(
            seq![n->args[0].value(tensors, size), n->args[1].value(tensors, size)],
            size,
        ),
{
    let args = n->args;
    reveal_with_fuel(Nested::values, 3);
    assert(args.drop_last().drop_last() =~= Seq::empty());
    assert(Nested::values(args, tensors, size) =~= seq![
        args[0].value(tensors, size),
        args[1].value(tensors, size),
    ]);
}

/// The labels that a part of an order yields occur in it, and those that occur in it but not in
/// what it yields occur nowhere else.
proof fn lemma_yields<L>(n: Nested<L>, ixs: Seq<Seq<L>>, outside: Set<L>, l: L)
    requires
        n.contracts(ixs, outside),
    ensures
        crate::convert::child_labels(n, ixs).contains(l) ==> n.occurs(ixs, l),
        n.occurs(ixs, l) && (n is Leaf || outside.contains(l)) ==> crate::convert::child_labels(
            n,
            ixs,
        ).contains(l),
        n is Node && crate::convert::child_labels(n, ixs).contains(l) ==> outside.contains(l),
{
    match n {
        Nested::Leaf { .. } => {},
        Nested::Node { eins, .. } => {
            assert(eins.iy.contains(l) <==> n.occurs(ixs, l) && outside.contains(l));
        },
    }
}

/// The labels summed over inside of two parts and at the expression over them are all different,
/// and are those of the parts that are not needed outside.
proof fn lemma_pair_labels<L>(
    n: Nested<L>,
    ixs: Seq<Seq<L>>,
    outside: Set<L>,
    ea: Seq<L>,
    eb: Seq<L>,
)
    requires
        n is Node,
        n.pairs_up(ixs),
        n->args[0].contracts(ixs, outside + n->args[1].label_set(ixs)),
        n->args[1].contracts(ixs, outside + n->args[0].label_set(ixs)),
        forall|l: L| #[trigger]
            n.occurs(ixs, l) ==> (n->eins.iy.contains(l) <==> outside.contains(l)),
        ea.no_duplicates(),
        eb.no_duplicates(),
        forall|l: L| #[trigger]
            ea.contains(l) <==> n->args[0] is Node && n->args[0].occurs(ixs, l) && !(outside
                + n->args[1].label_set(ixs)).contains(l),
        forall|l: L| #[trigger]
            eb.contains(l) <==> n->args[1] is Node && n->args[1].occurs(ixs, l) && !(outside
                + n->args[0].label_set(ixs)).contains(l),
    ensures
        (eb + ea + n->eins.summed()).no_duplicates(),
        forall|l: L| #[trigger]
            (eb + ea + n->eins.summed()).contains(l) <==> n.occurs(ixs, l) && !outside.contains(l),
{
    let (a, b) = (n->args[0], n->args[1]);
    let eins = n->eins;
    let summed = eins.summed();
    let aout = outside + b.label_set(ixs);
    let bout = outside + a.label_set(ixs);
    let (aix, bix) = (crate::convert::child_labels(a, ixs), crate::convert::child_labels(b, ixs));
    lemma_summed(eins);
    assert(eins.ixs[0] == aix && eins.ixs[1] == bix && eins.ixs.len() == 2);
    assert forall|l: L| #[trigger] summed.contains(l) <==> (aix.contains(l) || bix.contains(l))
        && !eins.iy.contains(l) by {
        if aix.contains(l) {
            assert(eins.ixs[0].contains(l));
        }
        if bix.contains(l) {
            assert(eins.ixs[1].contains(l));
        }
    }
    assert forall|l: L| true implies !(#[trigger] ea.contains(l) && eb.contains(l)) && !(ea.contains(l)
        && summed.contains(l)) && !(eb.contains(l) && summed.contains(l)) by {
        lemma_yields(a, ixs, aout, l);
        lemma_yields(b, ixs, bout, l);
    }
    assert forall|l: L| #[trigger] eb.contains(l) implies !summed.contains(l) && !ea.contains(l) by {
        assert(!(ea.contains(l) && eb.contains(l)));
        lemma_yields(a, ixs, aout, l);
        lemma_yields(b, ixs, bout, l);
    }
    lemma_concat_distinct(eb, ea);
    assert forall|l: L| !((eb + ea).contains(l) && #[trigger] summed.contains(l)) by {
        crate::plan::lemma_concat_contains(eb, ea, l);
        assert(!(ea.contains(l) && summed.contains(l)));
    }
    lemma_concat_distinct(eb + ea, summed);
    assert forall|l: L| #[trigger] (eb + ea + summed).contains(l) <==> n.occurs(ixs, l)
        && !outside.contains(l) by {
        crate::plan::lemma_concat_contains(eb, ea, l);
        crate::plan::lemma_concat_contains(eb + ea, summed, l);
        crate::order::lemma_two_occurs(n, ixs, l);
        lemma_yields(a, ixs, aout, l);
        lemma_yields(b, ixs, bout, l);
        assert(summed.contains(l) <==> (aix.contains(l) || bix.contains(l)) && !eins.iy.contains(l));
    }
}

proof fn lemma_concat_distinct<L>(a: Seq<L>, b: Seq<L>)
    requires
        a.no_duplicates(),
        b.no_duplicates(),
        forall|l: L| !(a.contains(l) && #[trigger] b.contains(l)),
    ensures
        (a + b).no_duplicates(),
{
    let c = a + b;
    assert forall|i: int, j: int| 0 <= i < c.len() && 0 <= j < c.len() && i != j implies c[i]
        != c[j] by {
        if i < a.len() && j >= a.len() {
            assert(a.contains(c[i]));
            assert(b[j - a.len()] == c[j]);
            assert(b.contains(c[j]));
        }
        if j < a.len() && i >= a.len() {
            assert(a.contains(c[j]));
            assert(b[i - a.len()] == c[i]);
            assert(b.contains(c[i]));
        }
    }
}

/// A part of an order computes the sum of the products of its tensors, over the labels that are
/// not needed outside of it.
proof fn lemma_part_value<L>(
    n: Nested<L>,
    ixs: Seq<Seq<L>>,
    outside: Set<L>,
    tensors: Seq<Tensor<L>>,
    size: spec_fn(L) -> nat,
) -> (e: Seq<L>)
    requires
        carry(tensors, ixs),
        n.contracts(ixs, outside),
    ensures
        e.no_duplicates(),
        forall|l: L| #[trigger]
            e.contains(l) <==> n is Node && n.occurs(ixs, l) && !outside.contains(l),
        sums_to(n, tensors, size, e),
    decreases n,
{
    match n {
        Nested::Leaf { tensor_index } => {
            let e = Seq::<L>::empty();
            assert forall|s: Assignment<L>|
                #[trigger] n.value(tensors, size)(s) == sum_over(
                    e,
                    size,
                    leaf_product(n, tensors),
                    s,
                ) by {
                let x = (tensors[tensor_index as int])(s);
                reveal_with_fuel(product, 2);
                assert(n.leaves().drop_last() =~= Seq::empty());
                assert(1 * x == x);
            }
            e
        },
        Nested::Node { args, eins } => {
            let (a, b) = (args[0], args[1]);
            let ea = lemma_part_value(a, ixs, outside + b.label_set(ixs), tensors, size);
            let eb = lemma_part_value(b, ixs, outside + a.label_set(ixs), tensors, size);
            assert forall|l: L| #[trigger] n.occurs(ixs, l) implies (eins.iy.contains(l)
                <==> outside.contains(l)) by {
                assert(eins.iy.contains(l) <==> n.occurs(ixs, l) && outside.contains(l));
            }
            lemma_pair_labels(n, ixs, outside, ea, eb);
            lemma_pair_value(n, ixs, outside, tensors, size, ea, eb);
            eb + ea + eins.summed()
        },
    }
}

/// A label occurs in an order that has every tensor exactly where it occurs in the network.
proof fn lemma_order_occurs<L>(n: Nested<L>, ixs: Seq<Seq<L>>, l: L)
    requires
        ixs.len() <= usize::MAX,
        n.pairs_up(ixs),
        n->args[0].binary(),
        n->args[1].binary(),
        n.leaves().to_multiset() == crate::init::first_ids(ixs.len()).to_multiset(),
    ensures
        n.occurs(ixs, l) <==> exists|i: int| 0 <= i < ixs.len() && (#[trigger] ixs[i]).contains(l),
{
    let ids = crate::init::first_ids(ixs.len());
    lemma_occurs_at_leaf(n, ixs, l);
    n.leaves().to_multiset_ensures();
    ids.to_multiset_ensures();
    if n.occurs(ixs, l) {
        let k = choose|k: int|
            0 <= k < n.leaves().len() && n.leaves()[k] < ixs.len() && ixs[
            #[trigger] n.leaves()[k] as int].contains(l);
        assert(ixs[n.leaves()[k] as int].contains(l));
    }
    if exists|i: int| 0 <= i < ixs.len() && (#[trigger] ixs[i]).contains(l) {
        let i = choose|i: int| 0 <= i < ixs.len() && (#[trigger] ixs[i]).contains(l);
        assert(ids[i] == i as usize);
        assert(ids.contains(i as usize));
        assert(n.leaves().to_multiset().count(i as usize) > 0);
        let k = n.leaves().index_of(i as usize);
        assert(ixs[n.leaves()[k] as int].contains(l));
    }
}

/// A label occurs in an order where a leaf carries it.
proof fn lemma_occurs_at_leaf<L>(n: Nested<L>, ixs: Seq<Seq<L>>, l: L)
    requires
        n.binary(),
    ensures
        n.occurs(ixs, l) <==> exists|k: int|
            0 <= k < n.leaves().len() && n.leaves()[k] < ixs.len() && ixs[
            #[trigger] n.leaves()[k] as int].contains(l),
    decreases n,
{
    match n {
        Nested::Leaf { tensor_index } => {
            assert(n.leaves()[0] == tensor_index);
        },
        Nested::Node { args, .. } => {
            let (a, b) = (args[0], args[1]);
            let (al, bl) = (a.leaves(), b.leaves());
            lemma_occurs_at_leaf(a, ixs, l);
            lemma_occurs_at_leaf(b, ixs, l);
            crate::eincode::lemma_two_leaves(args);
            crate::order::lemma_two_occurs(n, ixs, l);
            if a.occurs(ixs, l) {
                let k = choose|k: int|
                    0 <= k < al.len() && al[k] < ixs.len() && ixs[
                        #[trigger] al[k] as int].contains(l);
                assert(n.leaves()[k] == al[k]);
            }
            if b.occurs(ixs, l) {
                let k = choose|k: int|
                    0 <= k < bl.len() && bl[k] < ixs.len() && ixs[
                        #[trigger] bl[k] as int].contains(l);
                assert(n.leaves()[al.len() + k] == bl[k]);
            }
            if exists|k: int|
                0 <= k < n.leaves().len() && n.leaves()[k] < ixs.len() && ixs[
            #[trigger] n.leaves()[k] as int].contains(l) {
                let k = choose|k: int|
                    0 <= k < n.leaves().len() && n.leaves()[k] < ixs.len() && ixs[
            #[trigger] n.leaves()[k] as int].contains(l);
                if k < al.len() {
                    assert(al[k] == n.leaves()[k]);
                } else {
                    assert(bl[k - al.len()] == n.leaves()[k]);
                }
            }
        },
    }
}

/// A part of an order takes two arguments everywhere.
proof fn lemma_contracts_binary<L>(n: Nested<L>, ixs: Seq<Seq<L>>, outside: Set<L>)
    requires
        n.contracts(ixs, outside),
    ensures
        n.binary(),
    decreases n,
{
    match n {
        Nested::Leaf { .. } => {},
        Nested::Node { args, .. } => {
            lemma_contracts_binary(args[0], ixs, outside + args[1].label_set(ixs));
            lemma_contracts_binary(args[1], ixs, outside + args[0].label_set(ixs));
        },
    }
}

/// Every contraction order of an expression computes what the expression computes, whatever the
/// tensors and the sizes of the indices are.
pub proof fn order_computes_code<L>(
    n: Nested<L>,
    code: Ein<L>,
    tensors: Seq<Tensor<L>>,
    size: spec_fn(L) -> nat,
    s: Assignment<L>,
)
    requires
        n.is_order_of(code),
        code.ixs.len() <= usize::MAX,
        carry(tensors, code.ixs),
    ensures
        n.value(tensors, size)(s) == code.value(tensors, size)(s),
{
    let ixs = code.ixs;
    let outside = code.iy.to_set();
    let (a, b) = (n->args[0], n->args[1]);
    let ea = lemma_part_value(a, ixs, outside + b.label_set(ixs), tensors, size);
    let eb = lemma_part_value(b, ixs, outside + a.label_set(ixs), tensors, size);
    lemma_pair_labels(n, ixs, outside, ea, eb);
    lemma_pair_value(n, ixs, outside, tensors, size, ea, eb);
    lemma_contracts_binary(a, ixs, outside + b.label_set(ixs));
    lemma_contracts_binary(b, ixs, outside + a.label_set(ixs));
    let e = eb + ea + n->eins.summed();
    lemma_summed(code);
    assert forall|l: L| e.contains(l) <==> code.summed().contains(l) by {
        lemma_order_occurs(n, ixs, l);
    }
    let pn = leaf_product(n, tensors);
    let pc = product_of(tensors);
    assert forall|r: Assignment<L>| #[trigger] pn(r) == pc(r) by {
        lemma_product_permute(n.leaves(), crate::init::first_ids(ixs.len()), tensors, r);
    }
    assert(pn =~= pc);
    lemma_sum_over_permute(e, code.summed(), size, pn, s);
    assert(n.value(tensors, size)(s) == sum_over(e, size, pn, s));
}

/// Any two contraction orders of an expression compute the same.
pub proof fn orders_agree<L>(
    n: Nested<L>,
    m: Nested<L>,
    code: Ein<L>,
    tensors: Seq<Tensor<L>>,
    size: spec_fn(L) -> nat,
    s: Assignment<L>,
)
    requires
        n.is_order_of(code),
        m.is_order_of(code),
        code.ixs.len() <= usize::MAX,
        carry(tensors, code.ixs),
    ensures
        n.value(tensors, size)(s) == m.value(tensors, size)(s),
{
    order_computes_code(n, code, tensors, size, s);
    order_computes_code(m, code, tensors, size, s);
}

} // verus!
