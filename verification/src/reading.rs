//! What energies, scores and choices come to where numbers are computed exactly.
//!
//! A reading says which real number a number stands for. Where every operation does on real
//! numbers what its name says, the relations by which the optimizers are specified come to plain
//! statements on products, entries and temperatures.

use crate::counting::{choices, size_at};
use crate::energy::Cost;
use crate::expr_tree::Tree;
use crate::scalar::Scalar;
use crate::score::TreeCost;
use vstd::prelude::*;

verus! {

/// How numbers are read: as real numbers, and, where they are binary logarithms, as that of which
/// they are the logarithm. `log` is the binary logarithm, and `euler` the exponential function.
#[verifier::reject_recursive_types(R)]
pub struct Reading<R> {
    pub value: spec_fn(R) -> real,
    pub amount: spec_fn(R) -> real,
    pub log: spec_fn(real) -> real,
    pub euler: spec_fn(real) -> real,
}

/// The larger one of two real numbers.
pub open spec fn upper(a: real, b: real) -> real {
    if a < b {
        b
    } else {
        a
    }
}

impl<R: Scalar> Reading<R> {
    /// Whether values are the binary logarithms of amounts.
    #[verifier::opaque]
    pub open spec fn logarithmic(self) -> bool {
        &&& forall|r: R| #[trigger] (self.amount)(r) > 0 as real
        &&& forall|r: R| #[trigger] (self.value)(r) == (self.log)((self.amount)(r))
        &&& (self.log)(1 as real) == 0 as real
        &&& (self.log)(2 as real) == 1 as real
        &&& forall|a: real, b: real|
            (0 as real) < a && a < b ==> #[trigger] (self.log)(a) < #[trigger] (self.log)(b)
        &&& (self.euler)(0 as real) == 1 as real
        &&& forall|a: real, b: real|
            a < b ==> #[trigger] (self.euler)(a) < #[trigger] (self.euler)(b)
    }

    /// Whether the operations on values are exact.
    #[verifier::opaque]
    pub open spec fn linear(self) -> bool {
        &&& forall|r: R| #[trigger] call_ensures(R::zero, (), r) ==> (self.value)(r) == 0 as real
        &&& forall|a: R, b: R, r: R| #[trigger]
            crate::scalar::plus_is(a, b, r) ==> (self.value)(r) == (self.value)(a) + (self.value)(b)
        &&& forall|a: R, b: R, r: R| #[trigger]
            crate::scalar::minus_is(a, b, r) ==> (self.value)(r) == (self.value)(a) - (self.value)(
                b,
            )
        &&& forall|a: R, b: R, r: R| #[trigger]
            crate::scalar::times_is(a, b, r) ==> (self.value)(r) == (self.value)(a) * (self.value)(
                b,
            )
        &&& forall|a: R, b: R, r: R| #[trigger]
            crate::scalar::max_is(a, b, r) ==> (self.value)(r) == upper(
                (self.value)(a),
                (self.value)(b),
            )
        &&& forall|a: R, r: R| #[trigger]
            call_ensures(R::negated, (&a,), r) ==> (self.value)(r) == -(self.value)(a)
        &&& forall|a: R, b: R, r: R| #[trigger]
            call_ensures(R::quotient, (&a, &b), r) && (self.value)(b) != 0 as real ==> (self.value)(
                r,
            ) * (self.value)(b) == (self.value)(a)
        &&& forall|a: R, b: R, lower: bool| #[trigger]
            crate::scalar::less_is(a, b, lower) ==> lower == ((self.value)(a) < (self.value)(b))
        &&& forall|n: nat, r: R| #[trigger]
            crate::greedy::counted_is(n, r) ==> (self.value)(r) == n as real
        &&& forall|start: u64, step: u64, index: u64, r: R| #[trigger]
            call_ensures(R::affine, (start, step, index), r) ==> (self.value)(r) * 100 as real == (
            start + step * index) as real
        &&& forall|a: R, r: R| #[trigger]
            call_ensures(R::exp, (&a,), r) ==> (self.value)(r) == (self.euler)((self.value)(a))
    }

    /// Whether the operations on amounts are exact.
    #[verifier::opaque]
    pub open spec fn exponential(self) -> bool {
        &&& forall|r: R| #[trigger] call_ensures(R::zero, (), r) ==> (self.amount)(r) == 1 as real
        &&& forall|a: R, b: R, r: R| #[trigger]
            crate::scalar::plus_is(a, b, r) ==> (self.amount)(r) == (self.amount)(a)
                * (self.amount)(b)
        &&& forall|a: R, b: R, r: R| #[trigger]
            crate::scalar::lse_is(a, b, r) ==> (self.amount)(r) == (self.amount)(a)
                + (self.amount)(b)
        &&& forall|a: R, b: R, r: R| #[trigger]
            crate::scalar::max_is(a, b, r) ==> (self.amount)(r) == upper(
                (self.amount)(a),
                (self.amount)(b),
            )
        &&& forall|n: usize, r: R| #[trigger]
            call_ensures(R::log2_of, (n,), r) && n > 0 ==> (self.amount)(r) == n as real
        &&& forall|a: R, r: R| #[trigger]
            call_ensures(R::log2, (&a,), r) && (self.value)(a) > 0 as real ==> (self.amount)(r)
                == (self.value)(a)
        &&& forall|a: R, r: R| #[trigger]
            call_ensures(R::exp2, (&a,), r) ==> (self.value)(r) == (self.amount)(a)
    }

    /// Whether every operation is exact.
    pub open spec fn exact(self) -> bool {
        self.logarithmic() && self.linear() && self.exponential()
    }
}

/// Whether `table` holds the binary logarithms of `sizes`, and no size is zero.
pub open spec fn measures<R: Scalar>(table: Seq<R>, sizes: Seq<usize>) -> bool {
    &&& crate::treesa::log2_table_is(sizes, table)
    &&& forall|k: int| 0 <= k < sizes.len() ==> (#[trigger] sizes[k]) > 0
}

/// How many ways there are to give an index to each of `labels`, as a real number.
pub open spec fn ways(labels: Seq<usize>, sizes: Seq<usize>) -> real {
    choices(labels, size_at(sizes)) as real
}

/// The logarithm of the size of a tensor is that of the number of its entries.
pub proof fn size_is_counted<R: Scalar>(
    e: Reading<R>,
    dims: Seq<usize>,
    table: Seq<R>,
    sizes: Seq<usize>,
    sc: R,
)
    requires
        e.exact(),
        measures(table, sizes),
        crate::energy::below(dims, sizes.len()),
        crate::scalar::sum_is(crate::energy::entries(dims, table), sc),
    ensures
        (e.amount)(sc) == ways(dims, sizes),
    decreases dims.len(),
{
    reveal(Reading::exponential);
    let terms = crate::energy::entries(dims, table);
    crate::counting::int_volume_counts_entries(dims, sizes);
    if dims.len() > 0 {
        let rest = dims.drop_last();
        assert(terms.drop_last() =~= crate::energy::entries(rest, table));
        let p = choose|p: R|
            crate::scalar::sum_is(terms.drop_last(), p) && #[trigger] crate::scalar::plus_is(
                p,
                terms.last(),
                sc,
            );
        assert(crate::energy::below(rest, sizes.len())) by {
            assert forall|k: int| 0 <= k < rest.len() implies (#[trigger] rest[k])
                < sizes.len() by {
                assert(dims[k] < sizes.len());
            }
        }
        size_is_counted(e, rest, table, sizes, p);
        crate::counting::int_volume_counts_entries(rest, sizes);
        let l = dims.last();
        assert(dims[dims.len() - 1] < sizes.len());
        assert(terms.last() == table[l as int]);
        assert(call_ensures(R::log2_of, (sizes[l as int],), table[l as int]));
        let c = crate::pairs::int_volume(rest, sizes) as int;
        let n = sizes[l as int] as int;
        assert((c as real) * (n as real) == (c * n) as real) by (nonlinear_arith);
    }
}

/// Whether `all` lists the labels of `x` and of `y`, and each once.
pub open spec fn lists_both(all: Seq<usize>, x: Seq<usize>, y: Seq<usize>) -> bool {
    &&& all.no_duplicates()
    &&& forall|l: usize| #[trigger] all.contains(l) <==> x.contains(l) || y.contains(l)
}

/// The labels of one tensor and those that the other one adds are the labels of both.
proof fn lemma_extra(x: Seq<usize>, y: Seq<usize>)
    requires
        x.no_duplicates(),
        y.no_duplicates(),
    ensures
        lists_both(x + crate::energy::extra(x, y), x, y),
    decreases y.len(),
{
    let more = crate::energy::extra(x, y);
    if y.len() == 0 {
        assert(x + more =~= x);
        assert forall|l: usize| #[trigger] (x + more).contains(l) <==> x.contains(l) || y.contains(
            l,
        ) by {
            assert(!y.contains(l));
        }
    } else {
        let rest = y.drop_last();
        let last = y.last();
        let before = crate::energy::extra(x, rest);
        lemma_extra(x, rest);
        assert(!rest.contains(last)) by {
            if rest.contains(last) {
                let k = rest.index_of(last);
                assert(y[k] == y[y.len() - 1]);
            }
        }
        assert(!x.contains(last) ==> !(x + before).contains(last));
        assert(!x.contains(last) ==> x + more =~= (x + before).push(last));
        assert forall|l: usize| #[trigger] (x + more).contains(l) <==> x.contains(l) || y.contains(
            l,
        ) by {
            crate::expr_tree::lemma_push_contains(rest, last, l);
            assert(y =~= rest.push(last));
            crate::expr_tree::lemma_push_contains(x + before, last, l);
            assert((x + before).contains(l) <==> x.contains(l) || rest.contains(l));
        }
    }
}

/// Labels that are listed together are below what bounds both lists.
proof fn lemma_both_below(all: Seq<usize>, x: Seq<usize>, y: Seq<usize>, n: nat)
    requires
        lists_both(all, x, y),
        crate::energy::below(x, n),
        crate::energy::below(y, n),
    ensures
        crate::energy::below(all, n),
{
    assert forall|k: int| 0 <= k < all.len() implies (#[trigger] all[k]) < n by {
        let l = all[k];
        assert(all.contains(l));
        if x.contains(l) {
            assert(x[x.index_of(l)] == l);
        } else {
            assert(y[y.index_of(l)] == l);
        }
    }
}

/// A contraction of two tensors forms a product for each way to give the labels of both indices,
/// yields the entries of its result, and reads the two and writes the result.
pub proof fn cost_is_counted<R: Scalar>(
    e: Reading<R>,
    x: Seq<usize>,
    y: Seq<usize>,
    d: Seq<usize>,
    all: Seq<usize>,
    table: Seq<R>,
    sizes: Seq<usize>,
    count_rw: bool,
    c: Cost<R>,
)
    requires
        e.exact(),
        measures(table, sizes),
        x.no_duplicates(),
        y.no_duplicates(),
        lists_both(all, x, y),
        crate::energy::below(x, sizes.len()),
        crate::energy::below(y, sizes.len()),
        crate::energy::below(d, sizes.len()),
        crate::energy::cost_is(x, y, d, table, count_rw, c),
    ensures
        (e.amount)(c.tc) == ways(all, sizes),
        (e.amount)(c.sc) == ways(d, sizes),
        c.rw is Some <==> count_rw,
        c.rw matches Some(rw) ==> (e.amount)(rw) == ways(x, sizes) + ways(y, sizes) + ways(
            d,
            sizes,
        ),
{
    reveal(Reading::exponential);
    let union = x + crate::energy::extra(x, y);
    lemma_extra(x, y);
    lemma_both_below(union, x, y, sizes.len());
    size_is_counted(e, union, table, sizes, c.tc);
    assert forall|l: usize| #[trigger] union.contains(l) <==> all.contains(l) by {}
    crate::counting::choices_ignore_order(union, all, size_at(sizes));
    size_is_counted(e, d, table, sizes, c.sc);
    if count_rw {
        let (a, b, p) = choose|a: R, b: R, p: R|
            crate::scalar::sum_is(crate::energy::entries(x, table), a) && crate::scalar::sum_is(
                crate::energy::entries(y, table),
                b,
            ) && #[trigger] crate::scalar::lse_is(c.sc, a, p) && #[trigger] crate::scalar::lse_is(
                p,
                b,
                c.rw->0,
            );
        size_is_counted(e, x, table, sizes, a);
        size_is_counted(e, y, table, sizes, b);
    }
}

/// What a second tensor adds are those of its labels that the first one does not carry.
proof fn lemma_extra_is_filter(x: Seq<usize>, y: Seq<usize>)
    ensures
        crate::energy::extra(x, y) == y.filter(|l: usize| !x.contains(l)),
    decreases y.len(),
{
    reveal(Seq::filter);
    if y.len() > 0 {
        lemma_extra_is_filter(x, y.drop_last());
    }
}

/// Where tensors list labels more than once, every place of the first one counts, and every place
/// of the second one whose label the first one does not carry.
pub proof fn products_of_places<R: Scalar>(
    e: Reading<R>,
    x: Seq<usize>,
    y: Seq<usize>,
    d: Seq<usize>,
    table: Seq<R>,
    sizes: Seq<usize>,
    count_rw: bool,
    c: Cost<R>,
)
    requires
        e.exact(),
        measures(table, sizes),
        crate::energy::below(x, sizes.len()),
        crate::energy::below(y, sizes.len()),
        crate::energy::cost_is(x, y, d, table, count_rw, c),
    ensures
        (e.amount)(c.tc) == ways(x + y.filter(|l: usize| !x.contains(l)), sizes),
{
    let more = y.filter(|l: usize| !x.contains(l));
    lemma_extra_is_filter(x, y);
    assert forall|k: int| 0 <= k < (x + more).len() implies (#[trigger] (x + more)[k])
        < sizes.len() by {
        if k >= x.len() {
            let l = more[k - x.len()];
            assert(more.contains(l));
            y.lemma_filter_contains_rev(|l: usize| !x.contains(l), l);
            assert(y[y.index_of(l)] == l);
        }
    }
    size_is_counted(e, x + more, table, sizes, c.tc);
}

impl Tree {
    /// Whether no node of the tree lists a label twice.
    pub open spec fn neat(self) -> bool
        decreases self,
    {
        &&& self.dims().no_duplicates()
        &&& match self {
            Tree::Leaf(_) => true,
            Tree::Node { left, right, .. } => left.neat() && right.neat(),
        }
    }
}

/// What a cost that may be missing comes to.
pub open spec fn amount_of<R>(e: Reading<R>, a: Option<R>) -> real {
    match a {
        None => 0 as real,
        Some(a) => (e.amount)(a),
    }
}

/// The work of a tree is that of its two children and one product for each way to give the labels
/// of the two indices. What is read and written adds up as well. A leaf costs nothing, and is as
/// large as it is.
pub proof fn tree_cost_adds_up<R: Scalar>(
    e: Reading<R>,
    t: Tree,
    all: Seq<usize>,
    table: Seq<R>,
    sizes: Seq<usize>,
    c: TreeCost<R>,
    lc: TreeCost<R>,
    rc: TreeCost<R>,
)
    requires
        e.exact(),
        measures(table, sizes),
        t.neat(),
        t.labels_below(sizes.len()),
        crate::score::tree_cost_is(t, table, c),
        t is Node ==> crate::score::tree_cost_is(*t->left, table, lc),
        t is Node ==> crate::score::tree_cost_is(*t->right, table, rc),
        t is Node ==> lists_both(all, t->left.dims(), t->right.dims()),
    ensures
        t is Node ==> amount_of(e, c.tc) == amount_of(e, lc.tc) + amount_of(e, rc.tc) + ways(
            all,
            sizes,
        ),
        t is Node ==> (e.amount)(c.sc) == upper(
            ways(t.dims(), sizes),
            upper((e.amount)(lc.sc), (e.amount)(rc.sc)),
        ),
        t is Node ==> amount_of(e, c.rw) == amount_of(e, lc.rw) + amount_of(e, rc.rw) + ways(
            t->left.dims(),
            sizes,
        ) + ways(t->right.dims(), sizes) + ways(t.dims(), sizes),
        t is Leaf ==> amount_of(e, c.tc) == 0 as real && amount_of(e, c.rw) == 0 as real,
        t is Leaf ==> (e.amount)(c.sc) == ways(t.dims(), sizes),
    decreases t, 0int,
{
    match t {
        Tree::Leaf(info) => {
            crate::energy::lemma_below(t, sizes.len());
            size_is_counted(e, info.dims, table, sizes, c.sc);
        },
        Tree::Node { left, right, info } => {
            reveal_with_fuel(Tree::neat, 2);
            let (own, l, r) = choose|own: Cost<R>, l: TreeCost<R>, r: TreeCost<R>|
                crate::score::tree_cost_is(*left, table, l) && crate::score::tree_cost_is(
                    *right,
                    table,
                    r,
                ) && crate::energy::cost_is(left.dims(), right.dims(), info.dims, table, true, own)
                    && #[trigger] crate::score::joined_is(own, l, r, c);
            tree_cost_is_one(e, *left, table, sizes, l, lc);
            tree_cost_is_one(e, *right, table, sizes, r, rc);
            crate::energy::lemma_below(t, sizes.len());
            crate::energy::lemma_below(*left, sizes.len());
            crate::energy::lemma_below(*right, sizes.len());
            cost_is_counted(
                e,
                left.dims(),
                right.dims(),
                info.dims,
                all,
                table,
                sizes,
                true,
                own,
            );
            reveal(Reading::exponential);
            let p = choose|p: R| #[trigger]
                crate::score::total_is(own.tc, l.tc, p) && crate::score::total_is(
                    p,
                    r.tc,
                    c.tc->0,
                );
            let q = choose|p: R| #[trigger]
                crate::score::total_is(own.rw->0, l.rw, p) && crate::score::total_is(
                    p,
                    r.rw,
                    c.rw->0,
                );
            let m = choose|p: R| #[trigger]
                crate::scalar::max_is(own.sc, l.sc, p) && crate::scalar::max_is(p, r.sc, c.sc);
            assert((e.amount)(p) == (e.amount)(own.tc) + amount_of(e, l.tc));
            assert((e.amount)(q) == (e.amount)(own.rw->0) + amount_of(e, l.rw));
            assert((e.amount)(m) == upper((e.amount)(own.sc), (e.amount)(l.sc)));
        },
    }
}

/// Two costs of one tree come to the same.
pub proof fn tree_cost_is_one<R: Scalar>(
    e: Reading<R>,
    t: Tree,
    table: Seq<R>,
    sizes: Seq<usize>,
    x: TreeCost<R>,
    y: TreeCost<R>,
)
    requires
        e.exact(),
        measures(table, sizes),
        t.neat(),
        t.labels_below(sizes.len()),
        crate::score::tree_cost_is(t, table, x),
        crate::score::tree_cost_is(t, table, y),
    ensures
        amount_of(e, x.tc) == amount_of(e, y.tc),
        amount_of(e, x.rw) == amount_of(e, y.rw),
        (e.amount)(x.sc) == (e.amount)(y.sc),
    decreases t, 1int,
{
    match t {
        Tree::Leaf(info) => {
            crate::energy::lemma_below(t, sizes.len());
            size_is_counted(e, info.dims, table, sizes, x.sc);
            size_is_counted(e, info.dims, table, sizes, y.sc);
        },
        Tree::Node { left, right, info } => {
            reveal_with_fuel(Tree::neat, 2);
            let (_, l, r) = choose|own: Cost<R>, l: TreeCost<R>, r: TreeCost<R>|
                crate::score::tree_cost_is(*left, table, l) && crate::score::tree_cost_is(
                    *right,
                    table,
                    r,
                ) && crate::energy::cost_is(left.dims(), right.dims(), info.dims, table, true, own)
                    && #[trigger] crate::score::joined_is(own, l, r, x);
            let all = left.dims() + crate::energy::extra(left.dims(), right.dims());
            lemma_extra(left.dims(), right.dims());
            tree_cost_adds_up(e, t, all, table, sizes, x, l, r);
            tree_cost_adds_up(e, t, all, table, sizes, y, l, r);
        },
    }
}

} // verus!
