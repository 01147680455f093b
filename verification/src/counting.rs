//! That sizes, products and entries are counted rightly: by the indices that labels can take, and
//! by adding up over all parts of an order.

use crate::eincode::{Ein, Nested};
use crate::expr_tree::Tree;
use crate::pairs::Gauge;
use crate::value::Assignment;
use vstd::prelude::*;

verus! {

/// How many ways there are to give an index to each place of `labels`, where `size` says how many
/// indices a label has.
pub open spec fn choices<L>(labels: Seq<L>, size: spec_fn(L) -> nat) -> int {
    crate::value::sum_over(labels, size, |s: Assignment<L>| 1int, |l: L| 0int)
}

/// The sizes of labels, as a function.
pub open spec fn size_in<L>(sizes: Map<L, usize>) -> spec_fn(L) -> nat {
    |l: L| sizes[l] as nat
}

/// The sizes of numbered labels, as a function.
pub open spec fn size_at(sizes: Seq<usize>) -> spec_fn(usize) -> nat {
    |l: usize| sizes[l as int] as nat
}

/// One label more multiplies the ways.
proof fn lemma_choices_below<L>(labels: Seq<L>, size: spec_fn(L) -> nat, s: Assignment<L>, n: nat)
    requires
        labels.len() > 0,
    ensures
        crate::value::sum_below(labels, size, |s: Assignment<L>| 1int, s, n) == n * choices(
            labels.drop_last(),
            size,
        ),
    decreases labels.len(), n,
{
    let one = |s: Assignment<L>| 1int;
    let rest = labels.drop_last();
    if n > 0 {
        let t = crate::value::with(s, labels.last(), n - 1);
        lemma_choices_below(labels, size, s, (n - 1) as nat);
        lemma_choices(rest, size, t);
        lemma_choices(rest, size, |l: L| 0int);
        let c = choices(rest, size);
        assert(n * c == (n - 1) * c + c) by (nonlinear_arith);
    } else {
        assert(n * choices(rest, size) == 0) by (nonlinear_arith)
            requires
                n == 0,
        ;
    }
}

/// The indices of other labels play no part in how many ways there are.
proof fn lemma_choices<L>(labels: Seq<L>, size: spec_fn(L) -> nat, s: Assignment<L>)
    ensures
        crate::value::sum_over(labels, size, |s: Assignment<L>| 1int, s) == choices(labels, size),
        labels.len() > 0 ==> choices(labels, size) == size(labels.last()) * choices(
            labels.drop_last(),
            size,
        ),
    decreases labels.len(), size(labels.last()) + 1,
{
    if labels.len() > 0 {
        lemma_choices_below(labels, size, s, size(labels.last()));
        lemma_choices_below(labels, size, |l: L| 0int, size(labels.last()));
    }
}

/// A tensor has as many entries as there are ways to give its labels indices.
pub proof fn volume_counts_entries<L>(labels: Seq<L>, sizes: Map<L, usize>)
    ensures
        crate::complexity::volume(labels, sizes) == choices(labels, size_in(sizes)),
    decreases labels.len(),
{
    if labels.len() > 0 {
        volume_counts_entries(labels.drop_last(), sizes);
        lemma_choices(labels, size_in(sizes), |l: L| 0int);
        let v = crate::complexity::volume(labels.drop_last(), sizes) as int;
        let n = sizes[labels.last()] as int;
        assert(v * n == n * v) by (nonlinear_arith);
    }
}

/// A tensor with numbered labels has as many entries as there are ways to give its labels indices.
pub proof fn int_volume_counts_entries(dims: Seq<usize>, sizes: Seq<usize>)
    ensures
        crate::pairs::int_volume(dims, sizes) == choices(dims, size_at(sizes)),
    decreases dims.len(),
{
    if dims.len() > 0 {
        int_volume_counts_entries(dims.drop_last(), sizes);
        lemma_choices(dims, size_at(sizes), |l: usize| 0int);
        let v = crate::pairs::int_volume(dims.drop_last(), sizes) as int;
        let n = sizes[dims.last() as int] as int;
        assert(v * n == n * v) by (nonlinear_arith);
    }
}

/// The entries of a product of tensors without common labels are the pairs of theirs, and a tensor
/// with one label has as many entries as the label has indices.
pub proof fn volume_multiplies<L>(x: Seq<L>, y: Seq<L>, l: L, sizes: Map<L, usize>)
    ensures
        crate::complexity::volume(x + y, sizes) == crate::complexity::volume(x, sizes)
            * crate::complexity::volume(y, sizes),
        crate::complexity::volume(seq![l], sizes) == sizes[l],
        crate::complexity::volume(Seq::<L>::empty(), sizes) == 1,
    decreases y.len(),
{
    reveal_with_fuel(crate::complexity::volume, 2);
    assert(seq![l].drop_last() =~= Seq::<L>::empty());
    let v = crate::complexity::volume(x, sizes);
    if y.len() == 0 {
        assert(x + y =~= x);
        assert(v * 1 == v);
    } else {
        volume_multiplies(x, y.drop_last(), l, sizes);
        assert((x + y).drop_last() =~= x + y.drop_last());
        let w = crate::complexity::volume(y.drop_last(), sizes);
        let n = sizes[y.last()] as nat;
        assert((v * w) * n == v * (w * n)) by (nonlinear_arith);
    }
}

/// As [`volume_multiplies`], for numbered labels.
pub proof fn int_volume_multiplies(x: Seq<usize>, y: Seq<usize>, l: usize, sizes: Seq<usize>)
    ensures
        crate::pairs::int_volume(x + y, sizes) == crate::pairs::int_volume(x, sizes)
            * crate::pairs::int_volume(y, sizes),
        crate::pairs::int_volume(seq![l], sizes) == sizes[l as int],
        crate::pairs::int_volume(Seq::empty(), sizes) == 1,
    decreases y.len(),
{
    reveal_with_fuel(crate::pairs::int_volume, 2);
    assert(seq![l].drop_last() =~= Seq::<usize>::empty());
    let v = crate::pairs::int_volume(x, sizes);
    if y.len() == 0 {
        assert(x + y =~= x);
        assert(v * 1 == v);
    } else {
        int_volume_multiplies(x, y.drop_last(), l, sizes);
        assert((x + y).drop_last() =~= x + y.drop_last());
        let w = crate::pairs::int_volume(y.drop_last(), sizes);
        let n = sizes[y.last() as int] as nat;
        assert((v * w) * n == v * (w * n)) by (nonlinear_arith);
    }
}

/// Numbering labels keeps the number of entries: what losses are measured by is what complexities
/// count.
pub proof fn int_volume_is_volume<L>(
    dims: Seq<usize>,
    labels: Seq<L>,
    size_dict: Map<L, usize>,
    sizes: Seq<usize>,
)
    requires
        crate::energy::below(dims, labels.len()),
        sizes.len() == labels.len(),
        forall|k: int| 0 <= k < labels.len() ==> #[trigger] sizes[k] == size_dict[labels[k]],
    ensures
        crate::pairs::int_volume(dims, sizes) == crate::complexity::volume(
            crate::convert::from_ints(dims, labels),
            size_dict,
        ),
    decreases dims.len(),
{
    let named = crate::convert::from_ints(dims, labels);
    if dims.len() > 0 {
        let rest = dims.drop_last();
        assert(crate::energy::below(rest, labels.len())) by {
            assert forall|k: int| 0 <= k < rest.len() implies (#[trigger] rest[k])
                < labels.len() by {
                assert(dims[k] < labels.len());
            }
        }
        int_volume_is_volume(rest, labels, size_dict, sizes);
        assert(named.drop_last() =~= crate::convert::from_ints(rest, labels));
        assert(dims[dims.len() - 1] < labels.len());
        assert(named.last() == labels[dims.last() as int]);
    }
}

/// Taking a label out divides the number of ways.
proof fn lemma_choices_remove<L>(labels: Seq<L>, k: int, size: spec_fn(L) -> nat)
    requires
        0 <= k < labels.len(),
    ensures
        choices(labels, size) == size(labels[k]) * choices(labels.remove(k), size),
    decreases labels.len(),
{
    lemma_choices(labels, size, |l: L| 0int);
    let last = labels.len() - 1;
    if k == last {
        assert(labels.remove(k) =~= labels.drop_last());
    } else {
        let rest = labels.drop_last();
        lemma_choices_remove(rest, k, size);
        assert(rest[k] == labels[k]);
        let out = labels.remove(k);
        lemma_choices(out, size, |l: L| 0int);
        assert(out.drop_last() =~= rest.remove(k));
        assert(out.last() == labels.last());
        let a = size(labels.last()) as int;
        let b = size(labels[k]) as int;
        let c = choices(rest.remove(k), size);
        assert(a * (b * c) == b * (a * c)) by (nonlinear_arith);
    }
}

/// In which order labels are listed plays no part in how many ways there are.
pub proof fn choices_ignore_order<L>(x: Seq<L>, y: Seq<L>, size: spec_fn(L) -> nat)
    requires
        x.no_duplicates(),
        y.no_duplicates(),
        forall|l: L| #[trigger] x.contains(l) <==> y.contains(l),
    ensures
        choices(x, size) == choices(y, size),
    decreases x.len(),
{
    if x.len() == 0 {
        if y.len() > 0 {
            assert(y.contains(y[0]));
            assert(x.contains(y[0]));
        }
        assert(x =~= y);
    } else {
        let l = x.last();
        let rest = x.drop_last();
        assert(x.contains(l)) by {
            assert(x[x.len() - 1] == l);
        }
        let k = y.index_of(l);
        let out = y.remove(k);
        assert(y[k] == l);
        assert(rest.no_duplicates());
        assert(out.no_duplicates()) by {
            assert forall|i: int, j: int| 0 <= i < out.len() && 0 <= j < out.len() && i != j implies
                out[i] != out[j] by {
                let a = if i < k {
                    i
                } else {
                    i + 1
                };
                let b = if j < k {
                    j
                } else {
                    j + 1
                };
                assert(out[i] == y[a] && out[j] == y[b]);
            }
        }
        assert forall|m: L| #[trigger] rest.contains(m) <==> out.contains(m) by {
            if rest.contains(m) {
                let i = rest.index_of(m);
                assert(x[i] == m);
                assert(x.contains(m));
                let j = y.index_of(m);
                assert(y[j] == m);
                assert(j != k);
                if j < k {
                    assert(out[j] == m);
                } else {
                    assert(out[j - 1] == m);
                }
            }
            if out.contains(m) {
                let j = out.index_of(m);
                let a = if j < k {
                    j
                } else {
                    j + 1
                };
                assert(y[a] == m);
                assert(y.contains(m));
                assert(x.contains(m));
                let i = x.index_of(m);
                assert(x[i] == m);
                assert(m != l);
                assert(i < rest.len());
                assert(rest[i] == m);
            }
        }
        choices_ignore_order(rest, out, size);
        lemma_choices(x, size, |l: L| 0int);
        lemma_choices_remove(y, k, size);
    }
}

/// Whether `all` lists the labels of `x`, of `y` and of `z`, and each once.
pub open spec fn lists_all<L>(all: Seq<L>, x: Seq<L>, y: Seq<L>, z: Seq<L>) -> bool {
    &&& all.no_duplicates()
    &&& forall|l: L| #[trigger]
        all.contains(l) <==> x.contains(l) || y.contains(l) || z.contains(l)
}

/// An expression of two tensors forms one product for each way to give all its labels indices, and
/// reads and writes each entry of the two tensors and of the result once.
pub proof fn pair_is_counted<L>(
    x: Seq<L>,
    y: Seq<L>,
    z: Seq<L>,
    all: Seq<L>,
    sizes: Map<L, usize>,
)
    requires
        lists_all(all, x, y, z),
    ensures
        (Ein { ixs: seq![x, y], iy: z }).flops(sizes) == choices(all, size_in(sizes)),
        (Ein { ixs: seq![x, y], iy: z }).traffic(sizes) == choices(x, size_in(sizes)) + choices(
            y,
            size_in(sizes),
        ) + choices(z, size_in(sizes)),
{
    let ixs = seq![x, y];
    let code = Ein { ixs, iy: z };
    let size = size_in(sizes);
    let flat = crate::eincode::concat(ixs) + z;
    crate::eincode::lemma_distinct(flat);
    assert forall|l: L| #[trigger] code.labels().contains(l) <==> all.contains(l) by {
        crate::plan::lemma_concat_contains(crate::eincode::concat(ixs), z, l);
        crate::eincode::lemma_concat(ixs, l);
        if x.contains(l) {
            assert(ixs[0].contains(l));
        }
        if y.contains(l) {
            assert(ixs[1].contains(l));
        }
    }
    volume_counts_entries(code.labels(), sizes);
    choices_ignore_order(code.labels(), all, size);
    reveal_with_fuel(crate::complexity::volumes, 3);
    assert(ixs.drop_last() =~= seq![x]);
    assert(seq![x].drop_last() =~= Seq::<Seq<L>>::empty());
    volume_counts_entries(x, sizes);
    volume_counts_entries(y, sizes);
    volume_counts_entries(z, sizes);
}

/// An expression forms one product for each way to give all its labels indices. One tensor more is
/// read once, and without tensors only the result is written.
pub proof fn expression_is_counted<L>(
    code: Ein<L>,
    x: Seq<L>,
    all: Seq<L>,
    sizes: Map<L, usize>,
)
    requires
        all.no_duplicates(),
        forall|l: L| #[trigger]
            all.contains(l) <==> code.iy.contains(l) || exists|i: int|
                0 <= i < code.ixs.len() && (#[trigger] code.ixs[i]).contains(l),
    ensures
        code.flops(sizes) == choices(all, size_in(sizes)),
        (Ein { ixs: code.ixs.push(x), iy: code.iy }).traffic(sizes) == code.traffic(sizes)
            + choices(x, size_in(sizes)),
        (Ein { ixs: Seq::<Seq<L>>::empty(), iy: code.iy }).traffic(sizes) == choices(
            code.iy,
            size_in(sizes),
        ),
{
    let flat = crate::eincode::concat(code.ixs) + code.iy;
    crate::eincode::lemma_distinct(flat);
    assert forall|l: L| #[trigger] code.labels().contains(l) <==> all.contains(l) by {
        crate::plan::lemma_concat_contains(crate::eincode::concat(code.ixs), code.iy, l);
        crate::eincode::lemma_concat(code.ixs, l);
    }
    volume_counts_entries(code.labels(), sizes);
    choices_ignore_order(code.labels(), all, size_in(sizes));
    volume_counts_entries(x, sizes);
    volume_counts_entries(code.iy, sizes);
    assert(code.ixs.push(x).drop_last() =~= code.ixs);
}

/// What parts of an order cost adds up: products, and entries read and written.
pub proof fn parts_add_up<L>(
    x: Seq<Nested<L>>,
    y: Seq<Nested<L>>,
    n: Nested<L>,
    ixs: Seq<Seq<L>>,
    sizes: Map<L, usize>,
)
    ensures
        Nested::flops_of(x + y, ixs, sizes) == Nested::flops_of(x, ixs, sizes) + Nested::flops_of(
            y,
            ixs,
            sizes,
        ),
        Nested::flops_of(seq![n], ixs, sizes) == n.flops(ixs, sizes),
        Nested::traffic_of(x + y, ixs, sizes) == Nested::traffic_of(x, ixs, sizes)
            + Nested::traffic_of(y, ixs, sizes),
        Nested::traffic_of(seq![n], ixs, sizes) == n.traffic(ixs, sizes),
    decreases y.len(),
{
    assert(seq![n].drop_last() =~= Seq::<Nested<L>>::empty());
    reveal_with_fuel(Nested::flops_of, 2);
    reveal_with_fuel(Nested::traffic_of, 2);
    if y.len() == 0 {
        assert(x + y =~= x);
    } else {
        parts_add_up(x, y.drop_last(), n, ixs, sizes);
        assert((x + y).drop_last() =~= x + y.drop_last());
    }
}

/// A contraction of two parts costs what the two cost, and in addition one product for each way to
/// give all its labels indices, and one access to each entry of the two tensors and of the result.
/// An input tensor costs nothing.
pub proof fn node_is_counted<L>(
    a: Nested<L>,
    b: Nested<L>,
    eins: Ein<L>,
    all: Seq<L>,
    ixs: Seq<Seq<L>>,
    sizes: Map<L, usize>,
    i: usize,
)
    requires
        lists_all(
            all,
            crate::convert::child_labels(a, ixs),
            crate::convert::child_labels(b, ixs),
            eins.iy,
        ),
    ensures
        (Nested::Node { args: seq![a, b], eins }).flops(ixs, sizes) == a.flops(ixs, sizes)
            + b.flops(ixs, sizes) + choices(all, size_in(sizes)),
        (Nested::Node { args: seq![a, b], eins }).traffic(ixs, sizes) == a.traffic(ixs, sizes)
            + b.traffic(ixs, sizes) + choices(
            crate::convert::child_labels(a, ixs),
            size_in(sizes),
        ) + choices(crate::convert::child_labels(b, ixs), size_in(sizes)) + choices(
            eins.iy,
            size_in(sizes),
        ),
        (Nested::<L>::Leaf { tensor_index: i }).flops(ixs, sizes) == 0,
        (Nested::<L>::Leaf { tensor_index: i }).traffic(ixs, sizes) == 0,
{
    let args = seq![a, b];
    let n = Nested::Node { args, eins };
    let x = crate::convert::child_labels(a, ixs);
    let y = crate::convert::child_labels(b, ixs);
    parts_add_up(seq![a], seq![b], a, ixs, sizes);
    parts_add_up(seq![a], seq![b], b, ixs, sizes);
    assert(args =~= seq![a] + seq![b]);
    assert(n.own(ixs).ixs =~= seq![x, y]);
    assert(n.own(ixs) == Ein { ixs: seq![x, y], iy: eins.iy });
    pair_is_counted(x, y, eins.iy, all, sizes);
}

/// Exchanging a part of an order for another one with the same labels changes the cost of the whole
/// by what the two parts differ by.
pub proof fn exchange_is_counted<L>(
    args: Seq<Nested<L>>,
    eins: Ein<L>,
    k: int,
    part: Nested<L>,
    ixs: Seq<Seq<L>>,
    sizes: Map<L, usize>,
)
    requires
        0 <= k < args.len(),
        crate::convert::child_labels(part, ixs) == crate::convert::child_labels(args[k], ixs),
    ensures
        (Nested::Node { args: args.update(k, part), eins }).flops(ixs, sizes) + args[k].flops(
            ixs,
            sizes,
        ) == (Nested::Node { args, eins }).flops(ixs, sizes) + part.flops(ixs, sizes),
        (Nested::Node { args: args.update(k, part), eins }).traffic(ixs, sizes) + args[k].traffic(
            ixs,
            sizes,
        ) == (Nested::Node { args, eins }).traffic(ixs, sizes) + part.traffic(ixs, sizes),
{
    let other = args.update(k, part);
    let first = args.take(k);
    let rest = args.skip(k + 1);
    assert(args =~= first + seq![args[k]] + rest);
    assert(other =~= first + seq![part] + rest);
    parts_add_up(first, seq![args[k]], args[k], ixs, sizes);
    parts_add_up(first + seq![args[k]], rest, args[k], ixs, sizes);
    parts_add_up(first, seq![part], part, ixs, sizes);
    parts_add_up(first + seq![part], rest, part, ixs, sizes);
    let n = Nested::Node { args, eins };
    let m = Nested::Node { args: other, eins };
    assert(n.own(ixs).ixs =~= m.own(ixs).ixs);
    assert(n.own(ixs) == m.own(ixs));
}

/// Whether `part` is `n` or stands somewhere in it.
pub open spec fn stands_in<L>(part: Nested<L>, n: Nested<L>) -> bool
    decreases n,
{
    part == n || match n {
        Nested::Leaf { .. } => false,
        Nested::Node { args, .. } => exists|k: int|
            0 <= k < args.len() && stands_in(part, #[trigger] args[k]),
    }
}

/// The space of several parts is that of one of them, and no part takes more.
pub proof fn lemma_space_of<L>(args: Seq<Nested<L>>, sizes: Map<L, usize>)
    ensures
        forall|k: int|
            0 <= k < args.len() ==> (#[trigger] args[k]).space(sizes) <= Nested::space_of(
                args,
                sizes,
            ),
        Nested::space_of(args, sizes) == 0 || exists|k: int|
            0 <= k < args.len() && (#[trigger] args[k]).space(sizes) == Nested::space_of(
                args,
                sizes,
            ),
    decreases args.len(),
{
    if args.len() > 0 {
        let rest = args.drop_last();
        lemma_space_of(rest, sizes);
        let all = Nested::space_of(args, sizes);
        assert(args[args.len() - 1] == args.last());
        assert forall|k: int| 0 <= k < args.len() implies (#[trigger] args[k]).space(sizes)
            <= all by {
            if k < rest.len() {
                assert(rest[k] == args[k]);
            }
        }
        if all != args.last().space(sizes) && all != 0 {
            let k = choose|k: int|
                0 <= k < rest.len() && (#[trigger] rest[k]).space(sizes) == Nested::space_of(
                    rest,
                    sizes,
                );
            assert(args[k] == rest[k]);
        }
    }
}

/// No contraction in an order yields more entries than the space says.
pub proof fn space_bounds_results<L>(n: Nested<L>, part: Nested<L>, sizes: Map<L, usize>)
    requires
        stands_in(part, n),
        part is Node,
    ensures
        choices(part->eins.iy, size_in(sizes)) <= n.space(sizes),
    decreases n,
{
    volume_counts_entries(part->eins.iy, sizes);
    match n {
        Nested::Leaf { .. } => {},
        Nested::Node { args, .. } => {
            lemma_space_of(args, sizes);
            if part != n {
                let k = choose|k: int|
                    0 <= k < args.len() && stands_in(part, #[trigger] args[k]);
                space_bounds_results(args[k], part, sizes);
            }
        },
    }
}

/// Some contraction in an order yields as many entries as the space says.
pub proof fn space_is_attained<L>(n: Nested<L>, sizes: Map<L, usize>) -> (part: Nested<L>)
    requires
        n is Node,
    ensures
        stands_in(part, n),
        part is Node,
        choices(part->eins.iy, size_in(sizes)) == n.space(sizes),
    decreases n,
{
    let args = n->args;
    volume_counts_entries(n->eins.iy, sizes);
    lemma_space_of(args, sizes);
    if n.space(sizes) == crate::complexity::volume(n->eins.iy, sizes) {
        n
    } else {
        let k = choose|k: int|
            0 <= k < args.len() && (#[trigger] args[k]).space(sizes) == Nested::space_of(
                args,
                sizes,
            );
        assert(args[k] is Node);
        let part = space_is_attained(args[k], sizes);
        assert(stands_in(part, args[k]));
        part
    }
}

/// Whether `x` lists what the contraction of the tensors at `p` and `q` has to hand up: each label
/// of the two that the output or another tensor carries, once.
pub open spec fn hands_up(
    x: Seq<usize>,
    s: Seq<Tree>,
    p: int,
    q: int,
    iy: Seq<usize>,
) -> bool {
    &&& x.no_duplicates()
    &&& forall|l: usize| #[trigger]
        x.contains(l) <==> (s[p].dims().contains(l) || s[q].dims().contains(l)) && (iy.contains(l)
            || exists|r: int|
            0 <= r < s.len() && r != p && r != q && (#[trigger] s[r]).dims().contains(l))
}

/// What a contraction keeps lists nothing twice.
proof fn lemma_kept_once(labels: Seq<usize>, s: Seq<Tree>, p: int, q: int, iy: Seq<usize>)
    ensures
        crate::pairs::kept_of(labels, s, p, q, iy).no_duplicates(),
    decreases labels.len(),
{
    if labels.len() > 0 {
        lemma_kept_once(labels.drop_last(), s, p, q, iy);
    }
}

/// What a contraction keeps is what it has to hand up.
pub proof fn kept_is_handed_up(s: Seq<Tree>, p: int, q: int, iy: Seq<usize>)
    ensures
        hands_up(crate::pairs::kept(s, p, q, iy), s, p, q, iy),
{
    lemma_kept_once(s[p].dims() + s[q].dims(), s, p, q, iy);
    assert forall|l: usize| #[trigger]
        crate::pairs::kept(s, p, q, iy).contains(l) <==> (s[p].dims().contains(l)
            || s[q].dims().contains(l)) && (iy.contains(l) || exists|r: int|
            0 <= r < s.len() && r != p && r != q && (#[trigger] s[r]).dims().contains(l)) by {
        crate::pairs::lemma_kept(s, p, q, iy, l);
    }
}

/// The loss of a pair, counted by entries: those of the result less the weighted ones of the two
/// tensors, where the weight is a fraction and its denominator is multiplied out.
pub proof fn loss_is_counted(g: Gauge, s: Seq<Tree>, p: int, q: int, x: Seq<usize>)
    requires
        hands_up(x, s, p, q, g.iy),
    ensures
        g.loss(s, p, q) == choices(x, size_at(g.sizes)) * g.denominator - (choices(
            s[p].dims(),
            size_at(g.sizes),
        ) + choices(s[q].dims(), size_at(g.sizes))) * g.numerator,
{
    let kept = crate::pairs::kept(s, p, q, g.iy);
    kept_is_handed_up(s, p, q, g.iy);
    assert forall|l: usize| #[trigger] kept.contains(l) <==> x.contains(l) by {}
    choices_ignore_order(kept, x, size_at(g.sizes));
    int_volume_counts_entries(kept, g.sizes);
    int_volume_counts_entries(s[p].dims(), g.sizes);
    int_volume_counts_entries(s[q].dims(), g.sizes);
}

/// Without a temperature the greedy method contracts the pair with the lowest loss: the entries of
/// its result less the weighted entries of the two are no more than for any other pair, and fewer
/// than for any pair before it.
pub proof fn greedy_takes_lowest_loss<R: crate::scalar::Scalar>(
    g: Gauge,
    s: Seq<Tree>,
    p: int,
    q: int,
    a: int,
    b: int,
    x: Seq<usize>,
    y: Seq<usize>,
    before: rand::rngs::SmallRng,
    after: rand::rngs::SmallRng,
)
    requires
        crate::greedy::picks(g, s, None::<R>, p, q, before, after),
        0 <= a < b < s.len(),
        hands_up(x, s, p, q, g.iy),
        hands_up(y, s, a, b, g.iy),
    ensures
        0 <= p < q < s.len(),
        choices(x, size_at(g.sizes)) * g.denominator - (choices(s[p].dims(), size_at(g.sizes))
            + choices(s[q].dims(), size_at(g.sizes))) * g.numerator <= choices(
            y,
            size_at(g.sizes),
        ) * g.denominator - (choices(s[a].dims(), size_at(g.sizes)) + choices(
            s[b].dims(),
            size_at(g.sizes),
        )) * g.numerator,
        a < p || a == p && b < q ==> choices(x, size_at(g.sizes)) * g.denominator - (choices(
            s[p].dims(),
            size_at(g.sizes),
        ) + choices(s[q].dims(), size_at(g.sizes))) * g.numerator < choices(
            y,
            size_at(g.sizes),
        ) * g.denominator - (choices(s[a].dims(), size_at(g.sizes)) + choices(
            s[b].dims(),
            size_at(g.sizes),
        )) * g.numerator,
{
    crate::greedy::greedy_takes_lowest::<R>(g, s, p, q, before, after);
    loss_is_counted(g, s, p, q, x);
    loss_is_counted(g, s, a, b, y);
    assert(g.loss(s, p, q) <= g.loss(s, a, b));
}

/// Where the inputs weigh nothing, no pair has a smaller result than the one that is contracted.
pub proof fn plain_greedy_takes_smallest<R: crate::scalar::Scalar>(
    g: Gauge,
    s: Seq<Tree>,
    p: int,
    q: int,
    a: int,
    b: int,
    x: Seq<usize>,
    y: Seq<usize>,
    before: rand::rngs::SmallRng,
    after: rand::rngs::SmallRng,
)
    requires
        crate::greedy::picks(g, s, None::<R>, p, q, before, after),
        0 <= a < b < s.len(),
        hands_up(x, s, p, q, g.iy),
        hands_up(y, s, a, b, g.iy),
        g.numerator == 0,
        g.denominator > 0,
    ensures
        choices(x, size_at(g.sizes)) <= choices(y, size_at(g.sizes)),
{
    greedy_takes_lowest_loss::<R>(g, s, p, q, a, b, x, y, before, after);
    let d = g.denominator as int;
    let m = choices(x, size_at(g.sizes));
    let n = choices(y, size_at(g.sizes));
    let v = choices(s[p].dims(), size_at(g.sizes)) + choices(s[q].dims(), size_at(g.sizes));
    let w = choices(s[a].dims(), size_at(g.sizes)) + choices(s[b].dims(), size_at(g.sizes));
    assert(v * 0 == 0 && w * 0 == 0);
    assert(m <= n) by (nonlinear_arith)
        requires
            m * d <= n * d,
            d > 0,
    ;
}

/// Of two pairs with results of one size, the one whose tensors have more entries has the lower
/// loss where the inputs weigh something.
pub proof fn larger_inputs_lower_the_loss(
    g: Gauge,
    s: Seq<Tree>,
    p: int,
    q: int,
    a: int,
    b: int,
    x: Seq<usize>,
    y: Seq<usize>,
)
    requires
        hands_up(x, s, p, q, g.iy),
        hands_up(y, s, a, b, g.iy),
        choices(x, size_at(g.sizes)) == choices(y, size_at(g.sizes)),
        choices(s[p].dims(), size_at(g.sizes)) + choices(s[q].dims(), size_at(g.sizes)) > choices(
            s[a].dims(),
            size_at(g.sizes),
        ) + choices(s[b].dims(), size_at(g.sizes)),
        g.numerator > 0,
    ensures
        g.loss(s, p, q) < g.loss(s, a, b),
{
    loss_is_counted(g, s, p, q, x);
    loss_is_counted(g, s, a, b, y);
    let v = choices(s[p].dims(), size_at(g.sizes)) + choices(s[q].dims(), size_at(g.sizes));
    let w = choices(s[a].dims(), size_at(g.sizes)) + choices(s[b].dims(), size_at(g.sizes));
    let n = g.numerator as int;
    assert(v * n > w * n) by (nonlinear_arith)
        requires
            v > w,
            n > 0,
    ;
}

/// A pair that is the least one where the pair `skip` does not count is not that pair, and its
/// loss, counted by entries, is no higher than that of any other pair that counts, and lower than that of
/// any before it.
pub proof fn least_pair_has_lowest_loss(
    g: Gauge,
    s: Seq<Tree>,
    skip: (int, int),
    p: int,
    q: int,
    a: int,
    b: int,
    x: Seq<usize>,
    y: Seq<usize>,
)
    requires
        g.least(s, skip, p, q),
        0 <= a < b < s.len(),
        (a, b) != skip,
        hands_up(x, s, p, q, g.iy),
        hands_up(y, s, a, b, g.iy),
    ensures
        0 <= p < q < s.len() && (p, q) != skip,
        a < p || a == p && b < q ==> g.loss(s, p, q) < g.loss(s, a, b),
        choices(x, size_at(g.sizes)) * g.denominator - (choices(s[p].dims(), size_at(g.sizes))
            + choices(s[q].dims(), size_at(g.sizes))) * g.numerator <= choices(
            y,
            size_at(g.sizes),
        ) * g.denominator - (choices(s[a].dims(), size_at(g.sizes)) + choices(
            s[b].dims(),
            size_at(g.sizes),
        )) * g.numerator,
{
    loss_is_counted(g, s, p, q, x);
    loss_is_counted(g, s, a, b, y);
    assert(g.loss(s, p, q) <= g.loss(s, a, b));
}

/// What is built of at least two tensors begins with a pair that is chosen, and goes on with the
/// tensors that its contraction leaves: the result, which hands up what it has to, stands where the
/// first one of the two stood, and the others stay in their order.
pub proof fn greedy_goes_on<R: crate::scalar::Scalar>(
    g: Gauge,
    s: Seq<Tree>,
    temperature: Option<R>,
    u: Tree,
    before: rand::rngs::SmallRng,
    after: rand::rngs::SmallRng,
) -> (at: (int, int, Seq<Tree>, rand::rngs::SmallRng))
    requires
        crate::greedy::built(g, s, temperature, u, before, after),
        s.len() >= 2,
    ensures
        0 <= at.0 < at.1 < s.len(),
        crate::greedy::picks(g, s, temperature, at.0, at.1, before, at.3),
        at.2.len() == s.len() - 1,
        at.2[at.0] is Node && *at.2[at.0]->left == s[at.0] && *at.2[at.0]->right == s[at.1],
        hands_up(at.2[at.0].dims(), s, at.0, at.1, g.iy),
        forall|k: int| 0 <= k < at.1 && k != at.0 ==> #[trigger] at.2[k] == s[k],
        forall|k: int| at.1 <= k < s.len() - 1 ==> #[trigger] at.2[k] == s[k + 1],
        crate::greedy::built(g, at.2, temperature, u, at.3, after),
{
    let (p, q, rng) = choose|p: int, q: int, rng: rand::rngs::SmallRng|
        0 <= p < q < s.len() && #[trigger] crate::greedy::picks(
            g,
            s,
            temperature,
            p,
            q,
            before,
            rng,
        ) && crate::greedy::built(
            g,
            crate::pairs::merged(s, p, q, g.iy),
            temperature,
            u,
            rng,
            after,
        );
    let next = crate::pairs::merged(s, p, q, g.iy);
    crate::pairs::lemma_merged(s, p, q, g.iy);
    kept_is_handed_up(s, p, q, g.iy);
    (p, q, next, rng)
}

} // verus!
