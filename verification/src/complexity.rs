//! What a contraction order costs, counted exactly.

use crate::count::Count;
use crate::eincode::{Ein, EinCode, Nested, NestedEinsum};
use crate::label::Label;
use crate::label_map::LabelMap;
use vstd::prelude::*;

verus! {

/// How many entries a tensor with the labels `labels` has: the product of the sizes of its
/// indices.
pub open spec fn volume<L>(labels: Seq<L>, sizes: Map<L, usize>) -> nat
    decreases labels.len(),
{
    if labels.len() == 0 {
        1
    } else {
        volume(labels.drop_last(), sizes) * sizes[labels.last()] as nat
    }
}

/// How many entries tensors with the labels `ixs` have together.
pub open spec fn volumes<L>(ixs: Seq<Seq<L>>, sizes: Map<L, usize>) -> nat
    decreases ixs.len(),
{
    if ixs.len() == 0 {
        0
    } else {
        volumes(ixs.drop_last(), sizes) + volume(ixs.last(), sizes)
    }
}

/// How many entries a tensor with the labels `labels` has.
pub fn tensor_size<L: Label>(labels: &Vec<L>, size_dict: &LabelMap<L>) -> (size: Count)
    requires
        crate::convert::covers(size_dict@, labels@),
    ensures
        size@ == volume(labels@, size_dict@),
{
    let mut size: Count = Count::one();
    let mut k: usize = 0;
    while k < labels.len()
        invariant
            k <= labels.len(),
            crate::convert::covers(size_dict@, labels@),
            size@ == volume(labels@.take(k as int), size_dict@),
        decreases labels.len() - k,
    {
        size = size.times(size_dict.at(&labels[k]));
        assert(labels@.take(k + 1).drop_last() =~= labels@.take(k as int));
        k = k + 1;
    }
    assert(labels@.take(k as int) =~= labels@);
    size
}

impl<L> Ein<L> {
    /// How many products the expression adds up: one for each choice of a value for every label.
    pub open spec fn flops(self, sizes: Map<L, usize>) -> nat {
        volume(self.labels(), sizes)
    }

    /// How many entries the expression reads and writes.
    pub open spec fn traffic(self, sizes: Map<L, usize>) -> nat {
        volumes(self.ixs, sizes) + volume(self.iy, sizes)
    }
}

/// What a contraction costs, counted exactly. The time, space and read-write complexities are the
/// binary logarithms of these counts.
#[derive(Debug)]
pub struct ContractionComplexity {
    /// How many products are formed.
    pub tc: Count,
    /// How many entries the largest tensor has that a contraction yields.
    pub sc: Count,
    /// How many entries are read and written.
    pub rwc: Count,
}

/// What it costs to evaluate an expression at once.
pub fn eincode_complexity<L: Label>(code: &EinCode<L>, size_dict: &LabelMap<L>) -> (c:
    ContractionComplexity)
    requires
        crate::convert::covers_all(size_dict@, code@.ixs),
        crate::convert::covers(size_dict@, code@.iy),
    ensures
        c.tc@ == code@.flops(size_dict@),
        c.sc@ == volume(code@.iy, size_dict@),
        c.rwc@ == code@.traffic(size_dict@),
{
    let labels: Vec<L> = code.unique_labels();
    let ghost ixs = code@.ixs;
    proof {
        crate::eincode::lemma_distinct(crate::eincode::concat(ixs) + code@.iy);
        assert forall|k: int| 0 <= k < labels.len() implies size_dict@.dom().contains(
            #[trigger] labels@[k],
        ) by {
            let l = labels@[k];
            assert(labels@.contains(l));
            crate::plan::lemma_concat_contains(crate::eincode::concat(ixs), code@.iy, l);
            crate::eincode::lemma_concat(ixs, l);
            if code@.iy.contains(l) {
                let j = code@.iy.index_of(l);
                assert(code@.iy[j] == l);
            } else {
                let i = choose|i: int| 0 <= i < ixs.len() && (#[trigger] ixs[i]).contains(l);
                let j = ixs[i].index_of(l);
                assert(ixs[i][j] == l);
            }
        }
    }
    let tc: Count = tensor_size(&labels, size_dict);
    let sc: Count = tensor_size(&code.iy, size_dict);
    let mut read: Count = Count::zero();
    let mut i: usize = 0;
    while i < code.ixs.len()
        invariant
            i <= code.ixs.len(),
            ixs == code@.ixs,
            crate::convert::covers_all(size_dict@, ixs),
            read@ == volumes(ixs.take(i as int), size_dict@),
        decreases code.ixs.len() - i,
    {
        assert(ixs[i as int] == code.ixs[i as int]@);
        read = read.plus(&tensor_size(&code.ixs[i], size_dict));
        assert(ixs.take(i + 1).drop_last() =~= ixs.take(i as int));
        i = i + 1;
    }
    assert(ixs.take(i as int) =~= ixs);
    let rwc: Count = read.plus(&sc);
    ContractionComplexity { tc, sc, rwc }
}

impl<L> Nested<L> {
    /// The expression that the root evaluates, where the input tensors have the labels `ixs`.
    pub open spec fn own(self, ixs: Seq<Seq<L>>) -> Ein<L> {
        Ein {
            ixs: self->args.map_values(|arg: Nested<L>| crate::convert::child_labels(arg, ixs)),
            iy: self->eins.iy,
        }
    }

    /// Whether `sizes` has a size for every label of the order.
    pub open spec fn sized(self, ixs: Seq<Seq<L>>, sizes: Map<L, usize>) -> bool
        decreases self,
    {
        &&& crate::convert::covers(sizes, crate::convert::child_labels(self, ixs))
        &&& match self {
            Nested::Leaf { .. } => true,
            Nested::Node { args, .. } => forall|k: int|
                0 <= k < args.len() ==> (#[trigger] args[k]).sized(ixs, sizes),
        }
    }

    /// How many products the order forms.
    pub open spec fn flops(self, ixs: Seq<Seq<L>>, sizes: Map<L, usize>) -> nat
        decreases self,
    {
        match self {
            Nested::Leaf { .. } => 0,
            Nested::Node { args, .. } => Self::flops_of(args, ixs, sizes) + self.own(ixs).flops(
                sizes,
            ),
        }
    }

    /// How many products the orders `args` form together.
    pub open spec fn flops_of(args: Seq<Nested<L>>, ixs: Seq<Seq<L>>, sizes: Map<L, usize>) -> nat
        decreases args,
    {
        if args.len() == 0 {
            0
        } else {
            Self::flops_of(args.drop_last(), ixs, sizes) + args.last().flops(ixs, sizes)
        }
    }

    /// How many entries the largest tensor has that a contraction in the order yields.
    pub open spec fn space(self, sizes: Map<L, usize>) -> nat
        decreases self,
    {
        match self {
            Nested::Leaf { .. } => 0,
            Nested::Node { args, eins } => larger(
                Self::space_of(args, sizes),
                volume(eins.iy, sizes),
            ),
        }
    }

    /// How many entries the largest tensor has that a contraction in the orders `args` yields.
    pub open spec fn space_of(args: Seq<Nested<L>>, sizes: Map<L, usize>) -> nat
        decreases args,
    {
        if args.len() == 0 {
            0
        } else {
            larger(Self::space_of(args.drop_last(), sizes), args.last().space(sizes))
        }
    }

    /// How many entries the contractions of the order read and write.
    pub open spec fn traffic(self, ixs: Seq<Seq<L>>, sizes: Map<L, usize>) -> nat
        decreases self,
    {
        match self {
            Nested::Leaf { .. } => 0,
            Nested::Node { args, .. } => Self::traffic_of(args, ixs, sizes) + self.own(ixs).traffic(
                sizes,
            ),
        }
    }

    /// How many entries the contractions of the orders `args` read and write together.
    pub open spec fn traffic_of(
        args: Seq<Nested<L>>,
        ixs: Seq<Seq<L>>,
        sizes: Map<L, usize>,
    ) -> nat
        decreases args,
    {
        if args.len() == 0 {
            0
        } else {
            Self::traffic_of(args.drop_last(), ixs, sizes) + args.last().traffic(ixs, sizes)
        }
    }
}

/// The larger one of two numbers.
pub open spec fn larger(a: nat, b: nat) -> nat {
    if a < b {
        b
    } else {
        a
    }
}

/// The larger one of two numbers.
fn larger_count(a: Count, b: Count) -> (c: Count)
    ensures
        c@ == larger(a@, b@),
{
    if a.less(&b) {
        b
    } else {
        a
    }
}

/// What a contraction order costs, where the input tensors have the labels `original_ixs`. An
/// order that only names a tensor costs nothing.
pub fn nested_complexity<L: Label>(
    code: &NestedEinsum<L>,
    size_dict: &LabelMap<L>,
    original_ixs: &Vec<Vec<L>>,
) -> (c: ContractionComplexity)
    requires
        code@.sized(crate::eincode::label_lists(original_ixs@), size_dict@),
    ensures
        c.tc@ == code@.flops(crate::eincode::label_lists(original_ixs@), size_dict@),
        c.sc@ == code@.space(size_dict@),
        c.rwc@ == code@.traffic(crate::eincode::label_lists(original_ixs@), size_dict@),
    decreases code,
{
    match code {
        NestedEinsum::Leaf { .. } => ContractionComplexity {
            tc: Count::zero(),
            sc: Count::zero(),
            rwc: Count::zero(),
        },
        NestedEinsum::Node { args, eins } => {
            let ghost lists = crate::eincode::label_lists(original_ixs@);
            let ghost models = code@->args;
            let ghost sizes = size_dict@;
            let mut tc: Count = Count::zero();
            let mut sc: Count = Count::zero();
            let mut rwc: Count = Count::zero();
            let mut ixs: Vec<Vec<L>> = Vec::new();
            let mut k: usize = 0;
            while k < args.len()
                invariant
                    k <= args.len(),
                    *code is Node,
                    *args == (*code)->args,
                    models == code@->args,
                    models.len() == args.len(),
                    lists == crate::eincode::label_lists(original_ixs@),
                    sizes == size_dict@,
                    code@.sized(lists, sizes),
                    ixs.len() == k,
                    forall|j: int|
                        0 <= j < k ==> #[trigger] ixs[j]@ == crate::convert::child_labels(
                            models[j],
                            lists,
                        ),
                    tc@ == Nested::flops_of(models.take(k as int), lists, sizes),
                    sc@ == Nested::space_of(models.take(k as int), sizes),
                    rwc@ == Nested::traffic_of(models.take(k as int), lists, sizes),
                decreases args.len() - k,
            {
                proof {
                    crate::eincode::lemma_model_args(*code, k as int);
                    assert(models[k as int].sized(lists, sizes));
                    assert(models.take(k + 1).drop_last() =~= models.take(k as int));
                }
                let part = nested_complexity(&args[k], size_dict, original_ixs);
                tc = tc.plus(&part.tc);
                sc = larger_count(sc, part.sc);
                rwc = rwc.plus(&part.rwc);
                ixs.push(crate::convert::get_child_labels(&args[k], original_ixs));
                k = k + 1;
            }
            assert(models.take(k as int) =~= models);
            let own: EinCode<L> = EinCode { ixs, iy: crate::convert::copy_labels(&eins.iy) };
            proof {
                assert(own@.ixs =~= code@.own(lists).ixs);
                assert(own@ == code@.own(lists));
                assert forall|j: int| 0 <= j < own@.ixs.len() implies crate::convert::covers(
                    sizes,
                    #[trigger] own@.ixs[j],
                ) by {
                    assert(models[j].sized(lists, sizes));
                }
            }
            let c = eincode_complexity(&own, size_dict);
            ContractionComplexity {
                tc: tc.plus(&c.tc),
                sc: larger_count(sc, c.sc),
                rwc: rwc.plus(&c.rwc),
            }
        },
    }
}

/// Part of an order has sizes for its labels where the tensors have.
proof fn lemma_part_sized<L>(
    n: Nested<L>,
    ixs: Seq<Seq<L>>,
    outside: Set<L>,
    sizes: Map<L, usize>,
)
    requires
        n.contracts(ixs, outside),
        crate::convert::covers_all(sizes, ixs),
    ensures
        n.sized(ixs, sizes),
    decreases n,
{
    crate::order::lemma_child_labels_covered(n, ixs, outside, sizes);
    match n {
        Nested::Leaf { .. } => {},
        Nested::Node { args, .. } => {
            lemma_part_sized(args[0], ixs, outside + args[1].label_set(ixs), sizes);
            lemma_part_sized(args[1], ixs, outside + args[0].label_set(ixs), sizes);
        },
    }
}

/// The cost of an order of an expression can be computed wherever the expression has sizes.
pub proof fn order_is_sized<L>(n: Nested<L>, code: Ein<L>, sizes: Map<L, usize>)
    requires
        n.is_order_of(code),
        crate::convert::covers(sizes, code.labels()),
    ensures
        n.sized(code.ixs, sizes),
{
    let args = n->args;
    crate::network::lemma_covered(sizes, code);
    lemma_part_sized(args[0], code.ixs, code.iy.to_set() + args[1].label_set(code.ixs), sizes);
    lemma_part_sized(args[1], code.ixs, code.iy.to_set() + args[0].label_set(code.ixs), sizes);
}

/// The dictionary that gives every label of `code` the size `size`.
pub fn uniform_size_dict<L: Label>(code: &EinCode<L>, size: usize) -> (size_dict: LabelMap<L>)
    ensures
        forall|l: L| #[trigger] size_dict@.dom().contains(l) <==> code@.labels().contains(l),
        forall|l: L| #[trigger] size_dict@.dom().contains(l) ==> size_dict@[l] == size,
{
    let labels: Vec<L> = code.unique_labels();
    let mut size_dict: LabelMap<L> = LabelMap::new();
    let mut k: usize = 0;
    while k < labels.len()
        invariant
            k <= labels.len(),
            forall|l: L| #[trigger]
                size_dict@.dom().contains(l) <==> labels@.take(k as int).contains(l),
            forall|l: L| #[trigger] size_dict@.dom().contains(l) ==> size_dict@[l] == size,
        decreases labels.len() - k,
    {
        let ghost before = size_dict@;
        size_dict.insert(labels[k].duplicate(), size);
        proof {
            assert(labels@.take(k + 1) =~= labels@.take(k as int).push(labels@[k as int]));
            assert forall|l: L| #[trigger]
                size_dict@.dom().contains(l) <==> labels@.take(k + 1).contains(l) by {
                crate::expr_tree::lemma_push_contains(labels@.take(k as int), labels@[k as int], l);
                assert(before.dom().contains(l) <==> labels@.take(k as int).contains(l));
            }
            assert forall|l: L| #[trigger] size_dict@.dom().contains(l) implies size_dict@[l]
                == size by {
                assert(before.dom().contains(l) ==> before[l] == size);
            }
        }
        k = k + 1;
    }
    assert(labels@.take(k as int) =~= labels@);
    size_dict
}

} // verus!
