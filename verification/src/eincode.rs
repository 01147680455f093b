//! Tensor networks as einsum expressions, and contraction orders for them.

use crate::label::Label;
use vstd::prelude::*;

verus! {

/// An einsum expression: the labels of the input tensors and those of the output.
#[derive(Debug, PartialEq, Eq)]
pub struct EinCode<L> {
    /// Labels of each input tensor.
    pub ixs: Vec<Vec<L>>,
    /// Labels of the output.
    pub iy: Vec<L>,
}

/// A contraction order: input tensors, and einsum expressions over what their arguments yield.
#[derive(Debug, PartialEq, Eq)]
pub enum NestedEinsum<L> {
    /// The input tensor with this index.
    Leaf { tensor_index: usize },
    /// The expression `eins`, applied to what `args` yield.
    Node { args: Vec<NestedEinsum<L>>, eins: EinCode<L> },
}

/// What an [`EinCode`] holds.
#[verifier::ext_equal]
pub struct Ein<L> {
    pub ixs: Seq<Seq<L>>,
    pub iy: Seq<L>,
}

/// What a [`NestedEinsum`] holds.
#[verifier::ext_equal]
pub enum Nested<L> {
    Leaf { tensor_index: usize },
    Node { args: Seq<Nested<L>>, eins: Ein<L> },
}

/// The lists of labels, read as sequences.
pub open spec fn label_lists<L>(ixs: Seq<Vec<L>>) -> Seq<Seq<L>> {
    ixs.map_values(|ix: Vec<L>| ix@)
}

impl<L> View for EinCode<L> {
    type V = Ein<L>;

    open spec fn view(&self) -> Ein<L> {
        Ein { ixs: label_lists(self.ixs@), iy: self.iy@ }
    }
}

impl<L> NestedEinsum<L> {
    /// The order, with its vectors read as sequences.
    pub open spec fn model(&self) -> Nested<L>
        decreases self,
    {
        match self {
            NestedEinsum::Leaf { tensor_index } => Nested::Leaf { tensor_index: *tensor_index },
            NestedEinsum::Node { args, eins } => Nested::Node {
                args: Seq::new(
                    args@.len(),
                    |k: int|
                        if 0 <= k < args@.len() {
                            args@[k].model()
                        } else {
                            arbitrary()
                        },
                ),
                eins: eins@,
            },
        }
    }
}

impl<L> View for NestedEinsum<L> {
    type V = Nested<L>;

    open spec fn view(&self) -> Nested<L> {
        self.model()
    }
}

/// The labels of all tensors, one list after the other.
pub open spec fn concat<L>(ixs: Seq<Seq<L>>) -> Seq<L>
    decreases ixs.len(),
{
    if ixs.len() == 0 {
        Seq::empty()
    } else {
        concat(ixs.drop_last()) + ixs.last()
    }
}

/// The labels of `labels`, each where it stands first.
pub open spec fn distinct<L>(labels: Seq<L>) -> Seq<L>
    decreases labels.len(),
{
    if labels.len() == 0 {
        Seq::empty()
    } else {
        let before = distinct(labels.drop_last());
        if before.contains(labels.last()) {
            before
        } else {
            before.push(labels.last())
        }
    }
}

/// `distinct` lists the same labels, and none twice.
pub proof fn lemma_distinct<L>(labels: Seq<L>)
    ensures
        distinct(labels).no_duplicates(),
        forall|l: L| #[trigger] distinct(labels).contains(l) <==> labels.contains(l),
    decreases labels.len(),
{
    if labels.len() > 0 {
        let rest = labels.drop_last();
        lemma_distinct(rest);
        assert forall|l: L| #[trigger] distinct(labels).contains(l) <==> labels.contains(l) by {
            crate::expr_tree::lemma_push_contains(rest, labels.last(), l);
            crate::expr_tree::lemma_push_contains(distinct(rest), labels.last(), l);
            assert(labels =~= rest.push(labels.last()));
        }
    }
}

/// A concatenation lists what some of its parts lists.
pub proof fn lemma_concat<L>(ixs: Seq<Seq<L>>, l: L)
    ensures
        concat(ixs).contains(l) <==> exists|i: int|
            0 <= i < ixs.len() && (#[trigger] ixs[i]).contains(l),
    decreases ixs.len(),
{
    if ixs.len() > 0 {
        let rest = ixs.drop_last();
        lemma_concat(rest, l);
        crate::plan::lemma_concat_contains(concat(rest), ixs.last(), l);
        if concat(rest).contains(l) {
            let i = choose|i: int| 0 <= i < rest.len() && (#[trigger] rest[i]).contains(l);
            assert(ixs[i].contains(l));
        }
        if ixs.last().contains(l) {
            assert(ixs[ixs.len() - 1].contains(l));
        }
        if exists|i: int| 0 <= i < ixs.len() && (#[trigger] ixs[i]).contains(l) {
            let i = choose|i: int| 0 <= i < ixs.len() && (#[trigger] ixs[i]).contains(l);
            if i < rest.len() {
                assert(rest[i].contains(l));
            }
        }
    }
}

impl<L> Ein<L> {
    /// All labels, each where it stands first.
    pub open spec fn labels(self) -> Seq<L> {
        distinct(concat(self.ixs) + self.iy)
    }
}

impl<L> EinCode<L> {
    /// The expression with these labels of input tensors and output.
    pub fn new(ixs: Vec<Vec<L>>, iy: Vec<L>) -> (code: Self)
        ensures
            code.ixs == ixs,
            code.iy == iy,
    {
        EinCode { ixs, iy }
    }

    /// How many input tensors the expression has.
    pub fn num_tensors(&self) -> (n: usize)
        ensures
            n == self@.ixs.len(),
    {
        self.ixs.len()
    }
}

/// Adds to `seen` the labels of `labels` that it does not hold yet.
fn push_distinct<L: Label>(seen: &mut Vec<L>, labels: &Vec<L>, Ghost(before): Ghost<Seq<L>>)
    requires
        old(seen)@ == distinct(before),
    ensures
        final(seen)@ == distinct(before + labels@),
{
    let mut k: usize = 0;
    assert(before + labels@.take(0) =~= before);
    while k < labels.len()
        invariant
            k <= labels.len(),
            seen@ == distinct(before + labels@.take(k as int)),
        decreases labels.len() - k,
    {
        if crate::label::position(seen, &labels[k]).is_none() {
            seen.push(labels[k].duplicate());
        } else {
            assert(seen@.contains(labels@[k as int]));
        }
        assert((before + labels@.take(k + 1)).drop_last() =~= before + labels@.take(k as int));
        k = k + 1;
    }
    assert(labels@.take(k as int) =~= labels@);
}

impl<L: Label> EinCode<L> {
    /// All labels of the expression, each where it stands first.
    pub fn unique_labels(&self) -> (labels: Vec<L>)
        ensures
            labels@ == self@.labels(),
    {
        let mut labels: Vec<L> = Vec::new();
        let ghost ixs = self@.ixs;
        let mut i: usize = 0;
        assert(concat(ixs.take(0)) =~= Seq::empty());
        while i < self.ixs.len()
            invariant
                i <= self.ixs.len(),
                ixs == label_lists(self.ixs@),
                labels@ == distinct(concat(ixs.take(i as int))),
            decreases self.ixs.len() - i,
        {
            push_distinct(&mut labels, &self.ixs[i], Ghost(concat(ixs.take(i as int))));
            proof {
                assert(ixs.take(i + 1).drop_last() =~= ixs.take(i as int));
                assert(ixs[i as int] == self.ixs[i as int]@);
            }
            i = i + 1;
        }
        assert(ixs.take(i as int) =~= ixs);
        push_distinct(&mut labels, &self.iy, Ghost(concat(ixs)));
        labels
    }
}

impl<L> Nested<L> {
    /// The indices of the input tensors, from left to right.
    pub open spec fn leaves(self) -> Seq<usize>
        decreases self,
    {
        match self {
            Nested::Leaf { tensor_index } => seq![tensor_index],
            Nested::Node { args, .. } => Self::leaves_of(args),
        }
    }

    /// The indices of the input tensors of `args`, from left to right.
    pub open spec fn leaves_of(args: Seq<Nested<L>>) -> Seq<usize>
        decreases args,
    {
        if args.len() == 0 {
            Seq::empty()
        } else {
            Self::leaves_of(args.drop_last()) + args.last().leaves()
        }
    }

    /// Whether every expression in the order takes two arguments.
    pub open spec fn binary(self) -> bool
        decreases self,
    {
        match self {
            Nested::Leaf { .. } => true,
            Nested::Node { args, .. } => args.len() == 2 && args[0].binary() && args[1].binary(),
        }
    }

    /// Whether every expression in the order takes at most one argument that is not an input
    /// tensor.
    pub open spec fn linear(self) -> bool
        decreases self,
    {
        match self {
            Nested::Leaf { .. } => true,
            Nested::Node { args, .. } => {
                &&& forall|i: int, j: int|
                    0 <= i < j < args.len() ==> #[trigger] args[i] is Leaf
                        || #[trigger] args[j] is Leaf
                &&& forall|i: int| 0 <= i < args.len() ==> (#[trigger] args[i]).linear()
            },
        }
    }
}

/// The models of the arguments of a node are those of the vector.
pub proof fn lemma_model_args<L>(nested: NestedEinsum<L>, k: int)
    requires
        nested is Node,
        0 <= k < nested->args@.len(),
    ensures
        nested@->args.len() == nested->args@.len(),
        nested@->args[k] == nested->args@[k]@,
        decreases_to!(nested => nested->args@[k]),
{
}

/// The leaves of two arguments are those of one after those of the other.
pub proof fn lemma_two_leaves<L>(args: Seq<Nested<L>>)
    requires
        args.len() == 2,
    ensures
        Nested::leaves_of(args) == args[0].leaves() + args[1].leaves(),
{
    reveal_with_fuel(Nested::leaves_of, 3);
    assert(args.drop_last().drop_last() =~= Seq::empty());
    assert(Nested::leaves_of(args) =~= args[0].leaves() + args[1].leaves());
}

/// The first arguments have no more leaves than all arguments.
proof fn lemma_leaves_take<L>(args: Seq<Nested<L>>, k: int)
    requires
        0 <= k <= args.len(),
    ensures
        Nested::leaves_of(args.take(k)).len() <= Nested::leaves_of(args).len(),
    decreases args.len(),
{
    if k < args.len() {
        lemma_leaves_take(args.drop_last(), k);
        assert(args.drop_last().take(k) =~= args.take(k));
    } else {
        assert(args.take(k) =~= args);
    }
}

impl<L> NestedEinsum<L> {
    /// The input tensor with this index.
    pub fn leaf(tensor_index: usize) -> (nested: Self)
        ensures
            nested@ == (Nested::<L>::Leaf { tensor_index }),
    {
        NestedEinsum::Leaf { tensor_index }
    }

    /// The expression `eins`, applied to what `args` yield.
    pub fn node(args: Vec<NestedEinsum<L>>, eins: EinCode<L>) -> (nested: Self)
        ensures
            nested == (NestedEinsum::Node { args, eins }),
            nested@ == (Nested::Node {
                args: args@.map_values(|arg: NestedEinsum<L>| arg@),
                eins: eins@,
            }),
    {
        let nested = NestedEinsum::Node { args, eins };
        assert(nested@->args =~= args@.map_values(|arg: NestedEinsum<L>| arg@));
        nested
    }

    /// Whether the order is a single input tensor.
    pub fn is_leaf(&self) -> (b: bool)
        ensures
            b == (self@ is Leaf),
    {
        match self {
            NestedEinsum::Leaf { .. } => true,
            NestedEinsum::Node { .. } => false,
        }
    }

    /// Whether every expression in the order takes two arguments.
    pub fn is_binary(&self) -> (b: bool)
        ensures
            b == self@.binary(),
        decreases self,
    {
        match self {
            NestedEinsum::Leaf { .. } => true,
            NestedEinsum::Node { args, .. } => {
                if args.len() != 2 {
                    return false;
                }
                proof {
                    lemma_model_args(*self, 0);
                    lemma_model_args(*self, 1);
                }
                args[0].is_binary() && args[1].is_binary()
            },
        }
    }

    /// How many input tensors the order has.
    pub fn leaf_count(&self) -> (count: usize)
        requires
            self@.leaves().len() <= usize::MAX,
        ensures
            count == self@.leaves().len(),
        decreases self,
    {
        match self {
            NestedEinsum::Leaf { .. } => 1,
            NestedEinsum::Node { args, .. } => {
                let mut count: usize = 0;
                let ghost models = self@->args;
                let mut k: usize = 0;
                assert(models.take(0) =~= Seq::empty());
                while k < args.len()
                    invariant
                        k <= args.len(),
                        models == self@->args,
                        models.len() == args.len(),
                        *self is Node,
                        *args == (*self)->args,
                        Nested::leaves_of(models).len() <= usize::MAX,
                        count == Nested::leaves_of(models.take(k as int)).len(),
                    decreases args.len() - k,
                {
                    proof {
                        lemma_model_args(*self, k as int);
                        assert(models.take(k + 1).drop_last() =~= models.take(k as int));
                        lemma_leaves_take(models, k + 1);
                    }
                    count = count + args[k].leaf_count();
                    k = k + 1;
                }
                assert(models.take(k as int) =~= models);
                count
            },
        }
    }

    /// Adds to `indices` the indices of the input tensors, from left to right.
    fn push_leaf_indices(&self, indices: &mut Vec<usize>)
        ensures
            final(indices)@ == old(indices)@ + self@.leaves(),
        decreases self,
    {
        match self {
            NestedEinsum::Leaf { tensor_index } => {
                indices.push(*tensor_index);
            },
            NestedEinsum::Node { args, .. } => {
                let ghost before = indices@;
                let ghost models = self@->args;
                let mut k: usize = 0;
                assert(models.take(0) =~= Seq::empty());
                assert(before + Seq::<usize>::empty() =~= before);
                while k < args.len()
                    invariant
                        k <= args.len(),
                        models == self@->args,
                        models.len() == args.len(),
                        *self is Node,
                        *args == (*self)->args,
                        indices@ == before + Nested::leaves_of(models.take(k as int)),
                    decreases args.len() - k,
                {
                    proof {
                        lemma_model_args(*self, k as int);
                        assert(models.take(k + 1).drop_last() =~= models.take(k as int));
                    }
                    args[k].push_leaf_indices(indices);
                    assert(indices@ =~= before + Nested::leaves_of(models.take(k + 1)));
                    k = k + 1;
                }
                assert(models.take(k as int) =~= models);
            },
        }
    }

    /// The indices of the input tensors, from left to right.
    pub fn leaf_indices(&self) -> (indices: Vec<usize>)
        ensures
            indices@ == self@.leaves(),
    {
        let mut indices: Vec<usize> = Vec::new();
        self.push_leaf_indices(&mut indices);
        assert(Seq::<usize>::empty() + self@.leaves() =~= self@.leaves());
        indices
    }

    /// Whether every expression in the order takes at most one argument that is not an input
    /// tensor.
    pub fn is_path_decomposition(&self) -> (b: bool)
        ensures
            b == self@.linear(),
        decreases self,
    {
        match self {
            NestedEinsum::Leaf { .. } => true,
            NestedEinsum::Node { args, .. } => {
                let ghost models = self@->args;
                let mut inner: Option<usize> = None;
                let mut k: usize = 0;
                while k < args.len()
                    invariant
                        k <= args.len(),
                        models == self@->args,
                        models.len() == args.len(),
                        *self is Node,
                        *args == (*self)->args,
                        forall|i: int| 0 <= i < k ==> (#[trigger] models[i]).linear(),
                        match inner {
                            Some(j) => j < k && models[j as int] is Node && forall|i: int|
                                0 <= i < k && i != j ==> #[trigger] models[i] is Leaf,
                            None => forall|i: int| 0 <= i < k ==> #[trigger] models[i] is Leaf,
                        },
                    decreases args.len() - k,
                {
                    proof {
                        lemma_model_args(*self, k as int);
                    }
                    if !args[k].is_leaf() {
                        if inner.is_some() {
                            assert(models[inner->0 as int] is Node && models[k as int] is Node);
                            return false;
                        }
                        inner = Some(k);
                    }
                    if !args[k].is_path_decomposition() {
                        return false;
                    }
                    k = k + 1;
                }
                true
            },
        }
    }
}

} // verus!
