//! Contraction orders for tensor networks.
//!
//! A tensor network is an expression that multiplies tensors and sums over the labels of indices
//! that the output does not carry. A contraction order says in which pairs to multiply the
//! tensors, and that decides how much time and space the evaluation takes. The library finds good
//! orders: [`GreedyMethod`] contracts the cheapest pair again and again, and [`TreeSA`] anneals
//! whole contraction trees.
//!
//! Whatever an optimizer finds computes what the expression says: see [`order`] for what makes an
//! order one of an expression, and [`value`] for the values of both.
//!
//! What the numbers on the way stand for is stated in [`counting`], which counts entries and
//! products, in [`reading`], [`acceptance`] and [`scoring`], which read energies and scores as real
//! numbers, and in [`calls`], which says how calls relate.

pub mod acceptance;
pub mod agreement;
pub mod anneal;
pub mod calls;
pub mod complexity;
pub mod convert;
pub mod count;
pub mod counting;
pub mod eincode;
pub mod energy;
pub mod expr_tree;
pub mod greedy;
pub mod init;
pub mod label;
pub mod label_map;
pub mod network;
pub mod order;
pub mod pairs;
pub mod plan;
pub mod random;
pub mod ranking;
pub mod reading;
pub mod repeat;
pub mod scalar;
pub mod score;
pub mod scoring;
pub mod shapes;
pub mod splitting;
pub mod sweep;
pub mod sweeping;
pub mod tidy;
pub mod treesa;
pub mod value;

pub use complexity::{
    eincode_complexity, nested_complexity, uniform_size_dict, ContractionComplexity,
};
pub use count::Count;
pub use eincode::{EinCode, NestedEinsum};
pub use expr_tree::DecompositionType;
pub use greedy::{optimize_greedy, optimize_greedy_from, GreedyMethod};
pub use label::Label;
pub use label_map::LabelMap;
pub use scalar::Scalar;
pub use score::ScoreFunction;
pub use treesa::{optimize_treesa, optimize_treesa_warm, Initializer, TreeSA};

use eincode::{Ein, Nested};
use vstd::prelude::*;

verus! {

/// An order that may be missing, read as a model.
pub open spec fn order_view<L>(nested: Option<NestedEinsum<L>>) -> Option<Nested<L>> {
    match nested {
        Some(nested) => Some(nested@),
        None => None,
    }
}

/// What finds contraction orders for expressions with labels of the type `L`.
pub trait CodeOptimizer<L: Label> {
    /// Whether the optimizer takes this expression with these sizes.
    spec fn accepts(&self, code: Ein<L>, size_dict: Map<L, usize>) -> bool;

    /// Whether the optimizer may return `nested` for an expression and sizes.
    spec fn may_return(
        &self,
        code: Ein<L>,
        size_dict: Map<L, usize>,
        nested: Option<Nested<L>>,
    ) -> bool;

    /// Finds a contraction order for `code`.
    fn optimize(&self, code: &EinCode<L>, size_dict: &LabelMap<L>) -> (nested: Option<
        NestedEinsum<L>,
    >)
        requires
            self.accepts(code@, size_dict@),
        ensures
            self.may_return(code@, size_dict@, order_view(nested)),
    ;
}

impl<L: Label, R: Scalar> CodeOptimizer<L> for GreedyMethod<R> {
    /// The sizes of the labels have to be there where there is something to contract.
    open spec fn accepts(&self, code: Ein<L>, size_dict: Map<L, usize>) -> bool {
        code.ixs.len() >= 2 ==> crate::convert::covers(size_dict, code.labels())
    }

    /// A greedy order of the expression; the only tensor where there is but one; nothing where
    /// there is none.
    open spec fn may_return(
        &self,
        code: Ein<L>,
        size_dict: Map<L, usize>,
        nested: Option<Nested<L>>,
    ) -> bool {
        match nested {
            None => code.ixs.len() == 0,
            Some(nested) => if code.ixs.len() == 1 {
                nested == (Nested::<L>::Leaf { tensor_index: 0 })
            } else {
                &&& code.ixs.len() >= 2
                &&& crate::greedy::greedy_order(code, size_dict, *self, nested)
                &&& nested.is_order_of(code)
            },
        }
    }

    fn optimize(&self, code: &EinCode<L>, size_dict: &LabelMap<L>) -> (nested: Option<
        NestedEinsum<L>,
    >) {
        optimize_greedy(code, size_dict, self)
    }
}

impl<L: Label, R: Scalar> CodeOptimizer<L> for TreeSA<R> {
    /// The sizes of the labels have to be there where there is something to contract, and random
    /// trees count labels.
    open spec fn accepts(&self, code: Ein<L>, size_dict: Map<L, usize>) -> bool {
        &&& code.ixs.len() >= 2 ==> crate::convert::covers(size_dict, code.labels())
        &&& self.initializer == Initializer::Random ==> code.fits()
    }

    /// An annealed order of the expression, linear where linear ones are looked for from random
    /// ones; the only tensor where there is but one; nothing where there is none, and without
    /// trials.
    open spec fn may_return(
        &self,
        code: Ein<L>,
        size_dict: Map<L, usize>,
        nested: Option<Nested<L>>,
    ) -> bool {
        match nested {
            None => code.ixs.len() == 0 || code.ixs.len() >= 2 && self.ntrials == 0,
            Some(nested) => if code.ixs.len() == 1 {
                nested == (Nested::<L>::Leaf { tensor_index: 0 })
            } else {
                &&& code.ixs.len() >= 2 && self.ntrials > 0
                &&& crate::treesa::treesa_order(code, size_dict, *self, nested)
                &&& nested.is_order_of(code)
                &&& self.decomposition_type == DecompositionType::Path && self.initializer
                    == Initializer::Random ==> nested.linear()
            },
        }
    }

    fn optimize(&self, code: &EinCode<L>, size_dict: &LabelMap<L>) -> (nested: Option<
        NestedEinsum<L>,
    >) {
        optimize_treesa(code, size_dict, self)
    }
}

/// Finds a contraction order for `code` by `optimizer`: what its method returns is returned.
pub fn optimize_code<L: Label, O: CodeOptimizer<L>>(
    code: &EinCode<L>,
    size_dict: &LabelMap<L>,
    optimizer: &O,
) -> (nested: Option<NestedEinsum<L>>)
    requires
        optimizer.accepts(code@, size_dict@),
    ensures
        optimizer.may_return(code@, size_dict@, order_view(nested)),
        call_ensures(O::optimize, (optimizer, code, size_dict), nested),
{
    optimizer.optimize(code, size_dict)
}

/// What a contraction order costs, where the input tensors have the labels `original_ixs`.
pub fn contraction_complexity<L: Label>(
    code: &NestedEinsum<L>,
    size_dict: &LabelMap<L>,
    original_ixs: &Vec<Vec<L>>,
) -> (c: ContractionComplexity)
    requires
        code@.sized(crate::eincode::label_lists(original_ixs@), size_dict@),
    ensures
        c.tc@ == code@.flops(crate::eincode::label_lists(original_ixs@), size_dict@),
        c.sc@ == code@.space(size_dict@),
        c.rwc@ == code@.traffic(crate::eincode::label_lists(original_ixs@), size_dict@),
{
    nested_complexity(code, size_dict, original_ixs)
}

/// The orders that the two optimizers find for an expression of at least two tensors compute what
/// the expression computes, whatever the tensors and the sizes of the indices are.
pub proof fn optimizers_agree<L: Label, R: Scalar>(
    greedy: GreedyMethod<R>,
    annealing: TreeSA<R>,
    code: Ein<L>,
    size_dict: Map<L, usize>,
    a: Nested<L>,
    b: Nested<L>,
    tensors: Seq<crate::value::Tensor<L>>,
    size: spec_fn(L) -> nat,
    s: crate::value::Assignment<L>,
)
    requires
        greedy.may_return(code, size_dict, Some(a)),
        annealing.may_return(code, size_dict, Some(b)),
        2 <= code.ixs.len() <= usize::MAX,
        crate::value::carry(tensors, code.ixs),
    ensures
        a.value(tensors, size)(s) == code.value(tensors, size)(s),
        b.value(tensors, size)(s) == code.value(tensors, size)(s),
{
    crate::value::order_computes_code(a, code, tensors, size, s);
    crate::value::order_computes_code(b, code, tensors, size, s);
}

} // verus!
