//! What calls of the library give, and how calls relate.

use crate::complexity::{eincode_complexity, nested_complexity, ContractionComplexity};
use crate::counting::{choices, size_in};
use crate::eincode::{Ein, EinCode, Nested, NestedEinsum};
use crate::expr_tree::{DecompositionType, Tree};
use crate::greedy::{optimize_greedy, GreedyMethod};
use crate::label::Label;
use crate::label_map::LabelMap;
use crate::pairs::Gauge;
use crate::reading::Reading;
use crate::scalar::Scalar;
use crate::score::ScoreFunction;
use crate::treesa::{optimize_treesa, optimize_treesa_warm, Initializer, Trial, TreeSA};
use rand::rngs::SmallRng;
use vstd::prelude::*;

verus! {

/// The complexity of an order of two parts adds to those of the parts one product for each way to
/// give the labels at its root indices, and one access to each entry of the two tensors and of the
/// result. Its space is that of a part, or the size of the result, and no less than any of the
/// three.
pub proof fn complexity_adds_up<L: Label>(
    n: NestedEinsum<L>,
    a: NestedEinsum<L>,
    b: NestedEinsum<L>,
    size_dict: LabelMap<L>,
    ixs: Vec<Vec<L>>,
    all: Seq<L>,
    whole: ContractionComplexity,
    first: ContractionComplexity,
    second: ContractionComplexity,
)
    requires
        call_ensures(nested_complexity::<L>, (&n, &size_dict, &ixs), whole),
        call_ensures(nested_complexity::<L>, (&a, &size_dict, &ixs), first),
        call_ensures(nested_complexity::<L>, (&b, &size_dict, &ixs), second),
        n@ is Node && n@->args == seq![a@, b@],
        crate::counting::lists_all(
            all,
            crate::convert::child_labels(a@, crate::eincode::label_lists(ixs@)),
            crate::convert::child_labels(b@, crate::eincode::label_lists(ixs@)),
            n@->eins.iy,
        ),
    ensures
        whole.tc@ == first.tc@ + second.tc@ + choices(all, size_in(size_dict@)),
        whole.rwc@ == first.rwc@ + second.rwc@ + choices(
            crate::convert::child_labels(a@, crate::eincode::label_lists(ixs@)),
            size_in(size_dict@),
        ) + choices(
            crate::convert::child_labels(b@, crate::eincode::label_lists(ixs@)),
            size_in(size_dict@),
        ) + choices(n@->eins.iy, size_in(size_dict@)),
        whole.sc@ >= first.sc@ && whole.sc@ >= second.sc@ && whole.sc@ >= choices(
            n@->eins.iy,
            size_in(size_dict@),
        ),
        whole.sc@ == first.sc@ || whole.sc@ == second.sc@ || whole.sc@ == choices(
            n@->eins.iy,
            size_in(size_dict@),
        ),
{
    let lists = crate::eincode::label_lists(ixs@);
    let eins = n@->eins;
    assert(n@ == Nested::Node { args: seq![a@, b@], eins });
    crate::counting::node_is_counted(a@, b@, eins, all, lists, size_dict@, 0);
    crate::counting::volume_counts_entries(eins.iy, size_dict@);
    crate::counting::lemma_space_of(n@->args, size_dict@);
    assert(n@->args[0] == a@ && n@->args[1] == b@);
}

/// An order that only names a tensor costs nothing.
pub proof fn leaf_costs_nothing<L: Label>(
    n: NestedEinsum<L>,
    size_dict: LabelMap<L>,
    ixs: Vec<Vec<L>>,
    c: ContractionComplexity,
)
    requires
        call_ensures(nested_complexity::<L>, (&n, &size_dict, &ixs), c),
        n@ is Leaf,
    ensures
        c.tc@ == 0 && c.sc@ == 0 && c.rwc@ == 0,
{
}

/// Asking for the complexity of an order by either name gives the same.
pub proof fn complexities_agree<L: Label>(
    n: NestedEinsum<L>,
    size_dict: LabelMap<L>,
    ixs: Vec<Vec<L>>,
    c: ContractionComplexity,
    d: ContractionComplexity,
)
    requires
        call_ensures(nested_complexity::<L>, (&n, &size_dict, &ixs), c),
        call_ensures(crate::contraction_complexity::<L>, (&n, &size_dict, &ixs), d),
    ensures
        c.tc@ == d.tc@ && c.sc@ == d.sc@ && c.rwc@ == d.rwc@,
{
}

/// Evaluating an expression at once forms a product for each way to give all its labels indices,
/// yields the entries of its output, and reads each tensor in addition to what the others take.
pub proof fn expression_costs<L: Label>(
    code: EinCode<L>,
    more: EinCode<L>,
    size_dict: LabelMap<L>,
    x: Seq<L>,
    all: Seq<L>,
    c: ContractionComplexity,
    d: ContractionComplexity,
)
    requires
        call_ensures(eincode_complexity::<L>, (&code, &size_dict), c),
        call_ensures(eincode_complexity::<L>, (&more, &size_dict), d),
        more@ == (Ein { ixs: code@.ixs.push(x), iy: code@.iy }),
        all.no_duplicates(),
        forall|l: L| #[trigger]
            all.contains(l) <==> code@.iy.contains(l) || exists|i: int|
                0 <= i < code@.ixs.len() && (#[trigger] code@.ixs[i]).contains(l),
    ensures
        c.tc@ == choices(all, size_in(size_dict@)),
        c.sc@ == choices(code@.iy, size_in(size_dict@)),
        d.sc@ == c.sc@,
        d.rwc@ == c.rwc@ + choices(x, size_in(size_dict@)),
        code@.ixs.len() == 0 ==> c.rwc@ == c.sc@,
{
    crate::counting::expression_is_counted(code@, x, all, size_dict@);
    crate::counting::volume_counts_entries(code@.iy, size_dict@);
    if code@.ixs.len() == 0 {
        assert(code@.ixs =~= Seq::<Seq<L>>::empty());
        assert(code@ == Ein { ixs: Seq::<Seq<L>>::empty(), iy: code@.iy });
    }
}

/// What annealing returns for at least two tensors computes what the expression computes, and is
/// the order of the tree of a trial that no other trial is better than.
pub proof fn treesa_returns_best_order<L: Label, R: Scalar>(
    code: EinCode<L>,
    size_dict: LabelMap<L>,
    config: TreeSA<R>,
    result: Option<NestedEinsum<L>>,
    tensors: Seq<crate::value::Tensor<L>>,
    size: spec_fn(L) -> nat,
    s: crate::value::Assignment<L>,
) -> (at: (Option<Tree>, Seq<R>, Seq<Trial<R>>, int))
    requires
        call_ensures(optimize_treesa::<L, R>, (&code, &size_dict, &config), result),
        2 <= code@.ixs.len() <= usize::MAX,
        crate::value::carry(tensors, code@.ixs),
        config.ntrials > 0,
    ensures
        result is Some,
        result->0@.value(tensors, size)(s) == code@.value(tensors, size)(s),
        config.initializer == Initializer::Random ==> at.0 is None,
        config.initializer == Initializer::Greedy ==> at.0 is Some && crate::treesa::greedy_start::<
            L,
            R,
        >(code@, size_dict@, at.0->0),
        crate::treesa::log2_table_is(code@.sizes(size_dict@), at.1),
        at.2.len() == config.ntrials,
        forall|i: int|
            0 <= i < at.2.len() ==> (crate::treesa::Instance {
                ixs: code@.int_ixs(),
                iy: code@.int_iy(),
                table: at.1,
            }).yields(i as usize, at.0, config, #[trigger] at.2[i]),
        0 <= at.3 < at.2.len(),
        crate::treesa::first_lowest(crate::treesa::scores_of(at.2), at.3),
        result->0@ == code@.order_of(at.2[at.3].tree@),
{
    let n = result->0@;
    crate::value::order_computes_code(n, code@, tensors, size, s);
    let given: Option<Tree> = match config.initializer {
        Initializer::Greedy => Some(
            choose|t: Tree| #[trigger]
                crate::treesa::greedy_start::<L, R>(code@, size_dict@, t)
                    && crate::treesa::annealed_order(code@, size_dict@, config, Some(t), n),
        ),
        Initializer::Random => None,
    };
    assert(crate::treesa::annealed_order(code@, size_dict@, config, given, n));
    let (table, trials, k) = choose|table: Seq<R>, trials: Seq<Trial<R>>, k: int| #[trigger]
        crate::treesa::annealed_by(code@, size_dict@, config, given, n, table, trials, k);
    (given, table, trials, k)
}

/// There is no order without tensors, nor of several tensors without trials, and the only tensor is
/// its own order.
pub proof fn treesa_without_choice<L: Label, R: Scalar>(
    code: EinCode<L>,
    size_dict: LabelMap<L>,
    config: TreeSA<R>,
    result: Option<NestedEinsum<L>>,
)
    requires
        call_ensures(optimize_treesa::<L, R>, (&code, &size_dict, &config), result),
    ensures
        code@.ixs.len() == 0 ==> result is None,
        code@.ixs.len() >= 2 && config.ntrials == 0 ==> result is None,
        code@.ixs.len() == 1 ==> result is Some && result->0@ == (Nested::<L>::Leaf {
            tensor_index: 0,
        }),
{
}

/// A warm start from an order of the expression gives an order of it, which computes the same, and
/// gives the order back where nothing is annealed.
pub proof fn warm_start_gives_order<L: Label, R: Scalar>(
    seed: NestedEinsum<L>,
    code: EinCode<L>,
    size_dict: LabelMap<L>,
    config: TreeSA<R>,
    result: Option<NestedEinsum<L>>,
    tensors: Seq<crate::value::Tensor<L>>,
    size: spec_fn(L) -> nat,
    s: crate::value::Assignment<L>,
)
    requires
        call_ensures(optimize_treesa_warm::<L, R>, (&seed, &code, &size_dict, &config), result),
        result is Some,
        2 <= code@.ixs.len() <= usize::MAX,
        seed@.is_order_of(code@),
        crate::value::carry(tensors, code@.ixs),
    ensures
        result->0@.value(tensors, size)(s) == seed@.value(tensors, size)(s),
        result->0@.leaves().to_multiset() == seed@.leaves().to_multiset(),
        config.betas@.len() == 0 || config.niters == 0 ==> result->0@ == seed@,
        crate::treesa::annealed_order(
            code@,
            size_dict@,
            config,
            crate::convert::converted(seed@, code@.numbering()),
            result->0@,
        ),
{
    crate::value::order_computes_code(result->0@, code@, tensors, size, s);
    crate::value::order_computes_code(seed@, code@, tensors, size, s);
}

/// What the greedy method returns for at least two tensors computes what the expression computes,
/// and is the order of a tree that was built pair by pair from its tensors, with losses that go by
/// the sizes of its labels and by the weight of the method.
pub proof fn greedy_returns_built_order<L: Label, R: Scalar>(
    code: EinCode<L>,
    size_dict: LabelMap<L>,
    method: GreedyMethod<R>,
    result: Option<NestedEinsum<L>>,
    tensors: Seq<crate::value::Tensor<L>>,
    size: spec_fn(L) -> nat,
    s: crate::value::Assignment<L>,
) -> (at: (Tree, SmallRng, SmallRng))
    requires
        call_ensures(optimize_greedy::<L, R>, (&code, &size_dict, &method), result),
        2 <= code@.ixs.len() <= usize::MAX,
        crate::value::carry(tensors, code@.ixs),
    ensures
        result is Some,
        result->0@.value(tensors, size)(s) == code@.value(tensors, size)(s),
        crate::random::opened(at.1),
        crate::greedy::built(
            (Gauge {
                iy: code@.int_iy(),
                sizes: Seq::new(
                    code@.labels().len(),
                    |k: int| size_dict@[code@.labels()[k]],
                ),
                numerator: method.alpha_numerator,
                denominator: method.alpha_denominator,
            }),
            Seq::new(
                code@.ixs.len(),
                |k: int|
                    Tree::Leaf(
                        crate::expr_tree::Info {
                            dims: code@.int_ixs()[k],
                            id: Some(k as usize),
                        },
                    ),
            ),
            method.temperature,
            at.0,
            at.1,
            at.2,
        ),
        result->0@ == code@.order_of(at.0),
{
    let n = result->0@;
    crate::value::order_computes_code(n, code@, tensors, size, s);
    let (before, after) = choose|before: SmallRng, after: SmallRng| #[trigger]
        crate::random::opened(before) && #[trigger] crate::greedy::greedy_drawn(
            code@,
            size_dict@,
            method,
            n,
            before,
            after,
        );
    let g = method.gauge(code@.int_iy(), code@.sizes(size_dict@));
    let start = crate::greedy::start(code@.int_ixs());
    let t = choose|t: Tree| #[trigger]
        crate::greedy::built(g, start, method.temperature, t, before, after) && n
            == code@.order_of(t);
    assert(code@.sizes(size_dict@) =~= Seq::new(
        code@.labels().len(),
        |k: int| size_dict@[code@.labels()[k]],
    ));
    assert(start =~= Seq::new(
        code@.ixs.len(),
        |k: int|
            Tree::Leaf(
                crate::expr_tree::Info { dims: code@.int_ixs()[k], id: Some(k as usize) },
            ),
    ));
    (t, before, after)
}

/// The setting for annealing that is used where none is given: ten trials of fifty sweeps at each
/// of three hundred inverse temperatures, from 0.01 upwards in steps of 0.05, from greedy orders, for
/// trees of any shape.
pub proof fn default_annealing<R: Scalar>(e: Reading<R>, config: TreeSA<R>, k: int)
    requires
        e.exact(),
        call_ensures(TreeSA::<R>::default, (), config),
        0 <= k < 300,
    ensures
        config.ntrials == 10 && config.niters == 50 && config.betas@.len() == 300,
        config.initializer == Initializer::Greedy,
        config.decomposition_type == DecompositionType::Tree,
        (e.value)(config.betas@[k]) * 100 as real == (1 + 5 * k) as real,
        (e.value)(config.score.tc_weight) == 1 as real,
        (e.value)(config.score.sc_weight) == 1 as real,
        (e.value)(config.score.rw_weight) == 0 as real,
        (e.value)(config.score.sc_target) == 20 as real,
{
    crate::scoring::schedule_is_read(e, config.betas@, 0, 300, 5, k);
    crate::scoring::default_score_is_read(e, config.score);
}

/// The setting for linear orders differs in the start, which is random, and in the shape.
pub proof fn path_annealing<R: Scalar>(e: Reading<R>, config: TreeSA<R>, k: int)
    requires
        e.exact(),
        call_ensures(TreeSA::<R>::path, (), config),
        0 <= k < 300,
    ensures
        config.ntrials == 10 && config.niters == 50 && config.betas@.len() == 300,
        config.initializer == Initializer::Random,
        config.decomposition_type == DecompositionType::Path,
        (e.value)(config.betas@[k]) * 100 as real == (1 + 5 * k) as real,
        (e.value)(config.score.tc_weight) == 1 as real,
        (e.value)(config.score.sc_weight) == 1 as real,
        (e.value)(config.score.rw_weight) == 0 as real,
        (e.value)(config.score.sc_target) == 20 as real,
{
    crate::scoring::schedule_is_read(e, config.betas@, 0, 300, 5, k);
    crate::scoring::default_score_is_read(e, config.score);
}

/// The fast setting makes one trial of twenty sweeps at each of a hundred inverse temperatures,
/// from 0.16 upwards in steps of 0.15.
pub proof fn fast_annealing<R: Scalar>(e: Reading<R>, config: TreeSA<R>, k: int)
    requires
        e.exact(),
        call_ensures(TreeSA::<R>::fast, (), config),
        0 <= k < 100,
    ensures
        config.ntrials == 1 && config.niters == 20 && config.betas@.len() == 100,
        config.initializer == Initializer::Greedy,
        config.decomposition_type == DecompositionType::Tree,
        (e.value)(config.betas@[k]) * 100 as real == (16 + 15 * k) as real,
        (e.value)(config.score.tc_weight) == 1 as real,
        (e.value)(config.score.sc_weight) == 1 as real,
        (e.value)(config.score.rw_weight) == 0 as real,
        (e.value)(config.score.sc_target) == 20 as real,
{
    crate::scoring::schedule_is_read(e, config.betas@, 1, 100, 15, k);
    crate::scoring::default_score_is_read(e, config.score);
}

/// The greedy method that is used where none is given weighs the inputs nothing and draws nothing,
/// and so does the one from which trials start.
pub proof fn default_greedy<R: Scalar>(method: GreedyMethod<R>)
    requires
        call_ensures(GreedyMethod::<R>::default, (), method),
    ensures
        method.alpha_numerator == 0 && method.alpha_denominator > 0,
        method.temperature is None,
        method == crate::treesa::plain_greedy::<R>(),
{
}

/// A score function scores what it is called for.
pub proof fn evaluation_is_weighed<R: Scalar>(
    e: Reading<R>,
    f: ScoreFunction<R>,
    c: crate::score::TreeCost<R>,
    r: R,
)
    requires
        e.exact(),
        call_ensures(ScoreFunction::<R>::evaluate, (&f, &c), r),
    ensures
        (e.value)(r) == (e.value)(f.tc_weight) * crate::reading::amount_of(e, c.tc) + (e.value)(
            f.rw_weight,
        ) * crate::reading::amount_of(e, c.rw) + (e.value)(f.sc_weight) * crate::reading::upper(
            0 as real,
            (e.amount)(c.sc) - (e.amount)(f.sc_target),
        ),
{
    crate::scoring::score_is_weighed(e, f, c, r);
}

/// An order is found to be binary if and only if every expression in it takes two arguments.
pub proof fn binary_is_told<L>(n: NestedEinsum<L>, part: Nested<L>, b: bool)
    requires
        call_ensures(NestedEinsum::<L>::is_binary, (&n,), b),
    ensures
        b && crate::counting::stands_in(part, n@) && part is Node ==> part->args.len() == 2,
        (forall|p: Nested<L>| #[trigger]
            crate::counting::stands_in(p, n@) && p is Node ==> p->args.len() == 2) ==> b,
{
    if b && crate::counting::stands_in(part, n@) && part is Node {
        crate::shapes::binary_holds_everywhere(n@, part);
    }
    if forall|p: Nested<L>| #[trigger]
        crate::counting::stands_in(p, n@) && p is Node ==> p->args.len() == 2 {
        crate::shapes::two_arguments_make_binary(n@);
    }
}

/// An order is found to be linear if and only if of any two arguments of any expression in it one
/// is an input tensor.
pub proof fn linear_is_told<L>(n: NestedEinsum<L>, part: Nested<L>, i: int, j: int, b: bool)
    requires
        call_ensures(NestedEinsum::<L>::is_path_decomposition, (&n,), b),
    ensures
        b && crate::counting::stands_in(part, n@) && part is Node && 0 <= i < j < part->args.len()
            ==> part->args[i] is Leaf || part->args[j] is Leaf,
        (forall|p: Nested<L>, x: int, y: int|
            #![trigger crate::counting::stands_in(p, n@), p->args[x], p->args[y]]
            crate::counting::stands_in(p, n@) && p is Node && 0 <= x < y < p->args.len()
                ==> p->args[x] is Leaf || p->args[y] is Leaf) ==> b,
{
    if b && crate::counting::stands_in(part, n@) && part is Node && 0 <= i < j < part->args.len() {
        crate::shapes::linear_holds_everywhere(n@, part, i, j);
    }
    if forall|p: Nested<L>, x: int, y: int|
        #![trigger crate::counting::stands_in(p, n@), p->args[x], p->args[y]]
        crate::counting::stands_in(p, n@) && p is Node && 0 <= x < y < p->args.len()
            ==> p->args[x] is Leaf || p->args[y] is Leaf {
        crate::shapes::single_inner_arguments_make_linear(n@);
    }
}

/// The indices that an order lists are those of the input tensors which stand in it, as many as it
/// counts.
pub proof fn leaves_are_told<L>(n: NestedEinsum<L>, count: usize, indices: Vec<usize>, k: usize)
    requires
        call_ensures(NestedEinsum::<L>::leaf_count, (&n,), count),
        call_ensures(NestedEinsum::<L>::leaf_indices, (&n,), indices),
    ensures
        count == indices@.len(),
        indices@.contains(k) <==> crate::counting::stands_in(
            Nested::Leaf { tensor_index: k },
            n@,
        ),
{
    crate::shapes::leaves_stand_in_order(n@, k);
}

/// What is returned for an optimizer is what its own method returns.
pub proof fn optimizer_is_asked<L: Label, O: crate::CodeOptimizer<L>>(
    code: EinCode<L>,
    size_dict: LabelMap<L>,
    optimizer: O,
    result: Option<NestedEinsum<L>>,
)
    requires
        call_ensures(crate::optimize_code::<L, O>, (&code, &size_dict, &optimizer), result),
    ensures
        call_ensures(O::optimize, (&optimizer, &code, &size_dict), result),
{
}

/// The optimizers of the library return greedy and annealed orders.
pub proof fn optimizers_return_their_orders<L: Label, R: Scalar>(
    greedy: GreedyMethod<R>,
    annealing: TreeSA<R>,
    code: Ein<L>,
    size_dict: Map<L, usize>,
    n: Option<Nested<L>>,
)
    requires
        code.ixs.len() >= 2,
    ensures
        crate::CodeOptimizer::<L>::may_return(&greedy, code, size_dict, n) ==> n is Some
            && crate::greedy::greedy_order(code, size_dict, greedy, n->0) && n->0.is_order_of(code),
        crate::CodeOptimizer::<L>::may_return(&annealing, code, size_dict, n) ==> (n is Some
            <==> annealing.ntrials > 0),
        crate::CodeOptimizer::<L>::may_return(&annealing, code, size_dict, n) && n is Some
            ==> crate::treesa::treesa_order(code, size_dict, annealing, n->0)
            && n->0.is_order_of(code),
{
}

/// Each setter changes the field that it names, and no other.
pub proof fn setters_change_one_field<R: Scalar>(
    config: TreeSA<R>,
    sc_target: R,
    ntrials: usize,
    niters: usize,
    betas: Vec<R>,
    a: TreeSA<R>,
    b: TreeSA<R>,
    c: TreeSA<R>,
    d: TreeSA<R>,
)
    requires
        call_ensures(TreeSA::<R>::with_sc_target, (config, sc_target), a),
        call_ensures(TreeSA::<R>::with_ntrials, (config, ntrials), b),
        call_ensures(TreeSA::<R>::with_niters, (config, niters), c),
        call_ensures(TreeSA::<R>::with_betas, (config, betas), d),
    ensures
        a.score.sc_target == sc_target && a.score.tc_weight == config.score.tc_weight
            && a.score.sc_weight == config.score.sc_weight && a.score.rw_weight
            == config.score.rw_weight,
        a == (TreeSA { score: a.score, ..config }),
        b.ntrials == ntrials && b == (TreeSA { ntrials: b.ntrials, ..config }),
        c.niters == niters && c == (TreeSA { niters: c.niters, ..config }),
        d.betas == betas && d == (TreeSA { betas: d.betas, ..config }),
{
}

/// Without tensors there is no greedy order, and the only tensor is its own order.
pub proof fn greedy_without_choice<L: Label, R: Scalar>(
    code: EinCode<L>,
    size_dict: LabelMap<L>,
    method: GreedyMethod<R>,
    result: Option<NestedEinsum<L>>,
)
    requires
        call_ensures(optimize_greedy::<L, R>, (&code, &size_dict, &method), result),
    ensures
        code@.ixs.len() == 0 ==> result is None,
        code@.ixs.len() == 1 ==> result is Some && result->0@ == (Nested::<L>::Leaf {
            tensor_index: 0,
        }),
{
}

/// A uniform dictionary has one size for each label of a tensor or of the output, and for no other.
pub proof fn uniform_sizes_are_uniform<L: Label>(
    code: EinCode<L>,
    size: usize,
    size_dict: LabelMap<L>,
    l: L,
)
    requires
        call_ensures(crate::complexity::uniform_size_dict::<L>, (&code, size), size_dict),
    ensures
        size_dict@.dom().contains(l) <==> code@.iy.contains(l) || exists|i: int|
            0 <= i < code@.ixs.len() && (#[trigger] code@.ixs[i]).contains(l),
        size_dict@.dom().contains(l) ==> size_dict@[l] == size,
{
    let flat = crate::eincode::concat(code@.ixs);
    crate::eincode::lemma_distinct(flat + code@.iy);
    crate::plan::lemma_concat_contains(flat, code@.iy, l);
    crate::eincode::lemma_concat(code@.ixs, l);
    assert(code@.labels().contains(l) <==> (flat + code@.iy).contains(l));
}

/// The labels of an expression are those of its tensors and of its output, each once.
pub proof fn labels_are_listed_once<L: Label>(code: EinCode<L>, labels: Vec<L>, l: L)
    requires
        call_ensures(EinCode::<L>::unique_labels, (&code,), labels),
    ensures
        labels@.no_duplicates(),
        labels@.contains(l) <==> code@.iy.contains(l) || exists|i: int|
            0 <= i < code@.ixs.len() && (#[trigger] code@.ixs[i]).contains(l),
{
    let flat = crate::eincode::concat(code@.ixs);
    crate::eincode::lemma_distinct(flat + code@.iy);
    crate::plan::lemma_concat_contains(flat, code@.iy, l);
    crate::eincode::lemma_concat(code@.ixs, l);
    assert(code@.labels().contains(l) <==> (flat + code@.iy).contains(l));
}

/// A greedy method at a temperature weighs the inputs nothing, and one with a weight has no
/// temperature.
pub proof fn greedy_methods_are_made<R: Scalar>(
    temperature: R,
    numerator: usize,
    denominator: usize,
    a: GreedyMethod<R>,
    b: GreedyMethod<R>,
)
    requires
        call_ensures(GreedyMethod::<R>::stochastic, (temperature,), a),
        call_ensures(GreedyMethod::<R>::with_alpha, (numerator, denominator), b),
    ensures
        a.alpha_numerator == 0 && a.alpha_denominator > 0 && a.temperature == Some(temperature),
        b.alpha_numerator == numerator && b.alpha_denominator == denominator,
        b.temperature is None,
{
}

/// Mending a mask leaves it as it is where it has both truth values, and otherwise turns over the
/// place that is named and no other.
pub proof fn mending_turns_over_one(mask: Vec<bool>, k: usize, mended: Vec<bool>, j: int)
    requires
        call_ensures(crate::init::mend_mask, (mask, k), mended),
        k < mask.len(),
        0 <= j < mask.len(),
    ensures
        mended.len() == mask.len(),
        mended@[j] == mask@[j] || j == k,
        mask@.contains(true) && mask@.contains(false) <==> mended@[k as int] == mask@[k as int],
{
}

} // verus!
