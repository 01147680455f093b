//! Binary contraction trees over integer labels, and the local rewrites of them.

use std::mem::swap;
use vstd::prelude::*;

verus! {

/// The labels a node hands up and, at a leaf, the input tensor it stands for.
#[derive(Debug, PartialEq, Eq)]
pub struct ExprInfo {
    /// Labels of the tensor that the node yields.
    pub out_dims: Vec<usize>,
    /// Index of the input tensor, at a leaf.
    pub tensor_id: Option<usize>,
}

/// A contraction tree: leaves are input tensors, inner nodes are pairwise contractions.
#[derive(Debug, PartialEq, Eq)]
pub enum ExprTree {
    /// An input tensor.
    Leaf(ExprInfo),
    /// The contraction of two subtrees.
    Node { left: Box<ExprTree>, right: Box<ExprTree>, info: ExprInfo },
}

/// The shapes of tree that an optimizer may search.
#[derive(Debug, Clone, Copy, PartialEq, Eq, Structural)]
pub enum DecompositionType {
    /// Any binary tree.
    Tree,
    /// A linear order: one input tensor is contracted in at a time.
    Path,
}

impl Default for DecompositionType {
    fn default() -> (d: Self)
        ensures
            d == DecompositionType::Tree,
    {
        DecompositionType::Tree
    }
}

/// A local rewrite at a node of a contraction tree.
#[derive(Debug, Clone, Copy, PartialEq, Eq, Structural)]
pub enum Rule {
    /// `((a, b), c)` becomes `((a, c), b)`.
    Rule1,
    /// `((a, b), c)` becomes `((c, b), a)`.
    Rule2,
    /// `(a, (b, c))` becomes `(b, (a, c))`.
    Rule3,
    /// `(a, (b, c))` becomes `(c, (b, a))`.
    Rule4,
    /// `(a, b)` becomes `(b, a)`.
    Rule5,
}

/// What an [`ExprInfo`] holds.
#[verifier::ext_equal]
pub struct Info {
    pub dims: Seq<usize>,
    pub id: Option<usize>,
}

/// What an [`ExprTree`] holds.
#[verifier::ext_equal]
pub enum Tree {
    Leaf(Info),
    Node { left: Box<Tree>, right: Box<Tree>, info: Info },
}

impl View for ExprInfo {
    type V = Info;

    open spec fn view(&self) -> Info {
        Info { dims: self.out_dims@, id: self.tensor_id }
    }
}

impl ExprTree {
    /// The tree, with its vectors read as sequences.
    pub open spec fn model(&self) -> Tree
        decreases self,
    {
        match self {
            ExprTree::Leaf(info) => Tree::Leaf(info@),
            ExprTree::Node { left, right, info } => Tree::Node {
                left: Box::new(left.model()),
                right: Box::new(right.model()),
                info: info@,
            },
        }
    }
}

impl View for ExprTree {
    type V = Tree;

    open spec fn view(&self) -> Tree {
        self.model()
    }
}

impl Tree {
    /// The tree that contracts `left` with `right` and keeps the labels `dims`.
    pub open spec fn join(left: Tree, right: Tree, dims: Seq<usize>) -> Tree {
        Tree::Node { left: Box::new(left), right: Box::new(right), info: Info { dims, id: None } }
    }

    /// The labels and tensor index at the root.
    pub open spec fn info(self) -> Info {
        match self {
            Tree::Leaf(info) => info,
            Tree::Node { info, .. } => info,
        }
    }

    /// The labels that the root hands up.
    pub open spec fn dims(self) -> Seq<usize> {
        self.info().dims
    }

    /// How many leaves the tree has.
    pub open spec fn leaf_count(self) -> nat
        decreases self,
    {
        match self {
            Tree::Leaf(_) => 1,
            Tree::Node { left, right, .. } => left.leaf_count() + right.leaf_count(),
        }
    }

    /// The leaves from left to right.
    pub open spec fn leaves(self) -> Seq<Info>
        decreases self,
    {
        match self {
            Tree::Leaf(info) => seq![info],
            Tree::Node { left, right, .. } => left.leaves() + right.leaves(),
        }
    }

    /// Whether some leaf of the tree carries the label `l`.
    pub open spec fn occurs(self, l: usize) -> bool
        decreases self,
    {
        match self {
            Tree::Leaf(info) => info.dims.contains(l),
            Tree::Node { left, right, .. } => left.occurs(l) || right.occurs(l),
        }
    }

    /// Whether every right child is a leaf.
    pub open spec fn left_deep(self) -> bool
        decreases self,
    {
        match self {
            Tree::Leaf(_) => true,
            Tree::Node { left, right, .. } => *right is Leaf && left.left_deep(),
        }
    }
}

impl ExprTree {
    /// A leaf for the input tensor `tensor_id`, whose labels are `out_dims`.
    pub fn leaf(out_dims: Vec<usize>, tensor_id: usize) -> (tree: Self)
        ensures
            tree@ == Tree::Leaf(Info { dims: out_dims@, id: Some(tensor_id) }),
    {
        ExprTree::Leaf(ExprInfo { out_dims, tensor_id: Some(tensor_id) })
    }

    /// The contraction of `left` with `right`, which keeps the labels `out_dims`.
    pub fn node(left: ExprTree, right: ExprTree, out_dims: Vec<usize>) -> (tree: Self)
        ensures
            tree@ == Tree::join(left@, right@, out_dims@),
    {
        ExprTree::Node {
            left: Box::new(left),
            right: Box::new(right),
            info: ExprInfo { out_dims, tensor_id: None },
        }
    }

    /// Whether the tree is a single leaf.
    pub fn is_leaf(&self) -> (b: bool)
        ensures
            b == (self@ is Leaf),
    {
        match self {
            ExprTree::Leaf(_) => true,
            ExprTree::Node { .. } => false,
        }
    }

    /// The labels that the root hands up.
    pub fn labels(&self) -> (labels: &Vec<usize>)
        ensures
            labels@ == self@.dims(),
    {
        match self {
            ExprTree::Leaf(info) => &info.out_dims,
            ExprTree::Node { info, .. } => &info.out_dims,
        }
    }

    /// How many leaves the tree has.
    pub fn leaf_count(&self) -> (count: usize)
        requires
            self@.leaf_count() <= usize::MAX,
        ensures
            count == self@.leaf_count(),
        decreases self,
    {
        match self {
            ExprTree::Leaf(_) => 1,
            ExprTree::Node { left, right, .. } => left.leaf_count() + right.leaf_count(),
        }
    }
}

impl Clone for ExprInfo {
    fn clone(&self) -> (copy: Self)
        ensures
            copy@ == self@,
    {
        ExprInfo { out_dims: copy_dims(&self.out_dims), tensor_id: self.tensor_id }
    }
}

impl Clone for ExprTree {
    fn clone(&self) -> (copy: Self)
        ensures
            copy@ == self@,
        decreases self,
    {
        match self {
            ExprTree::Leaf(info) => ExprTree::Leaf(info.clone()),
            ExprTree::Node { left, right, info } => ExprTree::Node {
                left: Box::new((&**left).clone()),
                right: Box::new((&**right).clone()),
                info: info.clone(),
            },
        }
    }
}

/// Another copy of a list of labels.
pub fn copy_dims(dims: &Vec<usize>) -> (copy: Vec<usize>)
    ensures
        copy@ == dims@,
{
    let copy = dims.clone();
    assert(copy@ =~= dims@);
    copy
}

/// Whether `dims` lists the label `l`.
pub fn has_label(dims: &Vec<usize>, l: usize) -> (b: bool)
    ensures
        b == dims@.contains(l),
{
    let mut k: usize = 0;
    while k < dims.len()
        invariant
            k <= dims.len(),
            forall|j: int| 0 <= j < k ==> dims[j] != l,
        decreases dims.len() - k,
    {
        if dims[k] == l {
            return true;
        }
        k = k + 1;
    }
    false
}

/// The labels of `labels`, each once and in order, that `a` or `b` lists.
pub open spec fn needed(labels: Seq<usize>, a: Seq<usize>, b: Seq<usize>) -> Seq<usize>
    decreases labels.len(),
{
    if labels.len() == 0 {
        Seq::empty()
    } else {
        let before = needed(labels.drop_last(), a, b);
        let l = labels.last();
        if before.contains(l) || !(a.contains(l) || b.contains(l)) {
            before
        } else {
            before.push(l)
        }
    }
}

/// `needed` lists what it says, and nothing twice.
pub proof fn lemma_needed(labels: Seq<usize>, a: Seq<usize>, b: Seq<usize>)
    ensures
        forall|l: usize|
            #![trigger needed(labels, a, b).contains(l)]
            needed(labels, a, b).contains(l) <==> labels.contains(l) && (a.contains(l)
                || b.contains(l)),
        needed(labels, a, b).no_duplicates(),
    decreases labels.len(),
{
    if labels.len() > 0 {
        let rest = labels.drop_last();
        let before = needed(rest, a, b);
        let last = labels.last();
        lemma_needed(rest, a, b);
        assert forall|l: usize| #[trigger]
            needed(labels, a, b).contains(l) <==> labels.contains(l) && (a.contains(l)
                || b.contains(l)) by {
            lemma_push_contains(rest, last, l);
            lemma_push_contains(before, last, l);
            assert(labels =~= rest.push(last));
        }
    }
}

/// What a sequence holds after a push.
pub proof fn lemma_push_contains<T>(s: Seq<T>, last: T, x: T)
    ensures
        s.push(last).contains(x) <==> s.contains(x) || x == last,
{
    if s.contains(x) {
        let k = s.index_of(x);
        assert(s.push(last)[k] == x);
    }
    if x == last {
        assert(s.push(last)[s.len() as int] == x);
    }
}

/// Adds to `kept` the labels of `labels` that `a` or `b` lists and `kept` does not yet.
fn push_needed(
    kept: &mut Vec<usize>,
    labels: &Vec<usize>,
    a: &Vec<usize>,
    b: &Vec<usize>,
    Ghost(before): Ghost<Seq<usize>>,
)
    requires
        old(kept)@ == needed(before, a@, b@),
    ensures
        final(kept)@ == needed(before + labels@, a@, b@),
{
    let mut k: usize = 0;
    assert(before + labels@.take(0) =~= before);
    while k < labels.len()
        invariant
            k <= labels.len(),
            kept@ == needed(before + labels@.take(k as int), a@, b@),
        decreases labels.len() - k,
    {
        let l: usize = labels[k];
        if !has_label(kept, l) && (has_label(a, l) || has_label(b, l)) {
            kept.push(l);
        }
        assert((before + labels@.take(k + 1)).drop_last() =~= before + labels@.take(k as int));
        k = k + 1;
    }
    assert(labels@.take(k as int) =~= labels@);
}

/// The labels of `x` and `y`, each once and in order, that `a` or `b` lists.
pub fn needed_labels(x: &Vec<usize>, y: &Vec<usize>, a: &Vec<usize>, b: &Vec<usize>) -> (kept:
    Vec<usize>)
    ensures
        kept@ == needed(x@ + y@, a@, b@),
{
    let mut kept: Vec<usize> = Vec::new();
    push_needed(&mut kept, x, a, b, Ghost(Seq::empty()));
    assert(Seq::<usize>::empty() + x@ =~= x@);
    push_needed(&mut kept, y, a, b, Ghost(x@));
    kept
}

impl Tree {
    /// The rules that an optimizer may try at the root of the tree, in order.
    pub open spec fn applicable(self, decomp: DecompositionType) -> Seq<Rule> {
        match self {
            Tree::Leaf(_) => seq![],
            Tree::Node { left, right, .. } => match decomp {
                DecompositionType::Tree => (if *left is Node {
                    seq![Rule::Rule1, Rule::Rule2]
                } else {
                    seq![]
                }) + (if *right is Node {
                    seq![Rule::Rule3, Rule::Rule4]
                } else {
                    seq![]
                }),
                DecompositionType::Path => if *left is Node {
                    seq![Rule::Rule1]
                } else if *right is Leaf {
                    seq![Rule::Rule5]
                } else {
                    seq![]
                },
            },
        }
    }

    /// Whether the root of the tree has the shape that `rule` rewrites.
    pub open spec fn fits(self, rule: Rule) -> bool {
        &&& self is Node
        &&& match rule {
            Rule::Rule1 | Rule::Rule2 => *self->left is Node,
            Rule::Rule3 | Rule::Rule4 => *self->right is Node,
            Rule::Rule5 => true,
        }
    }

    /// What `rule` makes of the tree, with the labels `dims` at the inner node that it forms.
    pub open spec fn rewritten(self, rule: Rule, dims: Seq<usize>) -> Tree {
        if !self.fits(rule) {
            self
        } else {
            let l = *self->left;
            let r = *self->right;
            let (left, right) = match rule {
                Rule::Rule1 => (Tree::join(*l->left, r, dims), *l->right),
                Rule::Rule2 => (Tree::join(r, *l->right, dims), *l->left),
                Rule::Rule3 => (*r->left, Tree::join(l, *r->right, dims)),
                Rule::Rule4 => (*r->right, Tree::join(*r->left, l, dims)),
                Rule::Rule5 => (r, l),
            };
            Tree::Node { left: Box::new(left), right: Box::new(right), info: self.info() }
        }
    }

    /// The labels of the inner node that `rule` forms at the root of the tree: those of the two
    /// subtrees under it that the third subtree or the root still needs.
    pub open spec fn inner_dims(self, rule: Rule) -> Seq<usize>
        recommends
            self.fits(rule),
    {
        let l = *self->left;
        let r = *self->right;
        let d = self.dims();
        match rule {
            Rule::Rule1 => needed(l->left.dims() + r.dims(), l->right.dims(), d),
            Rule::Rule2 => needed(r.dims() + l->right.dims(), l->left.dims(), d),
            Rule::Rule3 => needed(l.dims() + r->right.dims(), r->left.dims(), d),
            Rule::Rule4 => needed(r->left.dims() + l.dims(), r->right.dims(), d),
            Rule::Rule5 => d,
        }
    }

    /// What `rule` makes of the tree.
    pub open spec fn applied(self, rule: Rule) -> Tree {
        self.rewritten(rule, self.inner_dims(rule))
    }
}

impl Rule {
    /// The rules that an optimizer may try at the root of `tree`, in order.
    pub fn applicable_rules(tree: &ExprTree, decomp: DecompositionType) -> (rules: Vec<Rule>)
        ensures
            rules@ == tree@.applicable(decomp),
    {
        let mut rules: Vec<Rule> = Vec::new();
        if let ExprTree::Node { left, right, .. } = tree {
            match decomp {
                DecompositionType::Tree => {
                    if !left.is_leaf() {
                        rules.push(Rule::Rule1);
                        rules.push(Rule::Rule2);
                    }
                    if !right.is_leaf() {
                        rules.push(Rule::Rule3);
                        rules.push(Rule::Rule4);
                    }
                },
                DecompositionType::Path => {
                    if !left.is_leaf() {
                        rules.push(Rule::Rule1);
                    } else if right.is_leaf() {
                        rules.push(Rule::Rule5);
                    }
                },
            }
        }
        assert(rules@ =~= tree@.applicable(decomp));
        rules
    }
}

/// The labels of the inner node that `rule` forms at the root of `tree`, or nothing where the
/// rule does not fit.
pub fn rule_labels(tree: &ExprTree, rule: Rule) -> (labels: Option<Vec<usize>>)
    ensures
        labels is Some <==> tree@.fits(rule),
        labels matches Some(dims) ==> dims@ == tree@.inner_dims(rule),
{
    proof {
        reveal_with_fuel(ExprTree::model, 3);
    }
    if let ExprTree::Node { left, right, info } = tree {
        let d = &info.out_dims;
        match rule {
            Rule::Rule1 => match &**left {
                ExprTree::Node { left: a, right: b, .. } => Some(
                    needed_labels(a.labels(), right.labels(), b.labels(), d),
                ),
                ExprTree::Leaf(_) => None,
            },
            Rule::Rule2 => match &**left {
                ExprTree::Node { left: a, right: b, .. } => Some(
                    needed_labels(right.labels(), b.labels(), a.labels(), d),
                ),
                ExprTree::Leaf(_) => None,
            },
            Rule::Rule3 => match &**right {
                ExprTree::Node { left: b, right: c, .. } => Some(
                    needed_labels(left.labels(), c.labels(), b.labels(), d),
                ),
                ExprTree::Leaf(_) => None,
            },
            Rule::Rule4 => match &**right {
                ExprTree::Node { left: b, right: c, .. } => Some(
                    needed_labels(b.labels(), left.labels(), c.labels(), d),
                ),
                ExprTree::Leaf(_) => None,
            },
            Rule::Rule5 => Some(copy_dims(d)),
        }
    } else {
        None
    }
}

/// `tree` rewritten by `rule`, with the labels `new_labels` at the inner node that it forms.
fn apply_rule(tree: ExprTree, rule: Rule, new_labels: Vec<usize>) -> (result: ExprTree)
    ensures
        result@ == tree@.rewritten(rule, new_labels@),
{
    proof {
        reveal_with_fuel(ExprTree::model, 3);
    }
    match tree {
        ExprTree::Leaf(_) => tree,
        ExprTree::Node { left, right, info } => match rule {
            Rule::Rule1 => match *left {
                ExprTree::Node { left: a, right: b, .. } => ExprTree::Node {
                    left: Box::new(ExprTree::node(*a, *right, new_labels)),
                    right: b,
                    info,
                },
                ExprTree::Leaf(_) => ExprTree::Node { left, right, info },
            },
            Rule::Rule2 => match *left {
                ExprTree::Node { left: a, right: b, .. } => ExprTree::Node {
                    left: Box::new(ExprTree::node(*right, *b, new_labels)),
                    right: a,
                    info,
                },
                ExprTree::Leaf(_) => ExprTree::Node { left, right, info },
            },
            Rule::Rule3 => match *right {
                ExprTree::Node { left: b, right: c, .. } => ExprTree::Node {
                    left: b,
                    right: Box::new(ExprTree::node(*left, *c, new_labels)),
                    info,
                },
                ExprTree::Leaf(_) => ExprTree::Node { left, right, info },
            },
            Rule::Rule4 => match *right {
                ExprTree::Node { left: b, right: c, .. } => ExprTree::Node {
                    left: c,
                    right: Box::new(ExprTree::node(*b, *left, new_labels)),
                    info,
                },
                ExprTree::Leaf(_) => ExprTree::Node { left, right, info },
            },
            Rule::Rule5 => ExprTree::Node { left: right, right: left, info },
        },
    }
}

/// Rewrites `tree` in place by `rule`, with the labels `new_labels` at the inner node that it
/// forms. Where the rule does not fit, the tree stays as it is.
pub fn apply_rule_mut(tree: &mut ExprTree, rule: Rule, new_labels: Vec<usize>)
    ensures
        final(tree)@ == old(tree)@.rewritten(rule, new_labels@),
{
    let mut taken = ExprTree::Leaf(ExprInfo { out_dims: Vec::new(), tensor_id: None });
    swap(tree, &mut taken);
    *tree = apply_rule(taken, rule, new_labels);
}

} // verus!
