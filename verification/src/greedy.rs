//! Building a contraction tree by always contracting the pair of tensors with the lowest loss.

use crate::convert::{expr_tree_to_nested, map_labels};
use crate::count::Count;
use crate::eincode::{Ein, EinCode, Nested, NestedEinsum};
use crate::expr_tree::{ExprTree, Info, Tree};
use crate::label::Label;
use crate::label_map::LabelMap;
use crate::network::Network;
use crate::pairs::Gauge;
use crate::scalar::Scalar;
use rand::rngs::SmallRng;
use vstd::multiset::Multiset;
use vstd::prelude::*;

verus! {

/// The places, in rising order, of up to three of the tensors that hand up one label.
pub open spec fn holds(places: Seq<usize>, s: Seq<Tree>, l: usize) -> bool {
    &&& places.len() <= 3
    &&& forall|j: int|
        0 <= j < places.len() ==> (#[trigger] places[j]) < s.len()
            && s[places[j] as int].dims().contains(l)
    &&& forall|i: int, j: int| 0 <= i < j < places.len() ==> places[i] < places[j]
    &&& places.len() < 3 ==> forall|r: int|
        0 <= r < s.len() && (#[trigger] s[r]).dims().contains(l) ==> places.contains(r as usize)
}

/// The trees, read as models.
pub open spec fn models(trees: Seq<ExprTree>) -> Seq<Tree> {
    trees.map_values(|t: ExprTree| t@)
}

/// Whether the trees hand up only labels below `n`.
pub open spec fn all_below(s: Seq<Tree>, n: nat) -> bool {
    forall|k: int| 0 <= k < s.len() ==> crate::energy::below((#[trigger] s[k]).dims(), n)
}

/// For each label the places of up to three of the tensors that hand it up.
fn holders(trees: &Vec<ExprTree>, nedge: usize) -> (places: Vec<Vec<usize>>)
    requires
        all_below(models(trees@), nedge as nat),
    ensures
        places.len() == nedge,
        forall|l: int|
            0 <= l < nedge ==> holds((#[trigger] places[l])@, models(trees@), l as usize),
{
    let ghost s = models(trees@);
    let mut places: Vec<Vec<usize>> = Vec::new();
    let mut l: usize = 0;
    while l < nedge
        invariant
            l <= nedge,
            places.len() == l,
            forall|j: int| 0 <= j < l ==> (#[trigger] places[j])@.len() == 0,
        decreases nedge - l,
    {
        places.push(Vec::new());
        l = l + 1;
    }
    let mut r: usize = 0;
    assert(s.take(0) =~= Seq::empty());
    while r < trees.len()
        invariant
            r <= trees.len(),
            s == models(trees@),
            all_below(s, nedge as nat),
            places.len() == nedge,
            forall|l: int|
                0 <= l < nedge ==> holds((#[trigger] places[l])@, s.take(r as int), l as usize),
        decreases trees.len() - r,
    {
        let dims: &Vec<usize> = trees[r].labels();
        let ghost known = s.take(r as int);
        let ghost next = s.take(r + 1);
        assert(dims@ == s[r as int].dims());
        assert(next =~= known.push(s[r as int]));
        let mut k: usize = 0;
        while k < dims.len()
            invariant
                k <= dims.len(),
                r < s.len(),
                s.len() == trees.len(),
                dims@ == s[r as int].dims(),
                crate::energy::below(dims@, nedge as nat),
                known == s.take(r as int),
                next == s.take(r + 1),
                places.len() == nedge,
                forall|l: int|
                    0 <= l < nedge ==> if dims@.take(k as int).contains(l as usize) {
                        holds((#[trigger] places[l])@, next, l as usize)
                    } else {
                        holds(places[l]@, known, l as usize)
                    },
            decreases dims.len() - k,
        {
            let l: usize = dims[k];
            let ghost before = places@;
            let ghost seen = dims@.take(k as int);
            let ghost more = dims@.take(k + 1);
            assert(more =~= seen.push(l));
            let n: usize = places[l].len();
            let fresh: bool = n < 3 && (n == 0 || places[l][n - 1] != r);
            if fresh {
                places[l].push(r);
            }
            proof {
                assert(dims@[k as int] == l);
                assert(s[r as int].dims().contains(l));
                lemma_holds_next(before[l as int]@, s, r as int, l, seen.contains(l), fresh);
                assert forall|j: int| 0 <= j < nedge implies if more.contains(j as usize) {
                    holds((#[trigger] places[j])@, next, j as usize)
                } else {
                    holds(places[j]@, known, j as usize)
                } by {
                    crate::expr_tree::lemma_push_contains(seen, l, j as usize);
                    if j == l {
                        if fresh {
                            assert(places[j]@ == before[l as int]@.push(r));
                        } else {
                            assert(places[j]@ == before[l as int]@);
                        }
                    } else {
                        assert(places[j] == before[j]);
                    }
                }
            }
            k = k + 1;
        }
        proof {
            assert(dims@.take(k as int) =~= dims@);
            assert forall|l: int| 0 <= l < nedge implies holds(
                (#[trigger] places[l])@,
                next,
                l as usize,
            ) by {
                if !dims@.contains(l as usize) {
                    lemma_holds_on(places[l]@, s, r as int, l as usize);
                }
            }
        }
        r = r + 1;
    }
    assert(s.take(r as int) =~= s);
    places
}

/// What is known of a label that the next tensor does not hand up.
proof fn lemma_holds_on(places: Seq<usize>, s: Seq<Tree>, r: int, l: usize)
    requires
        0 <= r < s.len(),
        holds(places, s.take(r), l),
        !s[r].dims().contains(l),
    ensures
        holds(places, s.take(r + 1), l),
{
    let known = s.take(r);
    let next = s.take(r + 1);
    assert forall|j: int| 0 <= j < places.len() implies (#[trigger] places[j]) < next.len()
        && next[places[j] as int].dims().contains(l) by {
        assert(known[places[j] as int].dims().contains(l));
    }
    if places.len() < 3 {
        assert forall|i: int| 0 <= i < next.len() && (#[trigger] next[i]).dims().contains(
            l,
        ) implies places.contains(i as usize) by {
            assert(known[i].dims().contains(l));
        }
    }
}

/// What is known of a label that the next tensor hands up.
proof fn lemma_holds_next(
    places: Seq<usize>,
    s: Seq<Tree>,
    r: int,
    l: usize,
    seen: bool,
    fresh: bool,
)
    requires
        0 <= r < s.len() <= usize::MAX,
        if seen {
            holds(places, s.take(r + 1), l)
        } else {
            holds(places, s.take(r), l)
        },
        s[r].dims().contains(l),
        fresh == (places.len() < 3 && (places.len() == 0 || places.last() != r)),
    ensures
        holds(
            if fresh {
                places.push(r as usize)
            } else {
                places
            },
            s.take(r + 1),
            l,
        ),
{
    let known = s.take(r);
    let next = s.take(r + 1);
    let more = if fresh {
        places.push(r as usize)
    } else {
        places
    };
    if seen && fresh {
        assert(next[r].dims().contains(l));
        let j = places.index_of(r as usize);
        assert(places[j] == r);
        assert(places.last() == places[places.len() - 1]);
        assert(places.last() < next.len());
        assert(false);
    }
    if !seen {
        assert forall|j: int| 0 <= j < more.len() implies (#[trigger] more[j]) < next.len()
            && next[more[j] as int].dims().contains(l) by {
            if j < places.len() {
                assert(known[places[j] as int].dims().contains(l));
            }
        }
        assert forall|i: int, j: int| 0 <= i < j < more.len() implies more[i] < more[j] by {
            assert(places[i] < known.len());
        }
        if places.len() > 0 {
            assert(places[places.len() - 1] < known.len());
        }
        if more.len() < 3 {
            assert forall|i: int| 0 <= i < next.len() && (#[trigger] next[i]).dims().contains(
                l,
            ) implies more.contains(i as usize) by {
                crate::expr_tree::lemma_push_contains(places, r as usize, i as usize);
                if i < r {
                    assert(known[i].dims().contains(l));
                }
            }
        }
    }
}

/// Whether a tensor other than those at `p` and `q` hands up `l`, whose places are `places`.
fn needed_elsewhere(
    places: &Vec<usize>,
    Ghost(s): Ghost<Seq<Tree>>,
    p: usize,
    q: usize,
    l: usize,
) -> (b: bool)
    requires
        holds(places@, s, l),
        s.len() <= usize::MAX,
    ensures
        b == crate::pairs::elsewhere(s, p as int, q as int, l),
{
    let mut j: usize = 0;
    while j < places.len()
        invariant
            j <= places.len(),
            holds(places@, s, l),
            forall|i: int| 0 <= i < j ==> places[i] == p || places[i] == q,
        decreases places.len() - j,
    {
        let r: usize = places[j];
        if r != p && r != q {
            assert(s[r as int].dims().contains(l));
            return true;
        }
        j = j + 1;
    }
    proof {
        if crate::pairs::elsewhere(s, p as int, q as int, l) {
            let r = choose|r: int|
                0 <= r < s.len() && r != p && r != q && (#[trigger] s[r]).dims().contains(l);
            if places.len() < 3 {
                assert(places@.contains(r as usize));
            } else {
                assert(places[0] < places[1] && places[1] < places[2]);
            }
        }
    }
    false
}

/// Adds to `labels` what the contraction of the tensors at `p` and `q` keeps of `dims`.
fn push_kept(
    labels: &mut Vec<usize>,
    dims: &Vec<usize>,
    places: &Vec<Vec<usize>>,
    Ghost(s): Ghost<Seq<Tree>>,
    p: usize,
    q: usize,
    iy: &Vec<usize>,
    Ghost(before): Ghost<Seq<usize>>,
)
    requires
        s.len() <= usize::MAX,
        crate::energy::below(dims@, places.len() as nat),
        forall|l: int| 0 <= l < places.len() ==> holds((#[trigger] places[l])@, s, l as usize),
        old(labels)@ == crate::pairs::kept_of(before, s, p as int, q as int, iy@),
    ensures
        final(labels)@ == crate::pairs::kept_of(before + dims@, s, p as int, q as int, iy@),
{
    let mut k: usize = 0;
    assert(before + dims@.take(0) =~= before);
    while k < dims.len()
        invariant
            k <= dims.len(),
            s.len() <= usize::MAX,
            crate::energy::below(dims@, places.len() as nat),
            forall|l: int| 0 <= l < places.len() ==> holds((#[trigger] places[l])@, s, l as usize),
            labels@ == crate::pairs::kept_of(
                before + dims@.take(k as int),
                s,
                p as int,
                q as int,
                iy@,
            ),
        decreases dims.len() - k,
    {
        let l: usize = dims[k];
        let ghost done = before + dims@.take(k as int);
        assert((before + dims@.take(k + 1)).drop_last() =~= done);
        assert(holds(places[l as int]@, s, l));
        if !crate::expr_tree::has_label(labels, l) && (crate::expr_tree::has_label(iy, l)
            || needed_elsewhere(&places[l], Ghost(s), p, q, l)) {
            labels.push(l);
        }
        k = k + 1;
    }
    assert(dims@.take(k as int) =~= dims@);
}

/// The labels that the contraction of the tensors at `p` and `q` hands up.
fn kept_labels(
    trees: &Vec<ExprTree>,
    places: &Vec<Vec<usize>>,
    p: usize,
    q: usize,
    iy: &Vec<usize>,
) -> (labels: Vec<usize>)
    requires
        p < trees.len(),
        q < trees.len(),
        all_below(models(trees@), places.len() as nat),
        forall|l: int|
            0 <= l < places.len() ==> holds((#[trigger] places[l])@, models(trees@), l as usize),
    ensures
        labels@ == crate::pairs::kept(models(trees@), p as int, q as int, iy@),
{
    let ghost s = models(trees@);
    let mut labels: Vec<usize> = Vec::new();
    let ghost x = s[p as int].dims();
    let ghost y = s[q as int].dims();
    assert(x == trees[p as int]@.dims() && y == trees[q as int]@.dims());
    push_kept(&mut labels, trees[p].labels(), places, Ghost(s), p, q, iy, Ghost(Seq::empty()));
    assert(Seq::<usize>::empty() + x =~= x);
    push_kept(&mut labels, trees[q].labels(), places, Ghost(s), p, q, iy, Ghost(x));
    labels
}

/// How many entries a tensor with the labels `dims` has.
fn int_size(dims: &Vec<usize>, sizes: &Vec<usize>) -> (size: Count)
    requires
        crate::energy::below(dims@, sizes.len() as nat),
    ensures
        size@ == crate::pairs::int_volume(dims@, sizes@),
{
    let mut size: Count = Count::one();
    let mut k: usize = 0;
    while k < dims.len()
        invariant
            k <= dims.len(),
            crate::energy::below(dims@, sizes.len() as nat),
            size@ == crate::pairs::int_volume(dims@.take(k as int), sizes@),
        decreases dims.len() - k,
    {
        size = size.times(sizes[dims[k]]);
        assert(dims@.take(k + 1).drop_last() =~= dims@.take(k as int));
        k = k + 1;
    }
    assert(dims@.take(k as int) =~= dims@);
    size
}

/// A loss, as what it costs and what comes off that.
struct Loss {
    cost: Count,
    relief: Count,
}

impl Loss {
    /// Whether this is the loss of contracting the tensors at `p` and `q`.
    spec fn is_of(self, g: Gauge, s: Seq<Tree>, p: int, q: int) -> bool {
        self.cost@ == g.cost(s, p, q) && self.relief@ == g.relief(s, p, q)
    }

    /// Whether this loss is below `other`.
    fn less(&self, other: &Loss) -> (b: bool)
        ensures
            b == (self.cost@ - self.relief@ < other.cost@ - other.relief@),
    {
        if self.relief.is_zero() && other.relief.is_zero() {
            self.cost.less(&other.cost)
        } else {
            self.cost.plus(&other.relief).less(&other.cost.plus(&self.relief))
        }
    }
}

/// A label that a contraction keeps is one of the two tensors.
proof fn lemma_kept_below(s: Seq<Tree>, p: int, q: int, iy: Seq<usize>, n: nat)
    requires
        0 <= p < s.len(),
        0 <= q < s.len(),
        all_below(s, n),
    ensures
        crate::energy::below(crate::pairs::kept(s, p, q, iy), n),
{
    let labels = crate::pairs::kept(s, p, q, iy);
    assert forall|k: int| 0 <= k < labels.len() implies (#[trigger] labels[k]) < n by {
        let l = labels[k];
        assert(labels.contains(l));
        crate::pairs::lemma_kept(s, p, q, iy, l);
        if s[p].dims().contains(l) {
            let j = s[p].dims().index_of(l);
            assert(s[p].dims()[j] == l);
        } else {
            let j = s[q].dims().index_of(l);
            assert(s[q].dims()[j] == l);
        }
    }
}

/// The loss of contracting the tensors at `p` and `q`.
fn pair_loss(
    trees: &Vec<ExprTree>,
    places: &Vec<Vec<usize>>,
    p: usize,
    q: usize,
    iy: &Vec<usize>,
    sizes: &Vec<usize>,
    numerator: usize,
    denominator: usize,
) -> (loss: Loss)
    requires
        p < trees.len(),
        q < trees.len(),
        places.len() == sizes.len(),
        all_below(models(trees@), sizes.len() as nat),
        forall|l: int|
            0 <= l < places.len() ==> holds((#[trigger] places[l])@, models(trees@), l as usize),
    ensures
        loss.is_of(
            (Gauge { iy: iy@, sizes: sizes@, numerator, denominator }),
            models(trees@),
            p as int,
            q as int,
        ),
{
    let ghost s = models(trees@);
    let labels: Vec<usize> = kept_labels(trees, places, p, q, iy);
    proof {
        lemma_kept_below(s, p as int, q as int, iy@, sizes.len() as nat);
        assert(s[p as int] == trees[p as int]@ && s[q as int] == trees[q as int]@);
    }
    let out: Count = int_size(&labels, sizes);
    let cost: Count = out.times(denominator);
    if numerator == 0 {
        let ghost both = crate::pairs::int_volume(s[p as int].dims(), sizes@)
            + crate::pairs::int_volume(s[q as int].dims(), sizes@);
        assert(both * numerator as nat == 0) by (nonlinear_arith)
            requires
                numerator == 0,
        ;
        Loss { cost, relief: Count::zero() }
    } else {
        let a: Count = int_size(trees[p].labels(), sizes);
        let b: Count = int_size(trees[q].labels(), sizes);
        Loss { cost, relief: a.plus(&b).times(numerator) }
    }
}

/// Whether `rows` holds the losses of all pairs: in row `p` those of `p` with each tensor after it.
spec fn tabled(rows: Seq<Vec<Loss>>, g: Gauge, s: Seq<Tree>) -> bool {
    &&& rows.len() == s.len()
    &&& forall|p: int| 0 <= p < s.len() ==> (#[trigger] rows[p])@.len() == s.len() - p - 1
    &&& forall|p: int, d: int|
        0 <= p < s.len() && 0 <= d < s.len() - p - 1 ==> (#[trigger] rows[p]@[d]).is_of(
            g,
            s,
            p,
            p + 1 + d,
        )
}

/// Whether the pair of `a` and `b` stands before that of `i` and `j`.
pub open spec fn ahead(a: int, b: int, i: int, j: int) -> bool {
    a < i || a == i && b < j
}

/// Whether `best` is the first pair with the lowest loss of those that stand before the pair of
/// `i` and `j`, where `skip` does not count.
spec fn best_ahead(
    g: Gauge,
    s: Seq<Tree>,
    skip: (int, int),
    best: Option<(usize, usize)>,
    i: int,
    j: int,
) -> bool {
    match best {
        None => forall|a: int, b: int|
            0 <= a < b < s.len() && #[trigger] ahead(a, b, i, j) ==> (a, b) == skip,
        Some((p, q)) => {
            let p = p as int;
            let q = q as int;
            &&& 0 <= p < q < s.len()
            &&& (p, q) != skip
            &&& ahead(p, q, i, j)
            &&& forall|a: int, b: int|
                0 <= a < b < s.len() && (a, b) != skip && #[trigger] ahead(a, b, i, j) ==> g.loss(
                    s,
                    p,
                    q,
                ) <= g.loss(s, a, b)
            &&& forall|a: int, b: int|
                0 <= a < b < s.len() && (a, b) != skip && #[trigger] ahead(a, b, p, q) ==> g.loss(
                    s,
                    p,
                    q,
                ) < g.loss(s, a, b)
        },
    }
}

/// The first pair with the lowest loss, where the pair `skip` does not count.
fn find_least(
    rows: &Vec<Vec<Loss>>,
    skip: (usize, usize),
    Ghost(g): Ghost<Gauge>,
    Ghost(s): Ghost<Seq<Tree>>,
) -> (best: Option<(usize, usize)>)
    requires
        tabled(rows@, g, s),
    ensures
        match best {
            Some((p, q)) => g.least(s, (skip.0 as int, skip.1 as int), p as int, q as int),
            None => s.len() < 2 || s.len() == 2 && skip == (0usize, 1usize),
        },
{
    let ghost gap = (skip.0 as int, skip.1 as int);
    let mut best: Option<(usize, usize)> = None;
    let mut i: usize = 0;
    while i < rows.len()
        invariant
            i <= rows.len(),
            tabled(rows@, g, s),
            gap == (skip.0 as int, skip.1 as int),
            best_ahead(g, s, gap, best, i as int, 0),
        decreases rows.len() - i,
    {
        let mut d: usize = 0;
        assert(best_ahead(g, s, gap, best, i as int, i + 1)) by {
            lemma_best_shift(g, s, gap, best, i as int, 0, i as int, i + 1);
        }
        while d < rows[i].len()
            invariant
                i < rows.len(),
                tabled(rows@, g, s),
                d <= rows[i as int]@.len(),
                gap == (skip.0 as int, skip.1 as int),
                best_ahead(g, s, gap, best, i as int, i + 1 + d),
            decreases rows[i as int]@.len() - d,
        {
            let j: usize = i + 1 + d;
            assert(rows@[i as int]@[d as int].is_of(g, s, i as int, j as int));
            if i != skip.0 || j != skip.1 {
                let better: bool = match best {
                    None => true,
                    Some((p, q)) => {
                        proof {
                            let e = q - p - 1;
                            assert(rows@[p as int]@[e].is_of(g, s, p as int, p + 1 + e));
                        }
                        rows[i][d].less(&rows[p][q - p - 1])
                    },
                };
                proof {
                    lemma_best_next(g, s, gap, best, i, j, better);
                }
                if better {
                    best = Some((i, j));
                }
            } else {
                proof {
                    lemma_best_skip(g, s, gap, best, i as int, j as int);
                }
            }
            d = d + 1;
        }
        assert(best_ahead(g, s, gap, best, i + 1, 0)) by {
            lemma_best_shift(g, s, gap, best, i as int, s.len() as int, i + 1, 0);
        }
        i = i + 1;
    }
    proof {
        match best {
            Some((p, q)) => {
                assert forall|a: int, b: int|
                    0 <= a < b < s.len() && (a, b) != gap implies g.loss(s, p as int, q as int)
                    <= #[trigger] g.loss(s, a, b) by {
                    assert(ahead(a, b, s.len() as int, 0));
                }
                assert forall|a: int, b: int|
                    0 <= a < b < s.len() && (a, b) != gap && (a < p || a == p && b < q) implies g.loss(
                    s,
                    p as int,
                    q as int,
                ) < #[trigger] g.loss(s, a, b) by {
                    assert(ahead(a, b, p as int, q as int));
                }
            },
            None => {
                if s.len() >= 2 {
                    assert(ahead(0, 1, s.len() as int, 0));
                    assert(ahead(0, 2, s.len() as int, 0));
                }
            },
        }
    }
    best
}

/// Where no pair stands between two places, the best pair before one is that before the other.
proof fn lemma_best_shift(
    g: Gauge,
    s: Seq<Tree>,
    skip: (int, int),
    best: Option<(usize, usize)>,
    i: int,
    j: int,
    i2: int,
    j2: int,
)
    requires
        best_ahead(g, s, skip, best, i, j),
        forall|a: int, b: int|
            0 <= a < b < s.len() ==> (#[trigger] ahead(a, b, i, j) <==> ahead(a, b, i2, j2)),
    ensures
        best_ahead(g, s, skip, best, i2, j2),
{
    assert forall|a: int, b: int|
        0 <= a < b < s.len() && #[trigger] ahead(a, b, i2, j2) implies ahead(a, b, i, j) by {}
    match best {
        None => {
            assert forall|a: int, b: int|
                0 <= a < b < s.len() && #[trigger] ahead(a, b, i2, j2) implies (a, b) == skip by {
                assert(ahead(a, b, i, j));
            }
        },
        Some((p, q)) => {
            assert(ahead(p as int, q as int, i, j));
            assert forall|a: int, b: int|
                0 <= a < b < s.len() && (a, b) != skip && #[trigger] ahead(
                    a,
                    b,
                    i2,
                    j2,
                ) implies g.loss(s, p as int, q as int) <= g.loss(s, a, b) by {
                assert(ahead(a, b, i, j));
            }
        },
    }
}

/// The best pair after one more has been looked at.
proof fn lemma_best_next(
    g: Gauge,
    s: Seq<Tree>,
    skip: (int, int),
    best: Option<(usize, usize)>,
    i: usize,
    j: usize,
    better: bool,
)
    requires
        best_ahead(g, s, skip, best, i as int, j as int),
        i < j < s.len(),
        (i as int, j as int) != skip,
        better == match best {
            None => true,
            Some((p, q)) => g.loss(s, i as int, j as int) < g.loss(s, p as int, q as int),
        },
    ensures
        best_ahead(
            g,
            s,
            skip,
            if better {
                Some((i, j))
            } else {
                best
            },
            i as int,
            j + 1,
        ),
{
    let x = i as int;
    let y = j as int;
    let next = if better {
        Some((i, j))
    } else {
        best
    };
    let (p, q) = match next {
        Some((p, q)) => (p as int, q as int),
        None => (x, y),
    };
    assert(ahead(x, y, x, y + 1));
    assert forall|a: int, b: int|
        0 <= a < b < s.len() && (a, b) != skip && #[trigger] ahead(a, b, x, y + 1) implies g.loss(
        s,
        p,
        q,
    ) <= g.loss(s, a, b) by {
        if (a, b) != (x, y) {
            assert(ahead(a, b, x, y));
        }
    }
    if better {
        assert forall|a: int, b: int|
            0 <= a < b < s.len() && (a, b) != skip && #[trigger] ahead(a, b, x, y) implies g.loss(
            s,
            x,
            y,
        ) < g.loss(s, a, b) by {}
    }
}

/// A pair that does not count changes nothing.
proof fn lemma_best_skip(
    g: Gauge,
    s: Seq<Tree>,
    skip: (int, int),
    best: Option<(usize, usize)>,
    i: int,
    j: int,
)
    requires
        best_ahead(g, s, skip, best, i, j),
        skip == (i, j),
    ensures
        best_ahead(g, s, skip, best, i, j + 1),
{
    match best {
        None => {
            assert forall|a: int, b: int|
                0 <= a < b < s.len() && #[trigger] ahead(a, b, i, j + 1) implies (a, b) == skip by {
                if (a, b) != skip {
                    assert(ahead(a, b, i, j));
                }
            }
        },
        Some((p, q)) => {
            assert forall|a: int, b: int|
                0 <= a < b < s.len() && (a, b) != skip && #[trigger] ahead(
                    a,
                    b,
                    i,
                    j + 1,
                ) implies g.loss(s, p as int, q as int) <= g.loss(s, a, b) by {
                assert(ahead(a, b, i, j));
            }
        },
    }
}

/// The losses of contracting the tensor at `p` with each one after it.
fn row_of(
    trees: &Vec<ExprTree>,
    places: &Vec<Vec<usize>>,
    p: usize,
    iy: &Vec<usize>,
    sizes: &Vec<usize>,
    numerator: usize,
    denominator: usize,
) -> (row: Vec<Loss>)
    requires
        p < trees.len(),
        places.len() == sizes.len(),
        all_below(models(trees@), sizes.len() as nat),
        forall|l: int|
            0 <= l < places.len() ==> holds((#[trigger] places[l])@, models(trees@), l as usize),
    ensures
        row.len() == trees.len() - p - 1,
        forall|d: int|
            0 <= d < row.len() ==> (#[trigger] row@[d]).is_of(
                (Gauge { iy: iy@, sizes: sizes@, numerator, denominator }),
                models(trees@),
                p as int,
                p + 1 + d,
            ),
{
    let ghost g = Gauge { iy: iy@, sizes: sizes@, numerator, denominator };
    let mut row: Vec<Loss> = Vec::new();
    let mut c: usize = p + 1;
    while c < trees.len()
        invariant
            p < c <= trees.len(),
            all_below(models(trees@), sizes.len() as nat),
            g == (Gauge { iy: iy@, sizes: sizes@, numerator, denominator }),
            places.len() == sizes.len(),
            forall|l: int|
                0 <= l < places.len() ==> holds((#[trigger] places[l])@, models(trees@), l as usize),
            row.len() == c - p - 1,
            forall|d: int|
                0 <= d < row.len() ==> (#[trigger] row@[d]).is_of(
                    g,
                    models(trees@),
                    p as int,
                    p + 1 + d,
                ),
        decreases trees.len() - c,
    {
        row.push(pair_loss(trees, places, p, c, iy, sizes, numerator, denominator));
        c = c + 1;
    }
    row
}

/// Drops the tensor at `q` from the table.
fn drop_column(
    rows: &mut Vec<Vec<Loss>>,
    q: usize,
    Ghost(g): Ghost<Gauge>,
    Ghost(s): Ghost<Seq<Tree>>,
)
    requires
        tabled(old(rows)@, g, s),
        q < s.len(),
    ensures
        final(rows)@.len() == s.len() - 1,
        forall|r: int|
            0 <= r < s.len() - 1 ==> (#[trigger] final(rows)@[r])@.len() == s.len() - r - 2,
        forall|r: int, d: int|
            0 <= r < s.len() - 1 && 0 <= d < s.len() - r - 2 ==> (
            #[trigger] final(rows)@[r]@[d]).is_of(
                g,
                s,
                crate::pairs::place(r, q as int),
                crate::pairs::place(r + 1 + d, q as int),
            ),
{
    let ghost start = rows@;
    let _dropped: Vec<Loss> = rows.remove(q);
    let mut r: usize = 0;
    while r < q
        invariant
            r <= q < s.len(),
            tabled(start, g, s),
            rows.len() == s.len() - 1,
            forall|k: int| r <= k < q ==> #[trigger] rows@[k] == start[k],
            forall|k: int| q <= k < s.len() - 1 ==> #[trigger] rows@[k] == start[k + 1],
            forall|k: int| 0 <= k < r ==> (#[trigger] rows@[k])@ == start[k]@.remove(q - k - 1),
        decreases q - r,
    {
        let ghost before = rows@;
        assert(rows@[r as int] == start[r as int]);
        let _dropped: Loss = rows[r].remove(q - r - 1);
        assert(forall|k: int| 0 <= k < rows.len() && k != r ==> rows@[k] == before[k]);
        r = r + 1;
    }
    proof {
        let end = rows@;
        assert forall|r: int| 0 <= r < s.len() - 1 implies (#[trigger] end[r])@.len() == s.len() - r
            - 2 by {
            if r < q {
                assert(start[r]@.len() == s.len() - r - 1);
            } else {
                assert(start[r + 1]@.len() == s.len() - (r + 1) - 1);
            }
        }
        assert forall|r: int, d: int| 0 <= r < s.len() - 1 && 0 <= d < s.len() - r - 2 implies (
        #[trigger] end[r]@[d]).is_of(
            g,
            s,
            crate::pairs::place(r, q as int),
            crate::pairs::place(r + 1 + d, q as int),
        ) by {
            assert(end[r]@.len() == s.len() - r - 2);
            if r < q {
                assert(end[r]@ == start[r]@.remove(q - r - 1));
                assert(start[r]@.len() == s.len() - r - 1);
                if d < q - r - 1 {
                    assert(end[r]@[d] == start[r]@[d]);
                    assert(start[r]@[d].is_of(g, s, r, r + 1 + d));
                } else {
                    assert(end[r]@[d] == start[r]@[d + 1]);
                    assert(start[r]@[d + 1].is_of(g, s, r, r + 1 + (d + 1)));
                }
            } else {
                assert(end[r] == start[r + 1]);
                assert(start[r + 1]@[d].is_of(g, s, r + 1, (r + 1) + 1 + d));
            }
        }
    }
}

/// Contracts the tensors at `p` and `q`, and brings the table up to date.
fn contract(
    trees: &mut Vec<ExprTree>,
    rows: &mut Vec<Vec<Loss>>,
    p: usize,
    q: usize,
    iy: &Vec<usize>,
    sizes: &Vec<usize>,
    numerator: usize,
    denominator: usize,
)
    requires
        p < q < old(trees).len(),
        all_below(models(old(trees)@), sizes.len() as nat),
        tabled(
            old(rows)@,
            (Gauge { iy: iy@, sizes: sizes@, numerator, denominator }),
            models(old(trees)@),
        ),
    ensures
        models(final(trees)@) == crate::pairs::merged(models(old(trees)@), p as int, q as int, iy@),
        all_below(models(final(trees)@), sizes.len() as nat),
        tabled(
            final(rows)@,
            (Gauge { iy: iy@, sizes: sizes@, numerator, denominator }),
            models(final(trees)@),
        ),
{
    let ghost g = Gauge { iy: iy@, sizes: sizes@, numerator, denominator };
    let ghost s = models(trees@);
    let ghost n: nat = sizes.len() as nat;
    let places: Vec<Vec<usize>> = holders(trees, sizes.len());
    let labels: Vec<usize> = kept_labels(trees, &places, p, q, iy);
    let ghost start = trees@;
    let right: ExprTree = trees.remove(q);
    let left: ExprTree = trees.remove(p);
    trees.insert(p, ExprTree::node(left, right, labels));
    let ghost t = models(trees@);
    proof {
        assert(left@ == s[p as int] && right@ == s[q as int]);
        assert(t =~= crate::pairs::merged(s, p as int, q as int, iy@));
        crate::pairs::lemma_merged(s, p as int, q as int, iy@);
        lemma_kept_below(s, p as int, q as int, iy@, n);
        assert forall|k: int| 0 <= k < t.len() implies crate::energy::below(
            (#[trigger] t[k]).dims(),
            n,
        ) by {
            if k != p {
                assert(t[k] == s[crate::pairs::place(k, q as int)]);
            }
        }
    }
    drop_column(rows, q, Ghost(g), Ghost(s));
    let places: Vec<Vec<usize>> = holders(trees, sizes.len());
    proof {
        assert forall|r: int, d: int|
            0 <= r < t.len() && 0 <= d < t.len() - r - 1 && r != p && r + 1 + d != p implies (
        #[trigger] rows@[r]@[d]).is_of(g, t, r, r + 1 + d) by {
            crate::pairs::loss_stays(g, s, p as int, q as int, r, r + 1 + d);
        }
    }
    let mut r: usize = 0;
    while r < p
        invariant
            r <= p < t.len(),
            t == models(trees@),
            n == sizes.len(),
            all_below(t, n),
            g == (Gauge { iy: iy@, sizes: sizes@, numerator, denominator }),
            places.len() == sizes.len(),
            forall|l: int| 0 <= l < places.len() ==> holds((#[trigger] places[l])@, t, l as usize),
            rows.len() == t.len(),
            forall|k: int| 0 <= k < t.len() ==> (#[trigger] rows@[k])@.len() == t.len() - k - 1,
            forall|k: int, d: int|
                0 <= k < t.len() && 0 <= d < t.len() - k - 1 && k != p && (k + 1 + d != p || k < r)
                    ==> (#[trigger] rows@[k]@[d]).is_of(g, t, k, k + 1 + d),
        decreases p - r,
    {
        let loss: Loss = pair_loss(trees, &places, r, p, iy, sizes, numerator, denominator);
        let ghost before = rows@;
        let c: usize = p - r - 1;
        assert(rows@[r as int]@.len() == t.len() - r - 1);
        rows[r].set(c, loss);
        proof {
            assert forall|k: int| 0 <= k < t.len() implies (#[trigger] rows@[k])@.len() == t.len()
                - k - 1 by {
                assert(before[k]@.len() == t.len() - k - 1);
            }
            assert forall|k: int, d: int|
                0 <= k < t.len() && 0 <= d < t.len() - k - 1 && k != p && (k + 1 + d != p || k < r
                    + 1) implies (#[trigger] rows@[k]@[d]).is_of(g, t, k, k + 1 + d) by {
                if k == r && d == c {
                    assert(rows@[k]@[d] == loss);
                } else {
                    assert(rows@[k]@[d] == before[k]@[d]);
                }
            }
        }
        r = r + 1;
    }
    let row: Vec<Loss> = row_of(trees, &places, p, iy, sizes, numerator, denominator);
    let ghost before = rows@;
    rows.set(p, row);
    proof {
        assert forall|k: int, d: int| 0 <= k < t.len() && 0 <= d < t.len() - k - 1 implies (
        #[trigger] rows@[k]@[d]).is_of(g, t, k, k + 1 + d) by {
            if k == p {
                assert(rows@[k]@[d] == row@[d]);
            } else {
                assert(rows@[k]@[d] == before[k]@[d]);
            }
        }
    }
}

/// The losses of all pairs.
fn table_of(
    trees: &Vec<ExprTree>,
    iy: &Vec<usize>,
    sizes: &Vec<usize>,
    numerator: usize,
    denominator: usize,
) -> (rows: Vec<Vec<Loss>>)
    requires
        all_below(models(trees@), sizes.len() as nat),
    ensures
        tabled(
            rows@,
            (Gauge { iy: iy@, sizes: sizes@, numerator, denominator }),
            models(trees@),
        ),
{
    let ghost g = Gauge { iy: iy@, sizes: sizes@, numerator, denominator };
    let ghost s = models(trees@);
    let places: Vec<Vec<usize>> = holders(trees, sizes.len());
    let mut rows: Vec<Vec<Loss>> = Vec::new();
    let mut p: usize = 0;
    while p < trees.len()
        invariant
            p <= trees.len(),
            s == models(trees@),
            all_below(s, sizes.len() as nat),
            g == (Gauge { iy: iy@, sizes: sizes@, numerator, denominator }),
            places.len() == sizes.len(),
            forall|l: int| 0 <= l < places.len() ==> holds((#[trigger] places[l])@, s, l as usize),
            rows.len() == p,
            forall|k: int| 0 <= k < p ==> (#[trigger] rows@[k])@.len() == s.len() - k - 1,
            forall|k: int, d: int|
                0 <= k < p && 0 <= d < s.len() - k - 1 ==> (#[trigger] rows@[k]@[d]).is_of(
                    g,
                    s,
                    k,
                    k + 1 + d,
                ),
        decreases trees.len() - p,
    {
        let ghost before = rows@;
        rows.push(row_of(trees, &places, p, iy, sizes, numerator, denominator));
        assert(forall|k: int| 0 <= k < p ==> #[trigger] rows@[k] == before[k]);
        p = p + 1;
    }
    rows
}

/// How pairs are chosen greedily.
///
/// The loss of a pair is the size of the result less `alpha` times the sizes of the two, where
/// `alpha` is the fraction of `alpha_numerator` and `alpha_denominator`. Where there is a
/// temperature above zero, the runner-up is taken in place of the best pair now and then. Which one
/// is taken is drawn anew in every call.
#[derive(Debug)]
pub struct GreedyMethod<R> {
    pub alpha_numerator: usize,
    pub alpha_denominator: usize,
    pub temperature: Option<R>,
}

impl<R> GreedyMethod<R> {
    /// Always contracts the pair with the lowest loss, where the inputs weigh `numerator` divided
    /// by `denominator`.
    pub fn with_alpha(numerator: usize, denominator: usize) -> (method: Self)
        ensures
            method == (GreedyMethod::<R> {
                alpha_numerator: numerator,
                alpha_denominator: denominator,
                temperature: None,
            }),
    {
        GreedyMethod {
            alpha_numerator: numerator,
            alpha_denominator: denominator,
            temperature: None,
        }
    }

    /// Chooses at random between the best pair and the runner-up.
    pub fn stochastic(temperature: R) -> (method: Self)
        ensures
            method == (GreedyMethod {
                alpha_numerator: 0,
                alpha_denominator: 1,
                temperature: Some(temperature),
            }),
    {
        GreedyMethod {
            alpha_numerator: 0,
            alpha_denominator: 1,
            temperature: Some(temperature),
        }
    }

    /// What the losses of the method are measured by.
    pub open spec fn gauge(self, iy: Seq<usize>, sizes: Seq<usize>) -> Gauge {
        Gauge {
            iy,
            sizes,
            numerator: self.alpha_numerator,
            denominator: self.alpha_denominator,
        }
    }
}

impl<R> Default for GreedyMethod<R> {
    /// Always contracts the pair with the smallest result.
    fn default() -> (method: Self)
        ensures
            method == (GreedyMethod::<R> {
                alpha_numerator: 0,
                alpha_denominator: 1,
                temperature: None,
            }),
    {
        GreedyMethod::with_alpha(0, 1)
    }
}

/// Whether `hot` says that there is a temperature above zero.
pub open spec fn hot_is<R: Scalar>(temperature: Option<R>, hot: bool) -> bool {
    match temperature {
        None => !hot,
        Some(t) => exists|z: R|
            call_ensures(R::zero, (), z) && #[trigger] crate::scalar::less_is(z, t, hot),
    }
}

/// Whether `r` is the number `n`.
pub open spec fn counted_is<R: Scalar>(n: nat, r: R) -> bool {
    exists|c: Count| c@ == n && #[trigger] call_ensures(R::of_count, (&c,), r)
}

/// Whether `d` is the difference of `high` and `low`.
pub open spec fn gap_is<R: Scalar>(high: nat, low: nat, d: R) -> bool {
    exists|a: R, b: R|
        counted_is(high, a) && counted_is(low, b) && #[trigger] crate::scalar::minus_is(a, b, d)
}

/// Whether `x` is `d` divided by the temperature and `denominator`.
pub open spec fn scaled_is<R: Scalar>(d: R, temperature: R, denominator: nat, x: R) -> bool {
    exists|w: R, m: R|
        counted_is(denominator, w) && #[trigger] crate::scalar::times_is(temperature, w, m)
            && call_ensures(R::quotient, (&d, &m), x)
}

/// Whether a pair is given up for one whose loss is higher by `high` less `low`, over
/// `denominator`, where `draw` was drawn: it is if `draw` is below the exponential of minus the
/// difference of the losses over the temperature.
pub open spec fn switch_is<R: Scalar>(
    high: nat,
    low: nat,
    denominator: nat,
    temperature: R,
    draw: R,
    accept: bool,
) -> bool {
    exists|d: R, x: R, nx: R, e: R|
        gap_is(high, low, d) && #[trigger] scaled_is(d, temperature, denominator, x)
            && call_ensures(R::negated, (&x,), nx) && #[trigger] call_ensures(R::exp, (&nx,), e)
            && crate::scalar::less_is(draw, e, accept)
}

/// Decides whether a pair is given up for one whose loss is higher by `high` less `low`, over
/// `denominator`.
pub fn switches<R: Scalar>(
    high: &Count,
    low: &Count,
    denominator: usize,
    temperature: &R,
    draw: &R,
) -> (accept: bool)
    ensures
        switch_is(high@, low@, denominator as nat, *temperature, *draw, accept),
{
    let a: R = R::of_count(high);
    let b: R = R::of_count(low);
    let d: R = R::minus(&a, &b);
    assert(counted_is(high@, a) && counted_is(low@, b));
    assert(crate::scalar::minus_is(a, b, d));
    assert(gap_is(high@, low@, d));
    let c: Count = Count::one().times(denominator);
    let w: R = R::of_count(&c);
    let m: R = R::times(temperature, &w);
    let x: R = R::quotient(&d, &m);
    assert(c@ == denominator);
    assert(counted_is(denominator as nat, w));
    assert(crate::scalar::times_is(*temperature, w, m));
    assert(scaled_is(d, *temperature, denominator as nat, x));
    let nx: R = R::negated(&x);
    let e: R = R::exp(&nx);
    let accept: bool = R::less(draw, &e);
    assert(crate::scalar::less_is(*draw, e, accept));
    accept
}

/// Whether the pair of `p` and `q` may be chosen, with random numbers from the state `before` on,
/// and the state `after` be left: the pair with the lowest loss, or, where there is a temperature
/// above zero and a number drawn says so, the one with the next loss.
pub open spec fn picks<R: Scalar>(
    g: Gauge,
    s: Seq<Tree>,
    temperature: Option<R>,
    p: int,
    q: int,
    before: SmallRng,
    after: SmallRng,
) -> bool {
    exists|p1: int, q1: int, hot: bool| #[trigger]
        g.least(s, (0, 0), p1, q1) && #[trigger] hot_is(temperature, hot) && if !hot || s.len()
            == 2 {
            p == p1 && q == q1 && after == before
        } else {
            picks_hot(g, s, temperature->0, p1, q1, p, q, before, after)
        }
}

/// Whether the pair of `p` and `q` may be chosen where that of `p1` and `q1` has the lowest loss:
/// the latter or the runner-up, as the number says that is drawn from the state `before`.
pub open spec fn picks_hot<R: Scalar>(
    g: Gauge,
    s: Seq<Tree>,
    temperature: R,
    p1: int,
    q1: int,
    p: int,
    q: int,
    before: SmallRng,
    after: SmallRng,
) -> bool {
    exists|p2: int, q2: int, draw: R, accept: bool| #[trigger]
        g.least(s, (p1, q1), p2, q2) && crate::scalar::drawn(before, draw, after)
            && #[trigger] switch_is(
            g.cost(s, p2, q2) + g.relief(s, p1, q1),
            g.cost(s, p1, q1) + g.relief(s, p2, q2),
            g.denominator as nat,
            temperature,
            draw,
            accept,
        ) && if accept {
            p == p2 && q == q2
        } else {
            p == p1 && q == q1
        }
}

/// Whether contracting a chosen pair again and again, with random numbers from the state `before`
/// on, can make `u` of the tensors `s` and leave the state `after`.
pub open spec fn built<R: Scalar>(
    g: Gauge,
    s: Seq<Tree>,
    temperature: Option<R>,
    u: Tree,
    before: SmallRng,
    after: SmallRng,
) -> bool
    decreases s.len(),
{
    if s.len() < 2 {
        s.len() == 1 && u == s[0] && after == before
    } else {
        exists|p: int, q: int, rng: SmallRng|
            0 <= p < q < s.len() && #[trigger] picks(g, s, temperature, p, q, before, rng)
                && built(g, crate::pairs::merged(s, p, q, g.iy), temperature, u, rng, after)
    }
}

/// Without a temperature the pair with the lowest loss is contracted in every step, and nothing is
/// drawn.
pub proof fn greedy_takes_lowest<R: Scalar>(
    g: Gauge,
    s: Seq<Tree>,
    p: int,
    q: int,
    before: SmallRng,
    after: SmallRng,
)
    requires
        picks(g, s, None::<R>, p, q, before, after),
    ensures
        g.least(s, (0, 0), p, q),
        after == before,
{
}

/// Without a temperature one tree is built, whatever the state of the generator, and nothing is
/// drawn.
pub proof fn greedy_tree_is_unique<R: Scalar>(
    g: Gauge,
    s: Seq<Tree>,
    u: Tree,
    v: Tree,
    before: SmallRng,
    after: SmallRng,
    other_before: SmallRng,
    other_after: SmallRng,
)
    requires
        built(g, s, None::<R>, u, before, after),
        built(g, s, None::<R>, v, other_before, other_after),
    ensures
        u == v,
        after == before,
    decreases s.len(),
{
    let none = None::<R>;
    if s.len() >= 2 {
        let (p, q, rng) = choose|p: int, q: int, rng: SmallRng|
            0 <= p < q < s.len() && #[trigger] picks(g, s, none, p, q, before, rng) && built(
                g,
                crate::pairs::merged(s, p, q, g.iy),
                none,
                u,
                rng,
                after,
            );
        let (a, b, other) = choose|a: int, b: int, other: SmallRng|
            0 <= a < b < s.len() && #[trigger] picks(g, s, none, a, b, other_before, other)
                && built(g, crate::pairs::merged(s, a, b, g.iy), none, v, other, other_after);
        greedy_takes_lowest::<R>(g, s, p, q, before, rng);
        greedy_takes_lowest::<R>(g, s, a, b, other_before, other);
        assert(g.loss(s, p, q) <= g.loss(s, a, b) && g.loss(s, a, b) <= g.loss(s, p, q));
        assert(p == a && q == b);
        crate::pairs::lemma_merged(s, p, q, g.iy);
        greedy_tree_is_unique::<R>(
            g,
            crate::pairs::merged(s, p, q, g.iy),
            u,
            v,
            rng,
            after,
            other,
            other_after,
        );
    }
}

/// A tree that is built of consistent tensors is consistent, and has their leaves.
pub proof fn built_is_consistent<R: Scalar>(
    g: Gauge,
    s: Seq<Tree>,
    temperature: Option<R>,
    u: Tree,
    before: SmallRng,
    after: SmallRng,
)
    requires
        built(g, s, temperature, u, before, after),
        crate::pairs::all_consistent(s, g.iy),
    ensures
        u.consistent(g.iy.to_set()),
        u.leaf_set() == crate::pairs::bag(s),
        s.len() >= 2 ==> u is Node,
    decreases s.len(),
{
    if s.len() < 2 {
        assert(crate::pairs::around(s, 0, g.iy) =~= g.iy.to_set());
        assert(s.drop_last() =~= Seq::empty());
        assert(crate::pairs::bag(s.drop_last()) == Multiset::<Info>::empty());
        assert(crate::pairs::bag(s) =~= s[0].leaf_set());
    } else {
        let (p, q, rng) = choose|p: int, q: int, rng: SmallRng|
            0 <= p < q < s.len() && #[trigger] picks(g, s, temperature, p, q, before, rng)
                && built(g, crate::pairs::merged(s, p, q, g.iy), temperature, u, rng, after);
        crate::pairs::lemma_merged_consistent(s, p, q, g.iy);
        crate::pairs::lemma_bag_merged(s, p, q, g.iy);
        crate::pairs::lemma_merged(s, p, q, g.iy);
        built_is_consistent(
            g,
            crate::pairs::merged(s, p, q, g.iy),
            temperature,
            u,
            rng,
            after,
        );
    }
}

/// The tensors of a network, each as a tree of its own.
pub open spec fn start(ixs: Seq<Seq<usize>>) -> Seq<Tree> {
    Seq::new(ixs.len(), |k: int| Tree::Leaf(Info { dims: ixs[k], id: Some(k as usize) }))
}

/// The leaves of the tensors of a network.
proof fn lemma_start_bag(ixs: Seq<Seq<usize>>)
    ensures
        crate::pairs::bag(start(ixs)) == crate::init::leaf_infos(
            ixs,
            crate::init::first_ids(ixs.len()),
        ).to_multiset(),
    decreases ixs.len(),
{
    let ids = crate::init::first_ids(ixs.len());
    let infos = crate::init::leaf_infos(ixs, ids);
    infos.to_multiset_ensures();
    if ixs.len() == 0 {
        assert(crate::pairs::bag(start(ixs)) =~= infos.to_multiset()) by {
            assert(infos =~= Seq::empty());
            assert(infos.to_multiset().len() == 0);
        }
    } else {
        let rest = ixs.drop_last();
        let rest_infos = crate::init::leaf_infos(rest, crate::init::first_ids(rest.len()));
        lemma_start_bag(rest);
        assert(start(ixs).drop_last() =~= start(rest));
        assert(infos =~= rest_infos.push(infos.last()));
        rest_infos.to_multiset_ensures();
        let leaf = start(ixs).last();
        assert(leaf.leaves() =~= Seq::<Info>::empty().push(infos.last()));
        Seq::<Info>::empty().to_multiset_ensures();
        assert(Seq::<Info>::empty().to_multiset() =~= Multiset::empty());
        assert(leaf.leaf_set() == Multiset::<Info>::empty().insert(infos.last()));
        assert(crate::pairs::bag(start(ixs)) =~= infos.to_multiset());
    }
}

/// What is built of the tensors of a network of at least two is a plan for the network.
pub proof fn greedy_gives_plan<R: Scalar>(
    g: Gauge,
    ixs: Seq<Seq<usize>>,
    temperature: Option<R>,
    u: Tree,
    before: SmallRng,
    after: SmallRng,
)
    requires
        built(g, start(ixs), temperature, u, before, after),
        ixs.len() >= 2,
    ensures
        u.is_plan_of(ixs, g.iy),
        u.consistent(g.iy.to_set()),
{
    built_is_consistent(g, start(ixs), temperature, u, before, after);
    lemma_start_bag(ixs);
    crate::plan::lemma_consistent_is_root_consistent(u, g.iy.to_set());
}

/// Chooses the pair to contract next.
fn pick<R: Scalar>(
    rows: &Vec<Vec<Loss>>,
    method: &GreedyMethod<R>,
    rng: &mut SmallRng,
    Ghost(g): Ghost<Gauge>,
    Ghost(s): Ghost<Seq<Tree>>,
) -> (pair: (usize, usize))
    requires
        tabled(rows@, g, s),
        s.len() >= 2,
        g.denominator == method.alpha_denominator,
    ensures
        pair.0 < pair.1 < s.len(),
        picks(
            g,
            s,
            method.temperature,
            pair.0 as int,
            pair.1 as int,
            *old(rng),
            *final(rng),
        ),
{
    let best: (usize, usize) = match find_least(rows, (0, 0), Ghost(g), Ghost(s)) {
        Some(pair) => pair,
        None => (0, 1),
    };
    let (p1, q1) = best;
    assert(g.least(s, (0, 0), p1 as int, q1 as int));
    match &method.temperature {
        None => {
            assert(hot_is(method.temperature, false));
            best
        },
        Some(t) => {
            let zero: R = R::zero();
            let hot: bool = R::less(&zero, t);
            assert(crate::scalar::less_is(zero, *t, hot));
            assert(hot_is(method.temperature, hot));
            if !hot || rows.len() == 2 {
                return best;
            }
            let (p2, q2) = match find_least(rows, best, Ghost(g), Ghost(s)) {
                Some(pair) => pair,
                None => best,
            };
            assert(g.least(s, (p1 as int, q1 as int), p2 as int, q2 as int));
            let draw: R = crate::scalar::draw_unit(rng);
            proof {
                assert(crate::scalar::drawn(*old(rng), draw, *rng));
                let d = q1 - p1 - 1;
                let e = q2 - p2 - 1;
                assert(rows@[p1 as int]@[d].is_of(g, s, p1 as int, p1 + 1 + d));
                assert(rows@[p2 as int]@[e].is_of(g, s, p2 as int, p2 + 1 + e));
            }
            let low: &Loss = &rows[p1][q1 - p1 - 1];
            let high: &Loss = &rows[p2][q2 - p2 - 1];
            let accept: bool = switches(
                &high.cost.plus(&low.relief),
                &low.cost.plus(&high.relief),
                method.alpha_denominator,
                t,
                &draw,
            );
            let pair: (usize, usize) = if accept {
                (p2, q2)
            } else {
                best
            };
            assert(picks_hot(
                g,
                s,
                *t,
                p1 as int,
                q1 as int,
                pair.0 as int,
                pair.1 as int,
                *old(rng),
                *rng,
            ));
            pair
        },
    }
}

/// A contraction tree for a network of at least one tensor, by contracting a chosen pair of
/// tensors again and again.
pub fn greedy_tree<R: Scalar>(
    int_ixs: &Vec<Vec<usize>>,
    int_iy: &Vec<usize>,
    sizes: &Vec<usize>,
    method: &GreedyMethod<R>,
    rng: &mut SmallRng,
) -> (tree: ExprTree)
    requires
        int_ixs.len() >= 1,
        crate::init::bounded(crate::init::lists(int_ixs@), sizes.len() as nat),
    ensures
        built(
            method.gauge(int_iy@, sizes@),
            start(crate::init::lists(int_ixs@)),
            method.temperature,
            tree@,
            *old(rng),
            *final(rng),
        ),
{
    let ghost rng0 = *rng;
    let ghost ixs = crate::init::lists(int_ixs@);
    let ghost g = method.gauge(int_iy@, sizes@);
    let mut trees: Vec<ExprTree> = Vec::new();
    let mut k: usize = 0;
    while k < int_ixs.len()
        invariant
            k <= int_ixs.len(),
            ixs == crate::init::lists(int_ixs@),
            models(trees@) =~= start(ixs).take(k as int),
        decreases int_ixs.len() - k,
    {
        let ghost before = trees@;
        trees.push(ExprTree::leaf(crate::expr_tree::copy_dims(&int_ixs[k]), k));
        proof {
            assert(ixs[k as int] == int_ixs[k as int]@);
            assert(models(trees@) =~= models(before).push(start(ixs)[k as int]));
        }
        k = k + 1;
    }
    assert(start(ixs).take(k as int) =~= start(ixs));
    proof {
        let s = models(trees@);
        assert forall|k: int| 0 <= k < s.len() implies crate::energy::below(
            (#[trigger] s[k]).dims(),
            sizes.len() as nat,
        ) by {
            assert(s[k].dims() == ixs[k]);
            assert forall|j: int| 0 <= j < s[k].dims().len() implies (#[trigger] s[k].dims()[j])
                < sizes.len() by {
                assert(ixs[k][j] < sizes.len());
            }
        }
    }
    let mut rows: Vec<Vec<Loss>> = table_of(
        &trees,
        int_iy,
        sizes,
        method.alpha_numerator,
        method.alpha_denominator,
    );
    while trees.len() > 1
        invariant
            trees.len() >= 1,
            g == method.gauge(int_iy@, sizes@),
            all_below(models(trees@), sizes.len() as nat),
            tabled(rows@, g, models(trees@)),
            forall|u: Tree, after: SmallRng|
                built(g, models(trees@), method.temperature, u, *rng, after) ==> #[trigger] built(
                    g,
                    start(ixs),
                    method.temperature,
                    u,
                    rng0,
                    after,
                ),
        decreases trees.len(),
    {
        let ghost s = models(trees@);
        let ghost mid = *rng;
        let (p, q) = pick(&rows, method, rng, Ghost(g), Ghost(s));
        contract(
            &mut trees,
            &mut rows,
            p,
            q,
            int_iy,
            sizes,
            method.alpha_numerator,
            method.alpha_denominator,
        );
        proof {
            let t = models(trees@);
            crate::pairs::lemma_merged(s, p as int, q as int, g.iy);
            assert forall|u: Tree, after: SmallRng|
                built(g, t, method.temperature, u, *rng, after) implies #[trigger] built(
                g,
                start(ixs),
                method.temperature,
                u,
                rng0,
                after,
            ) by {
                assert(picks(g, s, method.temperature, p as int, q as int, mid, *rng));
                assert(built(g, s, method.temperature, u, mid, after));
            }
        }
    }
    let tree: ExprTree = trees.remove(0);
    assert(built(g, models(trees@.insert(0, tree)), method.temperature, tree@, *rng, *rng));
    tree
}

/// Whether `nested` is the order of a tree that `method` can build for `code`, with random numbers
/// from the state `before` on, where the state `after` is left.
pub open spec fn greedy_drawn<L, R: Scalar>(
    code: Ein<L>,
    size_dict: Map<L, usize>,
    method: GreedyMethod<R>,
    nested: Nested<L>,
    before: SmallRng,
    after: SmallRng,
) -> bool {
    exists|t: Tree| #[trigger]
        built(
            method.gauge(code.int_iy(), code.sizes(size_dict)),
            start(code.int_ixs()),
            method.temperature,
            t,
            before,
            after,
        ) && nested == code.order_of(t)
}

/// Whether `nested` is the order of a tree that `method` can build for `code`, with random numbers
/// from a generator that is started anew.
pub open spec fn greedy_order<L, R: Scalar>(
    code: Ein<L>,
    size_dict: Map<L, usize>,
    method: GreedyMethod<R>,
    nested: Nested<L>,
) -> bool {
    exists|before: SmallRng, after: SmallRng| #[trigger]
        crate::random::opened(before) && #[trigger] greedy_drawn(
            code,
            size_dict,
            method,
            nested,
            before,
            after,
        )
}

/// Without a temperature there is one greedy order, whatever the generator, and nothing is drawn.
pub proof fn greedy_drawn_is_unique<L, R: Scalar>(
    code: Ein<L>,
    size_dict: Map<L, usize>,
    method: GreedyMethod<R>,
    n: Nested<L>,
    m: Nested<L>,
    before: SmallRng,
    after: SmallRng,
    other_before: SmallRng,
    other_after: SmallRng,
)
    requires
        greedy_drawn(code, size_dict, method, n, before, after),
        greedy_drawn(code, size_dict, method, m, other_before, other_after),
        method.temperature is None,
    ensures
        n == m,
        after == before,
{
    let g = method.gauge(code.int_iy(), code.sizes(size_dict));
    let s = start(code.int_ixs());
    let t = choose|t: Tree| #[trigger]
        built(g, s, method.temperature, t, before, after) && n == code.order_of(t);
    let u = choose|t: Tree| #[trigger]
        built(g, s, method.temperature, t, other_before, other_after) && m == code.order_of(t);
    greedy_tree_is_unique::<R>(g, s, t, u, before, after, other_before, other_after);
}

/// Without a temperature two calls come to one greedy order.
pub proof fn greedy_order_is_unique<L, R: Scalar>(
    code: Ein<L>,
    size_dict: Map<L, usize>,
    method: GreedyMethod<R>,
    n: Nested<L>,
    m: Nested<L>,
)
    requires
        greedy_order(code, size_dict, method, n),
        greedy_order(code, size_dict, method, m),
        method.temperature is None,
    ensures
        n == m,
{
    let (a, b) = choose|before: SmallRng, after: SmallRng| #[trigger]
        crate::random::opened(before) && #[trigger] greedy_drawn(
            code,
            size_dict,
            method,
            n,
            before,
            after,
        );
    let (c, d) = choose|before: SmallRng, after: SmallRng| #[trigger]
        crate::random::opened(before) && #[trigger] greedy_drawn(
            code,
            size_dict,
            method,
            m,
            before,
            after,
        );
    greedy_drawn_is_unique(code, size_dict, method, n, m, a, b, c, d);
}

/// What the greedy method draws for at least two tensors is an order of the expression.
pub proof fn greedy_drawn_is_order<L, R: Scalar>(
    code: Ein<L>,
    size_dict: Map<L, usize>,
    method: GreedyMethod<R>,
    nested: Nested<L>,
    before: SmallRng,
    after: SmallRng,
)
    requires
        greedy_drawn(code, size_dict, method, nested, before, after),
        code.ixs.len() >= 2,
        code.ixs.len() <= usize::MAX,
        code.labels().len() <= usize::MAX,
    ensures
        nested.is_order_of(code),
{
    let g = method.gauge(code.int_iy(), code.sizes(size_dict));
    let s = start(code.int_ixs());
    let t = choose|t: Tree| #[trigger]
        built(g, s, method.temperature, t, before, after) && nested == code.order_of(t);
    crate::network::lemma_numbered(code);
    greedy_gives_plan(g, code.int_ixs(), method.temperature, t, before, after);
    crate::order::plan_gives_order(t, code, code.labels(), code.numbering());
}

/// A greedy order of at least two tensors is an order of the expression.
pub proof fn greedy_order_is_order<L, R: Scalar>(
    code: Ein<L>,
    size_dict: Map<L, usize>,
    method: GreedyMethod<R>,
    nested: Nested<L>,
)
    requires
        greedy_order(code, size_dict, method, nested),
        code.ixs.len() >= 2,
        code.ixs.len() <= usize::MAX,
        code.labels().len() <= usize::MAX,
    ensures
        nested.is_order_of(code),
{
    let (before, after) = choose|before: SmallRng, after: SmallRng| #[trigger]
        crate::random::opened(before) && #[trigger] greedy_drawn(
            code,
            size_dict,
            method,
            nested,
            before,
            after,
        );
    greedy_drawn_is_order(code, size_dict, method, nested, before, after);
}

/// A contraction order for `code`, found greedily with random numbers from `rng`. There is none for
/// an expression without tensors, and for a single tensor the order only names it.
pub fn optimize_greedy_from<L: Label, R: Scalar>(
    code: &EinCode<L>,
    size_dict: &LabelMap<L>,
    method: &GreedyMethod<R>,
    rng: &mut SmallRng,
) -> (nested: Option<NestedEinsum<L>>)
    requires
        code@.ixs.len() >= 2 ==> crate::convert::covers(size_dict@, code@.labels()),
    ensures
        nested is None <==> code@.ixs.len() == 0,
        nested matches Some(nested) ==> if code@.ixs.len() == 1 {
            nested@ == (Nested::<L>::Leaf { tensor_index: 0 })
        } else {
            &&& greedy_drawn(code@, size_dict@, *method, nested@, *old(rng), *final(rng))
            &&& nested@.is_order_of(code@)
        },
        code@.ixs.len() < 2 || method.temperature is None ==> *final(rng) == *old(rng),
{
    if code.num_tensors() == 0 {
        return None;
    }
    if code.num_tensors() == 1 {
        return Some(NestedEinsum::leaf(0));
    }
    let network: Network<L> = Network::new(code);
    let sizes: Vec<usize> = map_labels(&network.labels, size_dict);
    let ghost rng0 = *rng;
    proof {
        assert(network.labels@.len() == network.labels.len());
        crate::network::lemma_numbered(code@);
    }
    let tree: ExprTree = greedy_tree(&network.int_ixs, &network.int_iy, &sizes, method, rng);
    let ghost rng1 = *rng;
    proof {
        let g = method.gauge(code@.int_iy(), code@.sizes(size_dict@));
        let n = code@.labels().len();
        let t = tree@;
        let ixs = code@.int_ixs();
        greedy_gives_plan(g, ixs, method.temperature, t, rng0, rng1);
        crate::order::lemma_plan_leaves(t, ixs);
        crate::order::lemma_consistent_below(t, g.iy.to_set(), ixs, n);
        crate::network::lemma_nodes_bounded(t, n);
    }
    let nested: NestedEinsum<L> = expr_tree_to_nested(
        &tree,
        &code.ixs,
        &network.labels,
        &code.iy,
        0,
    );
    proof {
        let n = nested@;
        assert(n == code@.order_of(tree@));
        assert(greedy_drawn(code@, size_dict@, *method, n, rng0, rng1));
        greedy_drawn_is_order(code@, size_dict@, *method, n, rng0, rng1);
        if method.temperature is None {
            greedy_drawn_is_unique(code@, size_dict@, *method, n, n, rng0, rng1, rng0, rng1);
        }
    }
    Some(nested)
}

/// A contraction order for `code`, found greedily with random numbers from a generator that is
/// started anew, so that two calls at a temperature may come to different orders. There is none for
/// an expression without tensors, and for a single tensor the order only names it.
pub fn optimize_greedy<L: Label, R: Scalar>(
    code: &EinCode<L>,
    size_dict: &LabelMap<L>,
    method: &GreedyMethod<R>,
) -> (nested: Option<NestedEinsum<L>>)
    requires
        code@.ixs.len() >= 2 ==> crate::convert::covers(size_dict@, code@.labels()),
    ensures
        nested is None <==> code@.ixs.len() == 0,
        nested matches Some(nested) ==> if code@.ixs.len() == 1 {
            nested@ == (Nested::<L>::Leaf { tensor_index: 0 })
        } else {
            &&& greedy_order(code@, size_dict@, *method, nested@)
            &&& nested@.is_order_of(code@)
        },
{
    let mut rng: SmallRng = crate::random::open();
    optimize_greedy_from(code, size_dict, method, &mut rng)
}

} // verus!
