//! A number for each of some labels.

use crate::label::Label;
use std::mem::swap;
use vstd::prelude::*;

verus! {

/// A map from labels to numbers, such as the sizes of the indices that they name.
#[derive(Debug)]
pub struct LabelMap<L> {
    entries: Vec<(L, usize)>,
}

/// The map that comes of inserting the pairs of `entries` one after the other.
spec fn gathered<L>(entries: Seq<(L, usize)>) -> Map<L, usize>
    decreases entries.len(),
{
    if entries.len() == 0 {
        Map::empty()
    } else {
        gathered(entries.drop_last()).insert(entries.last().0, entries.last().1)
    }
}

/// Whether no label stands in two pairs.
spec fn keys_differ<L>(entries: Seq<(L, usize)>) -> bool {
    forall|i: int, j: int| 0 <= i < j < entries.len() ==> entries[i].0 != entries[j].0
}

proof fn lemma_gathered<L>(entries: Seq<(L, usize)>)
    requires
        keys_differ(entries),
    ensures
        forall|i: int|
            0 <= i < entries.len() ==> gathered(entries).dom().contains((#[trigger] entries[i]).0)
                && gathered(entries)[entries[i].0] == entries[i].1,
        forall|l: L|
            gathered(entries).dom().contains(l) ==> exists|i: int|
                0 <= i < entries.len() && (#[trigger] entries[i]).0 == l,
    decreases entries.len(),
{
    if entries.len() > 0 {
        let rest = entries.drop_last();
        lemma_gathered(rest);
        assert forall|i: int| 0 <= i < entries.len() implies gathered(entries).dom().contains(
            (#[trigger] entries[i]).0,
        ) && gathered(entries)[entries[i].0] == entries[i].1 by {
            if i < rest.len() {
                assert(rest[i] == entries[i]);
            }
        }
        assert forall|l: L| gathered(entries).dom().contains(l) implies exists|i: int|
            0 <= i < entries.len() && (#[trigger] entries[i]).0 == l by {
            if l == entries.last().0 {
                assert(entries[entries.len() - 1].0 == l);
            } else {
                assert(gathered(rest).dom().contains(l));
                let i = choose|i: int| 0 <= i < rest.len() && (#[trigger] rest[i]).0 == l;
                assert(entries[i].0 == l);
            }
        }
    }
}

proof fn lemma_gathered_update<L>(entries: Seq<(L, usize)>, i: int, value: usize)
    requires
        keys_differ(entries),
        0 <= i < entries.len(),
    ensures
        keys_differ(entries.update(i, (entries[i].0, value))),
        gathered(entries.update(i, (entries[i].0, value))) == gathered(entries).insert(
            entries[i].0,
            value,
        ),
{
    let next = entries.update(i, (entries[i].0, value));
    lemma_gathered(entries);
    lemma_gathered(next);
    let (m, n) = (gathered(entries).insert(entries[i].0, value), gathered(next));
    assert forall|l: L| m.dom().contains(l) <==> n.dom().contains(l) by {
        if m.dom().contains(l) {
            let j = if l == entries[i].0 {
                i
            } else {
                choose|j: int| 0 <= j < entries.len() && (#[trigger] entries[j]).0 == l
            };
            assert(next[j].0 == l);
        }
        if n.dom().contains(l) {
            let j = choose|j: int| 0 <= j < next.len() && (#[trigger] next[j]).0 == l;
            assert(entries[j].0 == l);
        }
    }
    assert forall|l: L| m.dom().contains(l) implies m[l] == n[l] by {
        let j = choose|j: int| 0 <= j < next.len() && (#[trigger] next[j]).0 == l;
        assert(n[next[j].0] == next[j].1);
        assert(m[l] == next[j].1) by {
            assert(entries[j].0 == l);
            if j != i {
                assert(gathered(entries)[entries[j].0] == entries[j].1);
            }
        }
    }
    assert(m =~= n);
}

impl<L> View for LabelMap<L> {
    type V = Map<L, usize>;

    closed spec fn view(&self) -> Map<L, usize> {
        gathered(self.entries@)
    }
}

impl<L> LabelMap<L> {
    #[verifier::type_invariant]
    spec fn well_formed(self) -> bool {
        keys_differ(self.entries@)
    }

    /// The empty map.
    pub fn new() -> (map: Self)
        ensures
            map@ == Map::<L, usize>::empty(),
    {
        LabelMap { entries: Vec::new() }
    }
}

impl<L: Label> LabelMap<L> {
    /// Where the pair of `label` stands.
    fn find(&self, label: &L) -> (found: Option<usize>)
        ensures
            match found {
                Some(i) => i < self.entries.len() && self.entries[i as int].0 == *label
                    && self@.dom().contains(*label) && self@[*label] == self.entries[i as int].1,
                None => !self@.dom().contains(*label) && forall|i: int|
                    0 <= i < self.entries.len() ==> self.entries[i].0 != *label,
            },
    {
        proof {
            use_type_invariant(self);
            lemma_gathered(self.entries@);
        }
        let mut i: usize = 0;
        while i < self.entries.len()
            invariant
                i <= self.entries.len(),
                forall|j: int| 0 <= j < i ==> self.entries[j].0 != *label,
                forall|j: int|
                    0 <= j < self.entries.len() ==> self@.dom().contains(
                        (#[trigger] self.entries[j]).0,
                    ) && self@[self.entries[j].0] == self.entries[j].1,
            decreases self.entries.len() - i,
        {
            if self.entries[i].0.same(label) {
                assert(self@.dom().contains(self.entries[i as int].0));
                return Some(i);
            }
            i = i + 1;
        }
        None
    }

    /// Gives `label` the number `value`, and returns the number that it had.
    pub fn insert(&mut self, label: L, value: usize) -> (before: Option<usize>)
        ensures
            final(self)@ == old(self)@.insert(label, value),
            before == if old(self)@.dom().contains(label) {
                Some(old(self)@[label])
            } else {
                None
            },
    {
        proof {
            use_type_invariant(&*self);
        }
        let found = self.find(&label);
        let mut entries: Vec<(L, usize)> = Vec::new();
        swap(&mut self.entries, &mut entries);
        let ghost start = entries@;
        match found {
            Some(i) => {
                let before: usize = entries[i].1;
                proof {
                    lemma_gathered_update(start, i as int, value);
                }
                entries.set(i, (label, value));
                self.entries = entries;
                Some(before)
            },
            None => {
                entries.push((label, value));
                assert(entries@.drop_last() =~= start);
                self.entries = entries;
                None
            },
        }
    }

    /// The number of `label`.
    pub fn get(&self, label: &L) -> (value: Option<usize>)
        ensures
            value == if self@.dom().contains(*label) {
                Some(self@[*label])
            } else {
                None
            },
    {
        match self.find(label) {
            Some(i) => Some(self.entries[i].1),
            None => None,
        }
    }

    /// Whether `label` has a number.
    pub fn contains_key(&self, label: &L) -> (b: bool)
        ensures
            b == self@.dom().contains(*label),
    {
        self.find(label).is_some()
    }

    /// The number of a label that has one.
    pub fn at(&self, label: &L) -> (value: usize)
        requires
            self@.dom().contains(*label),
        ensures
            value == self@[*label],
    {
        match self.find(label) {
            Some(i) => self.entries[i].1,
            None => 0,
        }
    }
}

} // verus!
