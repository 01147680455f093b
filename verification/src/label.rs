//! Labels of tensor indices.

use vstd::prelude::*;

verus! {

/// A name for a tensor index.
///
/// Two labels name the same index exactly when they are equal.
pub trait Label: Sized {
    /// Whether two labels name the same index.
    fn same(&self, other: &Self) -> (b: bool)
        ensures
            b == (*self == *other),
    ;

    /// Another copy of the label.
    fn duplicate(&self) -> (copy: Self)
        ensures
            copy == *self,
    ;
}

impl Label for char {
    fn same(&self, other: &Self) -> (b: bool) {
        *self == *other
    }

    fn duplicate(&self) -> (copy: Self) {
        *self
    }
}

impl Label for usize {
    fn same(&self, other: &Self) -> (b: bool) {
        *self == *other
    }

    fn duplicate(&self) -> (copy: Self) {
        *self
    }
}

impl Label for u8 {
    fn same(&self, other: &Self) -> (b: bool) {
        *self == *other
    }

    fn duplicate(&self) -> (copy: Self) {
        *self
    }
}

impl Label for u32 {
    fn same(&self, other: &Self) -> (b: bool) {
        *self == *other
    }

    fn duplicate(&self) -> (copy: Self) {
        *self
    }
}

impl Label for u64 {
    fn same(&self, other: &Self) -> (b: bool) {
        *self == *other
    }

    fn duplicate(&self) -> (copy: Self) {
        *self
    }
}

impl Label for i32 {
    fn same(&self, other: &Self) -> (b: bool) {
        *self == *other
    }

    fn duplicate(&self) -> (copy: Self) {
        *self
    }
}

impl Label for i64 {
    fn same(&self, other: &Self) -> (b: bool) {
        *self == *other
    }

    fn duplicate(&self) -> (copy: Self) {
        *self
    }
}

/// Where `label` stands first in `labels`.
pub fn position<L: Label>(labels: &Vec<L>, label: &L) -> (found: Option<usize>)
    ensures
        match found {
            Some(k) => k < labels.len() && labels[k as int] == *label && forall|j: int|
                0 <= j < k ==> labels[j] != *label,
            None => !labels@.contains(*label),
        },
{
    let mut k: usize = 0;
    while k < labels.len()
        invariant
            k <= labels.len(),
            forall|j: int| 0 <= j < k ==> labels[j] != *label,
        decreases labels.len() - k,
    {
        if labels[k].same(label) {
            return Some(k);
        }
        k = k + 1;
    }
    None
}

} // verus!
