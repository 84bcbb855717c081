//! Keys that a tree can order.

use vstd::prelude::*;

verus! {

/// A scalar key with a total order.
///
/// The order is given by `rank`, which places every key on the integer line.
/// Two keys with the same rank are the same key, so the order is total and
/// strict comparison by rank decides equality as well.
pub trait OrderedKey: Copy + Sized {
    /// Position of the key in the total order.
    spec fn rank(self) -> int;

    /// Keys are identified by their rank.
    proof fn lemma_rank_injective(a: Self, b: Self)
        requires
            a.rank() == b.rank(),
        ensures
            a == b,
    ;

    /// Strict comparison: `self` comes before `other`.
    fn precedes(&self, other: &Self) -> (r: bool)
        ensures
            r == (self.rank() < other.rank()),
    ;
}

/// Whether two keys are the same, decided by comparing both ways.
pub fn same_key<T: OrderedKey>(a: &T, b: &T) -> (r: bool)
    ensures
        r == (*a == *b),
        r == (a.rank() == b.rank()),
{
    proof {
        if a.rank() == b.rank() {
            T::lemma_rank_injective(*a, *b);
        }
    }
    !a.precedes(b) && !b.precedes(a)
}

impl OrderedKey for i8 {
    open spec fn rank(self) -> int {
        self as int
    }

    proof fn lemma_rank_injective(a: Self, b: Self) {
    }

    fn precedes(&self, other: &Self) -> (r: bool) {
        *self < *other
    }
}

impl OrderedKey for i16 {
    open spec fn rank(self) -> int {
        self as int
    }

    proof fn lemma_rank_injective(a: Self, b: Self) {
    }

    fn precedes(&self, other: &Self) -> (r: bool) {
        *self < *other
    }
}

impl OrderedKey for i32 {
    open spec fn rank(self) -> int {
        self as int
    }

    proof fn lemma_rank_injective(a: Self, b: Self) {
    }

    fn precedes(&self, other: &Self) -> (r: bool) {
        *self < *other
    }
}

impl OrderedKey for i64 {
    open spec fn rank(self) -> int {
        self as int
    }

    proof fn lemma_rank_injective(a: Self, b: Self) {
    }

    fn precedes(&self, other: &Self) -> (r: bool) {
        *self < *other
    }
}

impl OrderedKey for isize {
    open spec fn rank(self) -> int {
        self as int
    }

    proof fn lemma_rank_injective(a: Self, b: Self) {
    }

    fn precedes(&self, other: &Self) -> (r: bool) {
        *self < *other
    }
}

impl OrderedKey for u8 {
    open spec fn rank(self) -> int {
        self as int
    }

    proof fn lemma_rank_injective(a: Self, b: Self) {
    }

    fn precedes(&self, other: &Self) -> (r: bool) {
        *self < *other
    }
}

impl OrderedKey for u16 {
    open spec fn rank(self) -> int {
        self as int
    }

    proof fn lemma_rank_injective(a: Self, b: Self) {
    }

    fn precedes(&self, other: &Self) -> (r: bool) {
        *self < *other
    }
}

impl OrderedKey for u32 {
    open spec fn rank(self) -> int {
        self as int
    }

    proof fn lemma_rank_injective(a: Self, b: Self) {
    }

    fn precedes(&self, other: &Self) -> (r: bool) {
        *self < *other
    }
}

impl OrderedKey for u64 {
    open spec fn rank(self) -> int {
        self as int
    }

    proof fn lemma_rank_injective(a: Self, b: Self) {
    }

    fn precedes(&self, other: &Self) -> (r: bool) {
        *self < *other
    }
}

impl OrderedKey for usize {
    open spec fn rank(self) -> int {
        self as int
    }

    proof fn lemma_rank_injective(a: Self, b: Self) {
    }

    fn precedes(&self, other: &Self) -> (r: bool) {
        *self < *other
    }
}

impl OrderedKey for i128 {
    open spec fn rank(self) -> int {
        self as int
    }

    proof fn lemma_rank_injective(a: Self, b: Self) {
    }

    fn precedes(&self, other: &Self) -> (r: bool) {
        *self < *other
    }
}

impl OrderedKey for u128 {
    open spec fn rank(self) -> int {
        self as int
    }

    proof fn lemma_rank_injective(a: Self, b: Self) {
    }

    fn precedes(&self, other: &Self) -> (r: bool) {
        *self < *other
    }
}

impl OrderedKey for char {
    open spec fn rank(self) -> int {
        self as int
    }

    proof fn lemma_rank_injective(a: Self, b: Self) {
    }

    fn precedes(&self, other: &Self) -> (r: bool) {
        *self < *other
    }
}

impl OrderedKey for bool {
    open spec fn rank(self) -> int {
        if self {
            1
        } else {
            0
        }
    }

    proof fn lemma_rank_injective(a: Self, b: Self) {
    }

    fn precedes(&self, other: &Self) -> (r: bool) {
        !*self && *other
    }
}

} // verus!
