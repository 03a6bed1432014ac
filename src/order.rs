use vstd::prelude::*;

verus! {

/// The outcome of a three-way comparison.
pub enum Cmp {
    Less,
    Equal,
    Greater,
}

/// A total order on the values that a `MultiAVL` holds, with an executable
/// three-way comparison that agrees with it, and a way to copy a value out
/// of the tree.
pub trait TotalOrder: Sized {
    spec fn le(self, other: Self) -> bool;

    proof fn reflexive(x: Self)
        ensures
            x.le(x),
    ;

    proof fn transitive(x: Self, y: Self, z: Self)
        requires
            x.le(y),
            y.le(z),
        ensures
            x.le(z),
    ;

    proof fn antisymmetric(x: Self, y: Self)
        requires
            x.le(y),
            y.le(x),
        ensures
            x == y,
    ;

    proof fn total(x: Self, y: Self)
        ensures
            x.le(y) || y.le(x),
    ;

    fn compare(&self, other: &Self) -> (c: Cmp)
        ensures
            (c is Less) == (self.le(*other) && *self != *other),
            (c is Equal) == (*self == *other),
            (c is Greater) == (other.le(*self) && *self != *other),
    ;

    fn duplicate(&self) -> (r: Self)
        ensures
            r == *self,
    ;
}

/// Strictly below in the order.
pub open spec fn lt<T: TotalOrder>(a: T, b: T) -> bool {
    a.le(b) && a != b
}

pub broadcast proof fn lemma_le_transitive<T: TotalOrder>(x: T, y: T, z: T)
    requires
        #[trigger] x.le(y),
        #[trigger] y.le(z),
    ensures
        x.le(z),
{
    T::transitive(x, y, z);
}

pub broadcast proof fn lemma_le_total<T: TotalOrder>(x: T, y: T)
    ensures
        #[trigger] x.le(y) || y.le(x),
        x.le(y) && y.le(x) ==> x == y,
        x.le(x),
{
    T::total(x, y);
    T::reflexive(x);
    if x.le(y) && y.le(x) {
        T::antisymmetric(x, y);
    }
}

pub broadcast group group_total_order {
    lemma_le_transitive,
    lemma_le_total,
}

impl TotalOrder for i32 {
    open spec fn le(self, other: Self) -> bool {
        self <= other
    }

    proof fn reflexive(x: Self) {
    }

    proof fn transitive(x: Self, y: Self, z: Self) {
    }

    proof fn antisymmetric(x: Self, y: Self) {
    }

    proof fn total(x: Self, y: Self) {
    }

    fn compare(&self, other: &Self) -> (c: Cmp) {
        if *self < *other {
            Cmp::Less
        } else if *self == *other {
            Cmp::Equal
        } else {
            Cmp::Greater
        }
    }

    fn duplicate(&self) -> (r: Self) {
        *self
    }
}

} // verus!
