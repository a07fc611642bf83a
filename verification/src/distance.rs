//! Distances between elements.
use vstd::prelude::*;

verus! {

/// A distance: a single precision number that is not NaN, held as its bits.
#[derive(Clone, Copy, Debug, PartialEq, Eq, Structural)]
pub struct Distance {
    pub bits: u32,
}

/// The sign bit of a single precision number.
pub const SIGN_BIT: u32 = 0x8000_0000;

/// Two elements closer than this count as the same element: the bits of ten times the machine
/// epsilon of single precision.
pub const DIST_EPSILON: u32 = 0x35A0_0000;

impl Distance {
    /// An integer with the order of the number: its magnitude bits, negated where the sign bit is
    /// set. The two zeros are equal in it, as they are as numbers.
    pub open spec fn order(self) -> int {
        if self.bits < SIGN_BIT {
            self.bits as int
        } else {
            -(self.bits - SIGN_BIT)
        }
    }

    /// Computes [`order`](Distance::order).
    pub fn to_order(self) -> (r: i32)
        ensures
            r == self.order(),
    {
        if self.bits < SIGN_BIT {
            self.bits as i32
        } else {
            -((self.bits - SIGN_BIT) as i32)
        }
    }

    /// Whether the distance is less than the other one.
    pub fn is_less(self, other: Distance) -> (r: bool)
        ensures
            r == (self.order() < other.order()),
    {
        self.to_order() < other.to_order()
    }
}

/// Whether the distance is one between elements that count as the same.
pub open spec fn negligible(d: Distance) -> bool {
    d.order() < DIST_EPSILON
}

/// Computes [`negligible`].
pub fn is_negligible(d: Distance) -> (r: bool)
    ensures
        r == negligible(d),
{
    d.to_order() < DIST_EPSILON as i32
}

/// What elements offer to be indexed. The distance of two elements depends on the two alone.
pub trait HasDistance {
    /// The distance from `self` to `other`. Nothing is known of it unless an implementation says
    /// what it is.
    open spec fn spec_dist(&self, other: &Self) -> Distance {
        arbitrary()
    }

    /// Computes the distance from `self` to `other`.
    fn dist(&self, other: &Self) -> (d: Distance)
        ensures
            d == self.spec_dist(other),
    ;
}

/// The distance of every element to `goal`.
pub open spec fn distances_to<T: HasDistance>(elements: Seq<T>, goal: T) -> Seq<Distance> {
    Seq::new(elements.len(), |i: int| elements[i].spec_dist(&goal))
}

/// The distance of `from` to every element.
pub open spec fn distances_from<T: HasDistance>(from: T, elements: Seq<T>) -> Seq<Distance> {
    Seq::new(elements.len(), |i: int| from.spec_dist(&elements[i]))
}

/// Whether one single precision number is less than another, told from their bits: by sign
/// first, and by magnitude within one sign. The two zeros are equal.
pub open spec fn bits_less(a: u32, b: u32) -> bool {
    if a < SIGN_BIT && b < SIGN_BIT {
        a < b
    } else if a >= SIGN_BIT && b >= SIGN_BIT {
        b < a
    } else {
        a >= SIGN_BIT && !(a == SIGN_BIT && b == 0)
    }
}

/// Distances are ordered as the numbers that they are. Only the two zeros are equal without being
/// the same.
pub proof fn law_distance_order(a: Distance, b: Distance)
    ensures
        a.order() < b.order() <==> bits_less(a.bits, b.bits),
        a.order() == b.order() <==> a == b || (a.order() == 0 && b.order() == 0),
{
}

/// A distance is negligible exactly where it is less than ten times the machine epsilon of single
/// precision, which is the number with these bits.
pub proof fn law_negligible(d: Distance)
    ensures
        negligible(d) <==> bits_less(d.bits, 0x35A0_0000),
{
}

} // verus!
