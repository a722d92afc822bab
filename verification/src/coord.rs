use vstd::prelude::*;
use vstd::std_specs::cmp::PartialEqSpecImpl;

verus! {

/// The pattern with only the sign bit set.
pub const SIGN_BIT: u64 = 0x8000_0000_0000_0000;

/// The largest magnitude that is not a NaN: positive infinity.
pub const INFINITY_MAGNITUDE: u64 = 0x7FF0_0000_0000_0000;

/// A binary64 number, held by its bit pattern.
///
/// Comparisons follow the number the pattern encodes: NaNs compare false with
/// everything (also with themselves), and the two zeros compare equal.
#[derive(Clone, Copy, Debug)]
pub struct Coord {
    pub bits: u64,
}

impl Coord {
    /// The bit pattern without its sign bit.
    pub open spec fn magnitude(self) -> int {
        (self.bits % SIGN_BIT) as int
    }

    pub open spec fn sign_set(self) -> bool {
        self.bits >= SIGN_BIT
    }

    /// A pattern whose exponent bits are all set and whose fraction is not zero.
    pub open spec fn spec_is_nan(self) -> bool {
        self.magnitude() > INFINITY_MAGNITUDE
    }

    /// The position of the encoded number on the number line: the order of
    /// `rank` is the order of the numbers, and both zeros have rank 0.
    pub open spec fn rank(self) -> int {
        if self.sign_set() {
            -self.magnitude()
        } else {
            self.magnitude()
        }
    }

    /// `self <= other` on the encoded numbers.
    pub open spec fn spec_le(self, other: Coord) -> bool {
        !self.spec_is_nan() && !other.spec_is_nan() && self.rank() <= other.rank()
    }

    /// `self < other` on the encoded numbers.
    pub open spec fn spec_lt(self, other: Coord) -> bool {
        !self.spec_is_nan() && !other.spec_is_nan() && self.rank() < other.rank()
    }

    /// `self == other` on the encoded numbers.
    pub open spec fn spec_num_eq(self, other: Coord) -> bool {
        !self.spec_is_nan() && !other.spec_is_nan() && self.rank() == other.rank()
    }

    /// The smaller of two numbers; a NaN loses to any number, and of two
    /// equal numbers the first is kept.
    pub open spec fn spec_min(self, other: Coord) -> Coord {
        if self.spec_is_nan() {
            other
        } else if other.spec_is_nan() {
            self
        } else if other.rank() < self.rank() {
            other
        } else {
            self
        }
    }

    /// The larger of two numbers; a NaN loses to any number, and of two
    /// equal numbers the first is kept.
    pub open spec fn spec_max(self, other: Coord) -> Coord {
        if self.spec_is_nan() {
            other
        } else if other.spec_is_nan() {
            self
        } else if self.rank() < other.rank() {
            other
        } else {
            self
        }
    }

    pub fn from_bits(bits: u64) -> (c: Coord)
        ensures
            c.bits == bits,
    {
        Coord { bits }
    }

    pub fn to_bits(&self) -> (bits: u64)
        ensures
            bits == self.bits,
    {
        self.bits
    }

    /// The number zero (positive sign).
    pub fn zero() -> (c: Coord)
        ensures
            c.bits == 0,
            c.rank() == 0,
            !c.spec_is_nan(),
    {
        Coord { bits: 0 }
    }

    pub fn is_nan(&self) -> (r: bool)
        ensures
            r == self.spec_is_nan(),
    {
        self.bits % SIGN_BIT > INFINITY_MAGNITUDE
    }

    /// The position of the encoded number on the number line (see `rank`).
    pub fn rank_exec(&self) -> (r: i64)
        ensures
            r == self.rank(),
    {
        let m: u64 = self.bits % SIGN_BIT;
        if self.bits >= SIGN_BIT {
            -(m as i64)
        } else {
            m as i64
        }
    }

    pub fn le(&self, other: &Coord) -> (r: bool)
        ensures
            r == self.spec_le(*other),
    {
        !self.is_nan() && !other.is_nan() && self.rank_exec() <= other.rank_exec()
    }

    pub fn lt(&self, other: &Coord) -> (r: bool)
        ensures
            r == self.spec_lt(*other),
    {
        !self.is_nan() && !other.is_nan() && self.rank_exec() < other.rank_exec()
    }

    pub fn num_eq(&self, other: &Coord) -> (r: bool)
        ensures
            r == self.spec_num_eq(*other),
    {
        !self.is_nan() && !other.is_nan() && self.rank_exec() == other.rank_exec()
    }

    pub fn min(&self, other: &Coord) -> (r: Coord)
        ensures
            r == self.spec_min(*other),
    {
        if self.is_nan() {
            *other
        } else if other.is_nan() {
            *self
        } else if other.rank_exec() < self.rank_exec() {
            *other
        } else {
            *self
        }
    }

    pub fn max(&self, other: &Coord) -> (r: Coord)
        ensures
            r == self.spec_max(*other),
    {
        if self.is_nan() {
            *other
        } else if other.is_nan() {
            *self
        } else if self.rank_exec() < other.rank_exec() {
            *other
        } else {
            *self
        }
    }
}

/// `<=` on coordinates is transitive.
pub proof fn law_le_transitive(a: Coord, b: Coord, c: Coord)
    requires
        a.spec_le(b),
        b.spec_le(c),
    ensures
        a.spec_le(c),
{
}

/// Two numbers are equal exactly when each is at most the other; a NaN is
/// equal to nothing, itself included.
pub proof fn law_num_eq_is_mutual_le(a: Coord, b: Coord)
    ensures
        a.spec_num_eq(b) <==> (a.spec_le(b) && b.spec_le(a)),
        a.spec_is_nan() ==> !a.spec_num_eq(a),
{
}

/// The two zeros are equal numbers.
pub proof fn law_zeros_are_equal(pos: Coord, neg: Coord)
    requires
        pos.bits == 0,
        neg.bits == SIGN_BIT,
    ensures
        pos.spec_num_eq(neg),
{
}

/// `<=` between numbers that are not NaN is total.
pub proof fn law_le_total(a: Coord, b: Coord)
    requires
        !a.spec_is_nan(),
        !b.spec_is_nan(),
    ensures
        a.spec_le(b) || b.spec_le(a),
{
}

/// Of two numbers, `min` gives one of them that is at most both, and `max`
/// one that is at least both; against a NaN, both give the other argument.
pub proof fn law_min_max(a: Coord, b: Coord)
    ensures
        !a.spec_is_nan() && !b.spec_is_nan() ==> {
            &&& a.spec_min(b).spec_le(a) && a.spec_min(b).spec_le(b)
            &&& a.spec_le(a.spec_max(b)) && b.spec_le(a.spec_max(b))
            &&& (a.spec_min(b) == a || a.spec_min(b) == b)
            &&& (a.spec_max(b) == a || a.spec_max(b) == b)
        },
        a.spec_is_nan() ==> a.spec_min(b) == b && a.spec_max(b) == b,
        b.spec_is_nan() && !a.spec_is_nan() ==> a.spec_min(b) == a && a.spec_max(b) == a,
{
}

/// `==` compares the encoded numbers, as the hardware does.
impl PartialEq for Coord {
    fn eq(&self, other: &Coord) -> (r: bool) {
        self.num_eq(other)
    }
}

impl PartialEqSpecImpl for Coord {
    open spec fn obeys_eq_spec() -> bool {
        true
    }

    open spec fn eq_spec(&self, other: &Coord) -> bool {
        self.spec_num_eq(*other)
    }
}

} // verus!
