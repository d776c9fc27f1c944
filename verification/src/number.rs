//! Floating-point quantities as the engine holds them: the IEEE 754 bit pattern and the order that
//! the standard gives to it.
//!
//! Weights, resonances and ticks are produced elsewhere (see [`crate::arithmetic`]); here they are
//! only compared. Comparing two patterns is integer work: the magnitude of a number grows with
//! its pattern, the two zeros are equal, and a pattern that is not a number compares with nothing.

use vstd::prelude::*;

verus! {

/// Sign bit of a double-precision pattern.
pub const DOUBLE_SIGN: u64 = 0x8000_0000_0000_0000;

/// Pattern of the double-precision infinity: every larger magnitude is not a number.
pub const DOUBLE_INFINITY: u64 = 0x7ff0_0000_0000_0000;

/// Sign bit of a single-precision pattern.
pub const SINGLE_SIGN: u32 = 0x8000_0000;

/// Pattern of the single-precision infinity: every larger magnitude is not a number.
pub const SINGLE_INFINITY: u32 = 0x7f80_0000;

/// A double-precision quantity: salience, decay rate, weight, score, tick.
#[derive(Clone, Copy, Debug, PartialEq, Eq, Structural)]
pub struct Double {
    pub bits: u64,
}

/// A single-precision quantity: a component of an embedding, a resonance, a drift.
#[derive(Clone, Copy, Debug, PartialEq, Eq, Structural)]
pub struct Single {
    pub bits: u32,
}

/// A dense embedding.
pub type Vector = Vec<Single>;

impl Double {
    /// The pattern without its sign.
    pub open spec fn magnitude(self) -> int {
        if self.bits >= DOUBLE_SIGN {
            self.bits - DOUBLE_SIGN
        } else {
            self.bits as int
        }
    }

    /// Whether the pattern is not a number.
    pub open spec fn is_nan(self) -> bool {
        self.magnitude() > DOUBLE_INFINITY
    }

    /// Position on the number line: two numbers compare as their ranks do.
    pub open spec fn rank(self) -> int {
        if self.bits >= DOUBLE_SIGN {
            -self.magnitude()
        } else {
            self.magnitude()
        }
    }

    /// `self < other`.
    pub open spec fn below(self, other: Double) -> bool {
        !self.is_nan() && !other.is_nan() && self.rank() < other.rank()
    }

    /// `self <= other`.
    pub open spec fn at_most(self, other: Double) -> bool {
        !self.is_nan() && !other.is_nan() && self.rank() <= other.rank()
    }

    /// `self == other`: the two zeros are equal, what is not a number equals nothing.
    pub open spec fn same(self, other: Double) -> bool {
        !self.is_nan() && !other.is_nan() && self.rank() == other.rank()
    }

    /// The key that rankings use: the rank, with what is not a number behind every number.
    pub open spec fn key(self) -> int {
        if self.is_nan() {
            -DOUBLE_SIGN
        } else {
            self.rank()
        }
    }

    /// The larger of the two; one that is not a number gives way to the other.
    pub open spec fn larger(self, other: Double) -> Double {
        if self.is_nan() || self.below(other) {
            other
        } else {
            self
        }
    }

    /// Whether the pattern is a number below infinity in magnitude.
    pub open spec fn finite(self) -> bool {
        self.magnitude() < DOUBLE_INFINITY
    }

    /// Whether the pattern is a positive number below infinity.
    pub open spec fn positive(self) -> bool {
        0 < self.bits < DOUBLE_INFINITY
    }

    /// The number with the opposite sign.
    pub open spec fn opposite(self) -> Double {
        if self.bits >= DOUBLE_SIGN {
            Double { bits: (self.bits - DOUBLE_SIGN) as u64 }
        } else {
            Double { bits: (self.bits + DOUBLE_SIGN) as u64 }
        }
    }

    /// The number, held between two bounds.
    pub open spec fn within(self, low: Double, high: Double) -> Double {
        if self.below(low) {
            low
        } else if high.below(self) {
            high
        } else {
            self
        }
    }

    /// Negative infinity.
    pub open spec fn lowest() -> Double {
        Double { bits: 0xfff0_0000_0000_0000 }
    }

    /// Positive zero.
    pub open spec fn nought() -> Double {
        Double { bits: 0 }
    }

    /// Positive zero.
    pub fn zero() -> (r: Double)
        ensures
            r == Double::nought(),
    {
        Double { bits: 0 }
    }

    /// The number with the opposite sign.
    pub fn negated(self) -> (r: Double)
        ensures
            r == self.opposite(),
    {
        if self.bits >= DOUBLE_SIGN {
            Double { bits: self.bits - DOUBLE_SIGN }
        } else {
            Double { bits: self.bits + DOUBLE_SIGN }
        }
    }

    /// The number, held between two bounds; what is not a number stays as it is.
    pub fn clamped(self, low: Double, high: Double) -> (r: Double)
        ensures
            r == self.within(low, high),
    {
        if self.lt(low) {
            low
        } else if high.lt(self) {
            high
        } else {
            self
        }
    }

    /// Whether the pattern is not a number.
    pub fn not_a_number(self) -> (r: bool)
        ensures
            r == self.is_nan(),
    {
        if self.bits >= DOUBLE_SIGN {
            self.bits - DOUBLE_SIGN > DOUBLE_INFINITY
        } else {
            self.bits > DOUBLE_INFINITY
        }
    }

    /// Compares the ranks of two numbers.
    fn rank_below(self, other: Double) -> (r: bool)
        ensures
            r == (self.rank() < other.rank()),
    {
        if self.bits >= DOUBLE_SIGN {
            if other.bits >= DOUBLE_SIGN {
                self.bits > other.bits
            } else {
                self.bits > DOUBLE_SIGN || other.bits > 0
            }
        } else if other.bits >= DOUBLE_SIGN {
            false
        } else {
            self.bits < other.bits
        }
    }

    /// `self < other`.
    pub fn lt(self, other: Double) -> (r: bool)
        ensures
            r == self.below(other),
    {
        !self.not_a_number() && !other.not_a_number() && self.rank_below(other)
    }

    /// `self <= other`.
    pub fn le(self, other: Double) -> (r: bool)
        ensures
            r == self.at_most(other),
    {
        !self.not_a_number() && !other.not_a_number() && !other.rank_below(self)
    }

    /// `self == other`.
    pub fn equals(self, other: Double) -> (r: bool)
        ensures
            r == self.same(other),
    {
        self.le(other) && other.le(self)
    }

    /// Whether `self` ranks strictly ahead of `other`, best first.
    pub fn ahead_of(self, other: Double) -> (r: bool)
        ensures
            r == (self.key() > other.key()),
    {
        if self.not_a_number() {
            false
        } else if other.not_a_number() {
            true
        } else {
            other.rank_below(self)
        }
    }

    /// The larger of the two; one that is not a number gives way to the other.
    pub fn max(self, other: Double) -> (r: Double)
        ensures
            r == self.larger(other),
    {
        if self.not_a_number() || self.lt(other) {
            other
        } else {
            self
        }
    }
}

impl Single {
    /// The pattern without its sign.
    pub open spec fn magnitude(self) -> int {
        if self.bits >= SINGLE_SIGN {
            self.bits - SINGLE_SIGN
        } else {
            self.bits as int
        }
    }

    /// Whether the pattern is not a number.
    pub open spec fn is_nan(self) -> bool {
        self.magnitude() > SINGLE_INFINITY
    }

    /// Position on the number line: two numbers compare as their ranks do.
    pub open spec fn rank(self) -> int {
        if self.bits >= SINGLE_SIGN {
            -self.magnitude()
        } else {
            self.magnitude()
        }
    }

    /// `self < other`.
    pub open spec fn below(self, other: Single) -> bool {
        !self.is_nan() && !other.is_nan() && self.rank() < other.rank()
    }

    /// `self <= other`.
    pub open spec fn at_most(self, other: Single) -> bool {
        !self.is_nan() && !other.is_nan() && self.rank() <= other.rank()
    }

    /// `self == other`: the two zeros are equal, what is not a number equals nothing.
    pub open spec fn same(self, other: Single) -> bool {
        !self.is_nan() && !other.is_nan() && self.rank() == other.rank()
    }

    /// The key that rankings use: the rank, with what is not a number behind every number.
    pub open spec fn key(self) -> int {
        if self.is_nan() {
            -SINGLE_SIGN
        } else {
            self.rank()
        }
    }

    /// The larger of the two; one that is not a number gives way to the other.
    pub open spec fn larger(self, other: Single) -> Single {
        if self.is_nan() || self.below(other) {
            other
        } else {
            self
        }
    }

    /// Whether the pattern is a number below infinity in magnitude.
    pub open spec fn finite(self) -> bool {
        self.magnitude() < SINGLE_INFINITY
    }

    /// The number without its sign.
    pub open spec fn unsigned(self) -> Single {
        if self.bits >= SINGLE_SIGN {
            Single { bits: (self.bits - SINGLE_SIGN) as u32 }
        } else {
            self
        }
    }

    /// Positive zero.
    pub open spec fn nought() -> Single {
        Single { bits: 0 }
    }

    /// Negative infinity.
    pub open spec fn lowest() -> Single {
        Single { bits: 0xff80_0000 }
    }

    /// Positive zero.
    pub fn zero() -> (r: Single)
        ensures
            r == Single::nought(),
    {
        Single { bits: 0 }
    }

    /// The number without its sign.
    pub fn abs(self) -> (r: Single)
        ensures
            r == self.unsigned(),
    {
        if self.bits >= SINGLE_SIGN {
            Single { bits: self.bits - SINGLE_SIGN }
        } else {
            self
        }
    }

    /// Negative infinity.
    pub fn negative_infinity() -> (r: Single)
        ensures
            r == Single::lowest(),
    {
        Single { bits: 0xff80_0000 }
    }

    /// Whether the pattern is not a number.
    pub fn not_a_number(self) -> (r: bool)
        ensures
            r == self.is_nan(),
    {
        if self.bits >= SINGLE_SIGN {
            self.bits - SINGLE_SIGN > SINGLE_INFINITY
        } else {
            self.bits > SINGLE_INFINITY
        }
    }

    /// Compares the ranks of two numbers.
    fn rank_below(self, other: Single) -> (r: bool)
        ensures
            r == (self.rank() < other.rank()),
    {
        if self.bits >= SINGLE_SIGN {
            if other.bits >= SINGLE_SIGN {
                self.bits > other.bits
            } else {
                self.bits > SINGLE_SIGN || other.bits > 0
            }
        } else if other.bits >= SINGLE_SIGN {
            false
        } else {
            self.bits < other.bits
        }
    }

    /// `self < other`.
    pub fn lt(self, other: Single) -> (r: bool)
        ensures
            r == self.below(other),
    {
        !self.not_a_number() && !other.not_a_number() && self.rank_below(other)
    }

    /// `self <= other`.
    pub fn le(self, other: Single) -> (r: bool)
        ensures
            r == self.at_most(other),
    {
        !self.not_a_number() && !other.not_a_number() && !other.rank_below(self)
    }

    /// `self == other`.
    pub fn equals(self, other: Single) -> (r: bool)
        ensures
            r == self.same(other),
    {
        self.le(other) && other.le(self)
    }

    /// Whether `self` ranks strictly ahead of `other`, best first.
    pub fn ahead_of(self, other: Single) -> (r: bool)
        ensures
            r == (self.key() > other.key()),
    {
        if self.not_a_number() {
            false
        } else if other.not_a_number() {
            true
        } else {
            other.rank_below(self)
        }
    }

    /// The larger of the two; one that is not a number gives way to the other.
    pub fn max(self, other: Single) -> (r: Single)
        ensures
            r == self.larger(other),
    {
        if self.not_a_number() || self.lt(other) {
            other
        } else {
            self
        }
    }
}

/// Copies an embedding.
pub fn copy_vector(v: &Vector) -> (r: Vector)
    ensures
        r@ == v@,
{
    let r = v.clone();
    assert(r@ =~= v@);
    r
}

/// Copies a list of embeddings.
pub fn copy_vectors(v: &Vec<Vector>) -> (r: Vec<Vector>)
    ensures
        vectors_of(r@) == vectors_of(v@),
        r.len() == v.len(),
{
    let mut out: Vec<Vector> = Vec::new();
    let mut i: usize = 0;
    while i < v.len()
        invariant
            i <= v.len(),
            out.len() == i,
            forall|j: int| 0 <= j < i ==> (#[trigger] out@[j])@ == v@[j]@,
        decreases v.len() - i,
    {
        out.push(copy_vector(&v[i]));
        i += 1;
    }
    assert(vectors_of(out@) =~= vectors_of(v@));
    out
}

/// The components of each embedding of a list.
pub open spec fn vectors_of(s: Seq<Vector>) -> Seq<Seq<Single>> {
    Seq::new(s.len(), |i: int| s[i]@)
}

/// The order of doubles: positive numbers are ordered as their patterns are and negative ones the other
/// way round, every negative number is below every positive one, the two zeros are the same, and what is
/// not a number compares with nothing, not even itself.
pub proof fn doubles_are_ordered(x: Double, y: Double)
    ensures
        x.bits < y.bits && y.bits <= DOUBLE_INFINITY ==> x.below(y),
        DOUBLE_SIGN <= x.bits && x.bits < y.bits && y.bits <= 0xfff0_0000_0000_0000 ==> y.below(x),
        DOUBLE_SIGN < x.bits && x.bits <= 0xfff0_0000_0000_0000 && y.bits <= DOUBLE_INFINITY
            ==> x.below(y),
        (Double { bits: DOUBLE_SIGN }).same(Double { bits: 0 }),
        x.at_most(y) <==> x.below(y) || x.same(y),
        !(x.below(y) && y.below(x)),
        !x.is_nan() && !y.is_nan() ==> x.below(y) || x.same(y) || y.below(x),
        x.is_nan() <==> !x.same(x),
        x.is_nan() ==> !x.below(y) && !y.below(x) && !x.same(y) && !x.at_most(y),
{
}

/// The order of singles, as that of doubles.
pub proof fn singles_are_ordered(x: Single, y: Single)
    ensures
        x.bits < y.bits && y.bits <= SINGLE_INFINITY ==> x.below(y),
        SINGLE_SIGN <= x.bits && x.bits < y.bits && y.bits <= 0xff80_0000 ==> y.below(x),
        SINGLE_SIGN < x.bits && x.bits <= 0xff80_0000 && y.bits <= SINGLE_INFINITY ==> x.below(y),
        (Single { bits: SINGLE_SIGN }).same(Single { bits: 0 }),
        x.at_most(y) <==> x.below(y) || x.same(y),
        !(x.below(y) && y.below(x)),
        !x.is_nan() && !y.is_nan() ==> x.below(y) || x.same(y) || y.below(x),
        x.is_nan() <==> !x.same(x),
        x.is_nan() ==> !x.below(y) && !y.below(x) && !x.same(y) && !x.at_most(y),
{
}

/// The larger of two doubles is one of them, and neither is above it; what is not a number gives way. A
/// ranking puts the larger number first, and what is not a number last.
pub proof fn the_larger_double_wins(x: Double, y: Double, low: Double, high: Double)
    ensures
        x.larger(y) == x || x.larger(y) == y,
        !x.is_nan() && !y.is_nan() ==> x.at_most(x.larger(y)) && y.at_most(x.larger(y)),
        x.is_nan() ==> x.larger(y) == y,
        !x.is_nan() && y.is_nan() ==> x.larger(y) == x,
        x.same(y) ==> x.larger(y) == x,
        x.below(y) ==> x.key() < y.key(),
        x.same(y) ==> x.key() == y.key(),
        x.is_nan() && !y.is_nan() ==> x.key() < y.key(),
        low.at_most(high) && !x.is_nan() ==> low.at_most(x.within(low, high)) && x.within(
            low,
            high,
        ).at_most(high),
        low.at_most(x) && x.at_most(high) ==> x.within(low, high) == x,
        !x.is_nan() && x.rank() == 0 ==> x.opposite().same(x),
        x.below(y) ==> y.opposite().below(x.opposite()),
        x.opposite().opposite() == x,
{
}

/// The larger of two singles is one of them, and neither is above it; what is not a number gives way. A
/// ranking puts the larger number first, and what is not a number last.
pub proof fn the_larger_single_wins(x: Single, y: Single)
    ensures
        x.larger(y) == x || x.larger(y) == y,
        !x.is_nan() && !y.is_nan() ==> x.at_most(x.larger(y)) && y.at_most(x.larger(y)),
        x.is_nan() ==> x.larger(y) == y,
        !x.is_nan() && y.is_nan() ==> x.larger(y) == x,
        x.same(y) ==> x.larger(y) == x,
        x.below(y) ==> x.key() < y.key(),
        x.same(y) ==> x.key() == y.key(),
        x.is_nan() && !y.is_nan() ==> x.key() < y.key(),
        !x.is_nan() ==> Single::nought().at_most(x.unsigned()),
        x.unsigned().bits < SINGLE_SIGN,
        Single::nought().at_most(x) && x.bits != SINGLE_SIGN ==> x.unsigned() == x,
        x.below(Single::nought()) ==> x.unsigned().rank() == -x.rank(),
{
}

/// A number is finite exactly if it lies between the infinities, and positive exactly if it is finite and
/// above zero.
pub proof fn finite_numbers_lie_between_the_infinities(x: Double, y: Single)
    ensures
        x.finite() <==> Double::lowest().below(x) && x.below(Double { bits: 0x7ff0_0000_0000_0000 }),
        x.positive() <==> x.finite() && Double::nought().below(x),
        y.finite() <==> Single::lowest().below(y) && y.below(Single { bits: 0x7f80_0000 }),
{
}

} // verus!
