//! The arithmetic that the engine is run with.
//!
//! Every formula of the engine (weights, scores, blends, variances) is written out in this library
//! over the operations of [`Arithmetic`]; what one operation yields on two bit patterns is the
//! processor's affair. A host implements the trait with its floating-point unit.
//!
//! The trait promises nothing by itself. What the library needs of an implementation is [`lawful`]:
//! each operation answers the same arguments in the same way, and the facts of floating-point
//! arithmetic that the engine's assertions and laws rest on. All of it is said of answers that were
//! given, so an implementation shows it from what its methods ensure.
//!
//! Formulas are stated over names: [`sum64`] is the answer of `add64`, and so on. Of an operation
//! that gives no answer nothing is known; there a name is an argument or a constant, so that what
//! holds of every answer holds of the name.

use crate::entropy::HALF;
use crate::entropy::LN2;
use crate::entropy::ONE;
use crate::entropy::TWICE_LEAST_NORMAL;
use crate::entropy::TWO;
use crate::modes::ONE_SINGLE;
use crate::number::Double;
use crate::number::Single;
use crate::number::Vector;
use crate::number::DOUBLE_SIGN;
use vstd::prelude::*;

verus! {

/// Floating-point operations on bit patterns, and the two vector primitives that are built on them.
pub trait Arithmetic {
    /// The sum of two doubles.
    fn add64(&self, x: Double, y: Double) -> Double;

    /// The difference of two doubles.
    fn sub64(&self, x: Double, y: Double) -> Double;

    /// The product of two doubles.
    fn mul64(&self, x: Double, y: Double) -> Double;

    /// The quotient of two doubles.
    fn div64(&self, x: Double, y: Double) -> Double;

    /// The sum of two singles.
    fn add32(&self, x: Single, y: Single) -> Single;

    /// The difference of two singles.
    fn sub32(&self, x: Single, y: Single) -> Single;

    /// The product of two singles.
    fn mul32(&self, x: Single, y: Single) -> Single;

    /// The quotient of two singles.
    fn div32(&self, x: Single, y: Single) -> Single;

    /// The square root of a single.
    fn sqrt32(&self, x: Single) -> Single;

    /// The natural exponential of a double.
    fn exp64(&self, x: Double) -> Double;

    /// The single as a double, exactly.
    fn widen(&self, x: Single) -> Double;

    /// The count as a double.
    fn count64(&self, x: u64) -> Double;

    /// The count as a single.
    fn count32(&self, x: u64) -> Single;

    /// The nearest count: half away from zero, negatives and what is not a number to zero, saturating.
    fn round64(&self, x: Double) -> u64;

    /// The number that a text spells, if it spells one.
    fn parse64(&self, text: &str) -> Option<Double>;

    /// A number with a fixed count of digits behind the decimal point.
    fn fixed64(&self, x: Double, digits: usize) -> String;

    /// Cosine similarity of two embeddings, in `[-1, 1]`.
    fn cosine(&self, x: &Vector, y: &Vector) -> Single;

    /// Component-wise mean of embeddings of one dimension.
    fn mean(&self, rows: &Vec<Vector>) -> Vector;
}

/// The sum of two doubles, as `arith` computes it.
pub open spec fn sum64<A: Arithmetic>(arith: A, x: Double, y: Double) -> Double {
    if exists|r: Double| call_ensures(A::add64, (&arith, x, y), r) {
        choose|r: Double| call_ensures(A::add64, (&arith, x, y), r)
    } else {
        x
    }
}

/// The difference of two doubles, as `arith` computes it.
pub open spec fn difference64<A: Arithmetic>(arith: A, x: Double, y: Double) -> Double {
    if exists|r: Double| call_ensures(A::sub64, (&arith, x, y), r) {
        choose|r: Double| call_ensures(A::sub64, (&arith, x, y), r)
    } else {
        Double::nought()
    }
}

/// The product of two doubles, as `arith` computes it.
pub open spec fn product64<A: Arithmetic>(arith: A, x: Double, y: Double) -> Double {
    if exists|r: Double| call_ensures(A::mul64, (&arith, x, y), r) {
        choose|r: Double| call_ensures(A::mul64, (&arith, x, y), r)
    } else {
        x
    }
}

/// The quotient of two doubles, as `arith` computes it.
pub open spec fn quotient64<A: Arithmetic>(arith: A, x: Double, y: Double) -> Double {
    if exists|r: Double| call_ensures(A::div64, (&arith, x, y), r) {
        choose|r: Double| call_ensures(A::div64, (&arith, x, y), r)
    } else {
        x
    }
}

/// The sum of two singles, as `arith` computes it.
pub open spec fn sum32<A: Arithmetic>(arith: A, x: Single, y: Single) -> Single {
    choose|r: Single| call_ensures(A::add32, (&arith, x, y), r)
}

/// The difference of two singles, as `arith` computes it.
pub open spec fn difference32<A: Arithmetic>(arith: A, x: Single, y: Single) -> Single {
    if exists|r: Single| call_ensures(A::sub32, (&arith, x, y), r) {
        choose|r: Single| call_ensures(A::sub32, (&arith, x, y), r)
    } else {
        Single::nought()
    }
}

/// The product of two singles, as `arith` computes it.
pub open spec fn product32<A: Arithmetic>(arith: A, x: Single, y: Single) -> Single {
    choose|r: Single| call_ensures(A::mul32, (&arith, x, y), r)
}

/// The quotient of two singles, as `arith` computes it.
pub open spec fn quotient32<A: Arithmetic>(arith: A, x: Single, y: Single) -> Single {
    if exists|r: Single| call_ensures(A::div32, (&arith, x, y), r) {
        choose|r: Single| call_ensures(A::div32, (&arith, x, y), r)
    } else {
        x
    }
}

/// The square root of a single, as `arith` computes it.
pub open spec fn root32<A: Arithmetic>(arith: A, x: Single) -> Single {
    choose|r: Single| call_ensures(A::sqrt32, (&arith, x), r)
}

/// The natural exponential of a double, as `arith` computes it.
pub open spec fn power64<A: Arithmetic>(arith: A, x: Double) -> Double {
    choose|r: Double| call_ensures(A::exp64, (&arith, x), r)
}

/// The single as a double, exactly, as `arith` computes it.
pub open spec fn widened<A: Arithmetic>(arith: A, x: Single) -> Double {
    choose|r: Double| call_ensures(A::widen, (&arith, x), r)
}

/// The count as a double, as `arith` computes it.
pub open spec fn double_of<A: Arithmetic>(arith: A, x: u64) -> Double {
    choose|r: Double| call_ensures(A::count64, (&arith, x), r)
}

/// The count as a single, as `arith` computes it.
pub open spec fn single_of<A: Arithmetic>(arith: A, x: u64) -> Single {
    if exists|r: Single| call_ensures(A::count32, (&arith, x), r) {
        choose|r: Single| call_ensures(A::count32, (&arith, x), r)
    } else {
        Single { bits: ONE_SINGLE }
    }
}

/// The nearest count: half away from zero, negatives and what is not a number to zero, saturating, as `arith` computes it.
pub open spec fn rounded<A: Arithmetic>(arith: A, x: Double) -> u64 {
    choose|r: u64| call_ensures(A::round64, (&arith, x), r)
}

/// The number that `text` spells, as `arith` reads it.
pub open spec fn parsed<A: Arithmetic>(arith: A, text: Seq<char>) -> Option<Double> {
    choose|r: Option<Double>| #[trigger] reads_as(arith, text, r)
}

/// `r` is an answer of [`Arithmetic::parse64`] on a text that holds `text`.
pub open spec fn reads_as<A: Arithmetic>(arith: A, text: Seq<char>, r: Option<Double>) -> bool {
    exists|t: &str| t@ == text && #[trigger] call_ensures(A::parse64, (&arith, t), r)
}

/// `x` written with `digits` digits behind the decimal point, as `arith` writes it.
pub open spec fn spelled<A: Arithmetic>(arith: A, x: Double, digits: usize) -> Seq<char> {
    choose|r: Seq<char>| #[trigger] writes_as(arith, x, digits, r)
}

/// `r` is what an answer of [`Arithmetic::fixed64`] holds.
pub open spec fn writes_as<A: Arithmetic>(arith: A, x: Double, digits: usize, r: Seq<char>) -> bool {
    exists|t: String| t@ == r && #[trigger] call_ensures(A::fixed64, (&arith, x, digits), t)
}

/// Cosine similarity of two embeddings, as `arith` computes it.
pub open spec fn similarity<A: Arithmetic>(arith: A, x: Seq<Single>, y: Seq<Single>) -> Single {
    if exists|r: Single| #[trigger] resembles(arith, x, y, r) {
        choose|r: Single| #[trigger] resembles(arith, x, y, r)
    } else {
        Single::nought()
    }
}

/// `r` is an answer of [`Arithmetic::cosine`] on embeddings that hold `x` and `y`.
pub open spec fn resembles<A: Arithmetic>(
    arith: A,
    x: Seq<Single>,
    y: Seq<Single>,
    r: Single,
) -> bool {
    exists|u: Vector, v: Vector|
        u@ == x && v@ == y && #[trigger] call_ensures(A::cosine, (&arith, &u, &v), r)
}

/// Component-wise mean of embeddings, as `arith` computes it.
pub open spec fn mean_of<A: Arithmetic>(arith: A, rows: Seq<Seq<Single>>) -> Seq<Single> {
    choose|r: Seq<Single>| #[trigger] averages_to(arith, rows, r)
}

/// `r` is what an answer of [`Arithmetic::mean`] on embeddings that hold `rows` holds.
pub open spec fn averages_to<A: Arithmetic>(
    arith: A,
    rows: Seq<Seq<Single>>,
    r: Seq<Single>,
) -> bool {
    exists|u: Vec<Vector>, v: Vector|
        crate::number::vectors_of(u@) == rows && v@ == r && #[trigger] call_ensures(
            A::mean,
            (&arith, &u),
            v,
        )
}

/// What the library needs of an arithmetic.
///
/// Each operation is a function of its arguments. Of a sum, a difference, a product, a quotient and a
/// square root IEEE 754 says so where the result is a number; which pattern a result that is not a
/// number has, it leaves open, so a host has to give all of them one pattern. Of the exponential
/// nothing says so: the documentation of `f64::exp` leaves its precision open, and a host has to see
/// to it that equal exponents give equal results.
///
/// The rest are facts of arithmetic that is rounded to the nearest number. A cosine is a number above
/// negative infinity. A number less itself is zero. A count is finite, and at least one where it is
/// positive; a finite number over one or more is finite. `ln 2` over a positive, finite number is
/// positive, and finite too over one or more. Adding what is not negative lowers nothing, and adding
/// to nothing gives what was added; one and one or more are two or more. A number less one that is no
/// smaller is not positive, and a share taken from one leaves a share. A share of a number is no
/// larger than the number, and has no other sign. One over one or more is a share, one over one is
/// one, and one over two or more is at most a half. Differences from a number and products with one
/// keep the order of the other operand, or turn it round where the number is negative. A product with
/// one is the other operand, one with zero is zero, and halving a product is halving an operand as
/// long as nothing is too large or too small to be halved exactly.
#[verifier::opaque]
pub open spec fn lawful<A: Arithmetic>(arith: A) -> bool {
    &&& forall|x: Double, y: Double, r: Double, s: Double|
        #[trigger] call_ensures(A::add64, (&arith, x, y), r) && #[trigger] call_ensures(
            A::add64,
            (&arith, x, y),
            s,
        ) ==> r == s
    &&& forall|x: Double, y: Double, r: Double, s: Double|
        #[trigger] call_ensures(A::sub64, (&arith, x, y), r) && #[trigger] call_ensures(
            A::sub64,
            (&arith, x, y),
            s,
        ) ==> r == s
    &&& forall|x: Double, y: Double, r: Double, s: Double|
        #[trigger] call_ensures(A::mul64, (&arith, x, y), r) && #[trigger] call_ensures(
            A::mul64,
            (&arith, x, y),
            s,
        ) ==> r == s
    &&& forall|x: Double, y: Double, r: Double, s: Double|
        #[trigger] call_ensures(A::div64, (&arith, x, y), r) && #[trigger] call_ensures(
            A::div64,
            (&arith, x, y),
            s,
        ) ==> r == s
    &&& forall|x: Single, y: Single, r: Single, s: Single|
        #[trigger] call_ensures(A::add32, (&arith, x, y), r) && #[trigger] call_ensures(
            A::add32,
            (&arith, x, y),
            s,
        ) ==> r == s
    &&& forall|x: Single, y: Single, r: Single, s: Single|
        #[trigger] call_ensures(A::sub32, (&arith, x, y), r) && #[trigger] call_ensures(
            A::sub32,
            (&arith, x, y),
            s,
        ) ==> r == s
    &&& forall|x: Single, y: Single, r: Single, s: Single|
        #[trigger] call_ensures(A::mul32, (&arith, x, y), r) && #[trigger] call_ensures(
            A::mul32,
            (&arith, x, y),
            s,
        ) ==> r == s
    &&& forall|x: Single, y: Single, r: Single, s: Single|
        #[trigger] call_ensures(A::div32, (&arith, x, y), r) && #[trigger] call_ensures(
            A::div32,
            (&arith, x, y),
            s,
        ) ==> r == s
    &&& forall|x: Single, r: Single, s: Single|
        #[trigger] call_ensures(A::sqrt32, (&arith, x), r) && #[trigger] call_ensures(
            A::sqrt32,
            (&arith, x),
            s,
        ) ==> r == s
    &&& forall|x: Double, r: Double, s: Double|
        #[trigger] call_ensures(A::exp64, (&arith, x), r) && #[trigger] call_ensures(
            A::exp64,
            (&arith, x),
            s,
        ) ==> r == s
    &&& forall|x: Single, r: Double, s: Double|
        #[trigger] call_ensures(A::widen, (&arith, x), r) && #[trigger] call_ensures(
            A::widen,
            (&arith, x),
            s,
        ) ==> r == s
    &&& forall|x: u64, r: Double, s: Double|
        #[trigger] call_ensures(A::count64, (&arith, x), r) && #[trigger] call_ensures(
            A::count64,
            (&arith, x),
            s,
        ) ==> r == s
    &&& forall|x: u64, r: Single, s: Single|
        #[trigger] call_ensures(A::count32, (&arith, x), r) && #[trigger] call_ensures(
            A::count32,
            (&arith, x),
            s,
        ) ==> r == s
    &&& forall|x: Double, r: u64, s: u64|
        #[trigger] call_ensures(A::round64, (&arith, x), r) && #[trigger] call_ensures(
            A::round64,
            (&arith, x),
            s,
        ) ==> r == s
    &&& forall|t: Seq<char>, r: Option<Double>, s: Option<Double>|
        #[trigger] reads_as(arith, t, r) && #[trigger] reads_as(arith, t, s) ==> r == s
    &&& forall|x: Double, d: usize, r: Seq<char>, s: Seq<char>|
        #[trigger] writes_as(arith, x, d, r) && #[trigger] writes_as(arith, x, d, s) ==> r == s
    &&& forall|x: Seq<Single>, y: Seq<Single>, r: Single, s: Single|
        #[trigger] resembles(arith, x, y, r) && #[trigger] resembles(arith, x, y, s) ==> r == s
    &&& forall|rows: Seq<Seq<Single>>, r: Seq<Single>, s: Seq<Single>|
        #[trigger] averages_to(arith, rows, r) && #[trigger] averages_to(arith, rows, s) ==> r == s
    &&& forall|x: Seq<Single>, y: Seq<Single>, r: Single| #[trigger]
        resembles(arith, x, y, r) ==> Single::lowest().below(r)
    &&& forall|x: Single, r: Single|
        x.finite() && #[trigger] call_ensures(A::sub32, (&arith, x, x), r) ==> r.same(
            Single::nought(),
        )
    &&& forall|n: u64, r: Single| #[trigger]
        call_ensures(A::count32, (&arith, n), r) ==> r.finite() && (n > 0 ==> (Single {
            bits: ONE_SINGLE,
        }).at_most(r))
    &&& forall|x: Single, y: Single, r: Single|
        x.finite() && (Single { bits: ONE_SINGLE }).at_most(y) && #[trigger] call_ensures(
            A::div32,
            (&arith, x, y),
            r,
        ) ==> r.finite()
    &&& forall|h: Double, r: Double|
        h.positive() && #[trigger] call_ensures(A::div64, (&arith, Double { bits: LN2 }, h), r)
            ==> Double::nought().below(r) && ((Double { bits: ONE }).at_most(h) ==> r.positive())
    &&& forall|x: Double, y: Double, r: Double|
        Double::lowest().below(x) && Double::nought().at_most(y) && #[trigger] call_ensures(
            A::add64,
            (&arith, x, y),
            r,
        ) ==> x.at_most(r)
    &&& forall|x: Double, y: Double, r: Double|
        x.same(Double::nought()) && Double::nought().below(y) && #[trigger] call_ensures(
            A::add64,
            (&arith, x, y),
            r,
        ) ==> r == y
    &&& forall|y: Double, r: Double| #[trigger]
        call_ensures(A::add64, (&arith, Double { bits: ONE }, y), r) ==> (y.same(Double::nought())
            ==> r == (Double { bits: ONE })) && ((Double { bits: ONE }).at_most(y) ==> (Double {
            bits: TWO,
        }).at_most(r))
    &&& forall|x: Double, y: Double, r: Double|
        x.at_most(y) && #[trigger] call_ensures(A::sub64, (&arith, x, y), r)
            ==> !Double::nought().below(r) && (!(x.bits == DOUBLE_SIGN && y.bits == 0) ==> r.larger(
            Double::nought(),
        ) == Double::nought())
    &&& forall|y: Double, r: Double|
        Double::nought().at_most(y) && y.at_most(Double { bits: ONE }) && #[trigger] call_ensures(
            A::sub64,
            (&arith, Double { bits: ONE }, y),
            r,
        ) ==> Double::nought().at_most(r) && r.at_most(Double { bits: ONE })
    &&& forall|x: Double, y: Double, r: Double|
        x.finite() && Double::nought().at_most(x) && Double::nought().at_most(y) && y.at_most(
            Double { bits: ONE },
        ) && #[trigger] call_ensures(A::mul64, (&arith, x, y), r) ==> Double::nought().at_most(r)
            && r.at_most(x)
    &&& forall|x: Double, y: Double, r: Double|
        !Double::nought().below(x) && Double::nought().at_most(y) && #[trigger] call_ensures(
            A::mul64,
            (&arith, x, y),
            r,
        ) ==> !Double::nought().below(r)
    &&& forall|y: Double, r: Double|
        (Double { bits: ONE }).at_most(y) && #[trigger] call_ensures(
            A::div64,
            (&arith, Double { bits: ONE }, y),
            r,
        ) ==> {
            &&& Double::nought().at_most(r)
            &&& r.at_most(Double { bits: ONE })
            &&& y == (Double { bits: ONE }) ==> r == (Double { bits: ONE })
            &&& (Double { bits: TWO }).at_most(y) ==> r.at_most(Double { bits: HALF })
        }
    &&& forall|x1: Double, x2: Double, y: Double, r1: Double, r2: Double|
        x1.at_most(x2) && #[trigger] call_ensures(A::sub64, (&arith, x1, y), r1)
            && #[trigger] call_ensures(A::sub64, (&arith, x2, y), r2) ==> r1.larger(
            Double::nought(),
        ).at_most(r2.larger(Double::nought()))
    &&& forall|x: Double, y1: Double, y2: Double, r1: Double, r2: Double|
        x.finite() && x.below(Double::nought()) && Double::nought().at_most(y1) && y1.at_most(y2)
            && #[trigger] call_ensures(A::mul64, (&arith, x, y1), r1) && #[trigger] call_ensures(
            A::mul64,
            (&arith, x, y2),
            r2,
        ) ==> r2.at_most(r1) && r1.at_most(Double::nought())
    &&& forall|x: Double, y1: Double, y2: Double, r1: Double, r2: Double|
        x.finite() && Double::nought().at_most(x) && Double::nought().at_most(y1) && y1.at_most(y2)
            && y2.finite() && #[trigger] call_ensures(A::mul64, (&arith, x, y1), r1)
            && #[trigger] call_ensures(A::mul64, (&arith, x, y2), r2) ==> r1.at_most(r2)
    &&& forall|x1: Double, x2: Double, y: Double, r1: Double, r2: Double|
        y.finite() && Double::nought().at_most(y) && Double::nought().at_most(x1) && x1.at_most(x2)
            && x2.finite() && #[trigger] call_ensures(A::mul64, (&arith, x1, y), r1)
            && #[trigger] call_ensures(A::mul64, (&arith, x2, y), r2) ==> Double::nought().at_most(
            r1,
        ) && r1.at_most(r2)
    &&& forall|x: Double, y: Double, r: Double| #[trigger]
        call_ensures(A::mul64, (&arith, x, y), r) ==> {
            &&& y == (Double { bits: ONE }) && !x.is_nan() ==> r == x
            &&& y.same(Double::nought()) && x.finite() ==> r.same(Double::nought())
        }
    &&& forall|y: Double, r: Double|
        y.finite() && Double::nought().at_most(y) && #[trigger] call_ensures(
            A::add64,
            (&arith, Double { bits: ONE }, y),
            r,
        ) ==> r.finite()
    &&& forall|x: Double, y: Double, c: Double, w: Double, full: Double, h: Double|
        (Double { bits: TWICE_LEAST_NORMAL }).at_most(x) && x.finite() && (Double {
            bits: TWICE_LEAST_NORMAL,
        }).at_most(full) && full.finite() && #[trigger] call_ensures(
            A::mul64,
            (&arith, x, Double { bits: HALF }),
            c,
        ) && #[trigger] call_ensures(A::mul64, (&arith, c, y), w) && #[trigger] call_ensures(
            A::mul64,
            (&arith, x, y),
            full,
        ) && #[trigger] call_ensures(A::mul64, (&arith, full, Double { bits: HALF }), h) ==> w == h
}

/// The exponential is tame: it does not fall as the exponent grows, it is one at zero, and a share
/// below. Of the real exponential that is true; of `f64::exp` no documentation promises it, so nothing
/// that the library does rests on it. The laws of weights that take it for granted name it.
pub open spec fn tame<A: Arithmetic>(arith: A) -> bool {
    &&& forall|x: Double, y: Double, r: Double, s: Double|
        x.at_most(y) && #[trigger] call_ensures(A::exp64, (&arith, x), r)
            && #[trigger] call_ensures(A::exp64, (&arith, y), s) ==> r.at_most(s)
    &&& forall|x: Double, r: Double|
        x.at_most(Double::nought()) && #[trigger] call_ensures(A::exp64, (&arith, x), r)
            ==> Double::nought().at_most(r) && r.at_most(Double { bits: ONE }) && (x.same(
            Double::nought(),
        ) ==> r == (Double { bits: ONE }))
}

/// Pattern of `-1.0`.
pub const MINUS_ONE_SINGLE: u32 = 0xbf80_0000;

/// The operations keep the order of numbers, as rounding to the nearest number does: to widen keeps
/// zero, one and the order; a product with one is the other operand, one with zero is zero, and
/// products of what is not negative grow with either operand, and a share of a number is no larger than
/// it; a sum grows with what is added; a difference falls as what is taken away
/// grows, and is not negative where no more is taken away than there is; a cosine lies between minus one
/// and one; counts grow with what is counted; a quotient by what is one or more grows with the dividend,
/// is zero for zero and one for the divisor itself.
///
/// Nothing that the library does rests on it. The laws that take it for granted name it.
pub open spec fn orderly<A: Arithmetic>(arith: A) -> bool {
    &&& forall|x: Single, y: Single|
        x.at_most(y) ==> (#[trigger] widened(arith, x)).at_most(#[trigger] widened(arith, y))
    &&& forall|x: Single| x.finite() ==> (#[trigger] widened(arith, x)).finite()
    &&& widened(arith, Single::nought()) == Double::nought()
    &&& widened(arith, Single { bits: ONE_SINGLE }) == (Double { bits: ONE })
    &&& forall|y: Double| !y.is_nan() ==> #[trigger] product64(arith, Double { bits: ONE }, y) == y
    &&& forall|x: Double, y: Double|
        x.same(Double::nought()) && y.finite() ==> (#[trigger] product64(arith, x, y)).same(
            Double::nought(),
        )
    &&& forall|x: Double, y: Double, z: Double|
        Double::nought().at_most(x) && x.finite() && Double::nought().at_most(y) && y.at_most(z)
            && z.finite() ==> (#[trigger] product64(arith, x, y)).at_most(
            #[trigger] product64(arith, x, z),
        )
    &&& forall|x: Double, y: Double, z: Double|
        Double::nought().at_most(x) && x.at_most(y) && y.finite() && Double::nought().at_most(z)
            && z.finite() ==> (#[trigger] product64(arith, x, z)).at_most(
            #[trigger] product64(arith, y, z),
        )
    &&& forall|x: Double, y: Double|
        Double::nought().at_most(x) && x.finite() && Double::nought().at_most(y) && y.at_most(
            Double { bits: ONE },
        ) ==> Double::nought().at_most(#[trigger] product64(arith, x, y)) && product64(
            arith,
            x,
            y,
        ).at_most(x)
    &&& forall|x: Double, y: Double, z: Double|
        x.finite() && y.at_most(z) ==> (#[trigger] sum64(arith, x, y)).at_most(
            #[trigger] sum64(arith, x, z),
        )
    &&& forall|x: Double, y: Double|
        Double::nought().at_most(x) && Double::nought().at_most(y) ==> Double::nought().at_most(
            #[trigger] sum64(arith, x, y),
        )
    &&& forall|x: Single, y: Single, z: Single|
        x.finite() && y.at_most(z) ==> (#[trigger] difference32(arith, x, z)).at_most(
            #[trigger] difference32(arith, x, y),
        )
    &&& forall|x: Single, y: Single|
        x.finite() && y.at_most(x) ==> Single::nought().at_most(#[trigger] difference32(arith, x, y))
    &&& forall|x: Single| x.finite() ==> (#[trigger] difference32(arith, x, x)).same(
        Single::nought(),
    )
    &&& forall|x: Seq<Single>, y: Seq<Single>|
        (Single { bits: MINUS_ONE_SINGLE }).at_most(#[trigger] similarity(arith, x, y))
            && similarity(arith, x, y).at_most(Single { bits: ONE_SINGLE })
    &&& forall|m: u64, n: u64|
        m <= n ==> (#[trigger] single_of(arith, m)).at_most(#[trigger] single_of(arith, n))
    &&& single_of(arith, 0) == Single::nought()
    &&& forall|n: u64|
        n > 0 ==> (Single { bits: ONE_SINGLE }).at_most(#[trigger] single_of(arith, n)) && single_of(
            arith,
            n,
        ).finite()
    &&& forall|x: Single, y: Single, z: Single|
        Single::nought().at_most(x) && x.at_most(y) && y.finite() && (Single {
            bits: ONE_SINGLE,
        }).at_most(z) && z.finite() ==> (#[trigger] quotient32(arith, x, z)).at_most(
            #[trigger] quotient32(arith, y, z),
        )
    &&& forall|z: Single|
        (Single { bits: ONE_SINGLE }).at_most(z) && z.finite() ==> #[trigger] quotient32(arith, z, z)
            == (Single { bits: ONE_SINGLE })
    &&& forall|z: Single|
        (Single { bits: ONE_SINGLE }).at_most(z) && z.finite() ==> #[trigger] quotient32(
            arith,
            Single::nought(),
            z,
        ) == Single::nought()
}

/// The name of an operation on doubles stands for what the operation answers.
pub proof fn double_names_are_answers<A: Arithmetic>(arith: A, x: Double, y: Double, r: Double)
    requires
        lawful(arith),
    ensures
        call_ensures(A::add64, (&arith, x, y), r) ==> sum64(arith, x, y) == r,
        call_ensures(A::sub64, (&arith, x, y), r) ==> difference64(arith, x, y) == r,
        call_ensures(A::mul64, (&arith, x, y), r) ==> product64(arith, x, y) == r,
        call_ensures(A::div64, (&arith, x, y), r) ==> quotient64(arith, x, y) == r,
        call_ensures(A::exp64, (&arith, x), r) ==> power64(arith, x) == r,
{
    reveal(lawful);
}

/// The name of an operation on singles stands for what the operation answers.
pub proof fn single_names_are_answers<A: Arithmetic>(arith: A, x: Single, y: Single, r: Single)
    requires
        lawful(arith),
    ensures
        call_ensures(A::add32, (&arith, x, y), r) ==> sum32(arith, x, y) == r,
        call_ensures(A::sub32, (&arith, x, y), r) ==> difference32(arith, x, y) == r,
        call_ensures(A::mul32, (&arith, x, y), r) ==> product32(arith, x, y) == r,
        call_ensures(A::div32, (&arith, x, y), r) ==> quotient32(arith, x, y) == r,
        call_ensures(A::sqrt32, (&arith, x), r) ==> root32(arith, x) == r,
{
    reveal(lawful);
}

/// The name of a conversion stands for what the conversion answers.
pub proof fn conversion_names_are_answers<A: Arithmetic>(
    arith: A,
    x: Single,
    n: u64,
    d: Double,
    r: Double,
    s: Single,
    c: u64,
)
    requires
        lawful(arith),
    ensures
        call_ensures(A::widen, (&arith, x), r) ==> widened(arith, x) == r,
        call_ensures(A::count64, (&arith, n), r) ==> double_of(arith, n) == r,
        call_ensures(A::count32, (&arith, n), s) ==> single_of(arith, n) == s,
        call_ensures(A::round64, (&arith, d), c) ==> rounded(arith, d) == c,
{
    reveal(lawful);
}

/// The cosine and the mean of embeddings are what the arithmetic answers on vectors that hold them.
pub proof fn vector_names_are_answers<A: Arithmetic>(
    arith: A,
    u: Vector,
    v: Vector,
    rows: Vec<Vector>,
    r: Single,
    m: Vector,
)
    requires
        lawful(arith),
    ensures
        call_ensures(A::cosine, (&arith, &u, &v), r) ==> similarity(arith, u@, v@) == r,
        call_ensures(A::mean, (&arith, &rows), m) ==> mean_of(
            arith,
            crate::number::vectors_of(rows@),
        ) == m@,
{
    reveal(lawful);
    if call_ensures(A::cosine, (&arith, &u, &v), r) {
        assert(resembles(arith, u@, v@, r));
    }
    if call_ensures(A::mean, (&arith, &rows), m) {
        assert(averages_to(arith, crate::number::vectors_of(rows@), m@));
    }
}

/// A cosine is a number.
pub proof fn cosine_is_number<A: Arithmetic>(arith: A, x: Seq<Single>, y: Seq<Single>)
    requires
        lawful(arith),
    ensures
        Single::lowest().below(similarity(arith, x, y)),
{
    reveal(lawful);
}

/// A finite number less itself is zero.
pub proof fn nothing_is_left<A: Arithmetic>(arith: A, x: Single)
    requires
        lawful(arith),
        x.finite(),
    ensures
        difference32(arith, x, x).same(Single::nought()),
{
    reveal(lawful);
}

/// A share of a total that is not empty is finite.
pub proof fn share_is_finite<A: Arithmetic>(arith: A, part: u64, whole: u64)
    requires
        lawful(arith),
        whole > 0,
    ensures
        quotient32(arith, single_of(arith, part), single_of(arith, whole)).finite(),
{
    reveal(lawful);
}

/// A positive, finite half-life has a positive decay rate, and the other way round; of a second or
/// more the rate is finite too.
pub proof fn rate_is_positive<A: Arithmetic>(arith: A, h: Double)
    requires
        lawful(arith),
        h.positive(),
    ensures
        Double::nought().below(quotient64(arith, Double { bits: LN2 }, h)),
        (Double { bits: ONE }).at_most(h) ==> quotient64(
            arith,
            Double { bits: LN2 },
            h,
        ).positive(),
{
    reveal(lawful);
}

/// Adding what is not negative to a number above negative infinity does not lower it.
pub proof fn adding_does_not_lower<A: Arithmetic>(arith: A, x: Double, y: Double)
    requires
        lawful(arith),
        Double::lowest().below(x),
        Double::nought().at_most(y),
    ensures
        x.at_most(sum64(arith, x, y)),
{
    reveal(lawful);
}

/// A number less one that is no smaller is not positive.
pub proof fn no_time_backwards<A: Arithmetic>(arith: A, x: Double, y: Double)
    requires
        lawful(arith),
        x.at_most(y),
    ensures
        !Double::nought().below(difference64(arith, x, y)),
        !(x.bits == DOUBLE_SIGN && y.bits == 0) ==> difference64(arith, x, y).larger(
            Double::nought(),
        ) == Double::nought(),
{
    reveal(lawful);
}

/// What a number keeps when it loses a share of itself: no more than it was, whatever it was, and
/// nothing positive of what was not positive.
pub proof fn losing_a_share<A: Arithmetic>(arith: A, x: Double, share: Double)
    requires
        lawful(arith),
        Double::nought().at_most(share),
        share.at_most(Double { bits: ONE }),
    ensures
        ({
            let r = product64(arith, x, difference64(arith, Double { bits: ONE }, share));
            &&& x.finite() && Double::nought().at_most(x) ==> Double::nought().at_most(r)
                && r.at_most(x)
            &&& !Double::nought().below(x) ==> !Double::nought().below(r)
        }),
{
    reveal(lawful);
}

/// One over one plus what is not negative is a share, and a whole where nothing is added.
pub proof fn returns_are_shares<A: Arithmetic>(arith: A, y: Double)
    requires
        lawful(arith),
        Double::nought().at_most(y),
    ensures
        ({
            let one = Double { bits: ONE };
            let r = quotient64(arith, one, sum64(arith, one, y));
            &&& Double::nought().at_most(r)
            &&& r.at_most(one)
            &&& y.same(Double::nought()) ==> r == one
        }),
{
    reveal(lawful);
}

/// The sum of two doubles.
pub fn plus64<A: Arithmetic>(arith: &A, x: Double, y: Double) -> (r: Double)
    requires
        lawful(*arith),
    ensures
        r == sum64(*arith, x, y),
        call_ensures(A::add64, (arith, x, y), r),
{
    proof {
        reveal(lawful);
    }
    arith.add64(x, y)
}

/// The difference of two doubles.
pub fn minus64<A: Arithmetic>(arith: &A, x: Double, y: Double) -> (r: Double)
    requires
        lawful(*arith),
    ensures
        r == difference64(*arith, x, y),
        call_ensures(A::sub64, (arith, x, y), r),
{
    proof {
        reveal(lawful);
    }
    arith.sub64(x, y)
}

/// The product of two doubles.
pub fn times64<A: Arithmetic>(arith: &A, x: Double, y: Double) -> (r: Double)
    requires
        lawful(*arith),
    ensures
        r == product64(*arith, x, y),
        call_ensures(A::mul64, (arith, x, y), r),
{
    proof {
        reveal(lawful);
    }
    arith.mul64(x, y)
}

/// The quotient of two doubles.
pub fn over64<A: Arithmetic>(arith: &A, x: Double, y: Double) -> (r: Double)
    requires
        lawful(*arith),
    ensures
        r == quotient64(*arith, x, y),
        call_ensures(A::div64, (arith, x, y), r),
{
    proof {
        reveal(lawful);
    }
    arith.div64(x, y)
}

/// The sum of two singles.
pub fn plus32<A: Arithmetic>(arith: &A, x: Single, y: Single) -> (r: Single)
    requires
        lawful(*arith),
    ensures
        r == sum32(*arith, x, y),
        call_ensures(A::add32, (arith, x, y), r),
{
    proof {
        reveal(lawful);
    }
    arith.add32(x, y)
}

/// The difference of two singles.
pub fn minus32<A: Arithmetic>(arith: &A, x: Single, y: Single) -> (r: Single)
    requires
        lawful(*arith),
    ensures
        r == difference32(*arith, x, y),
        call_ensures(A::sub32, (arith, x, y), r),
{
    proof {
        reveal(lawful);
    }
    arith.sub32(x, y)
}

/// The product of two singles.
pub fn times32<A: Arithmetic>(arith: &A, x: Single, y: Single) -> (r: Single)
    requires
        lawful(*arith),
    ensures
        r == product32(*arith, x, y),
        call_ensures(A::mul32, (arith, x, y), r),
{
    proof {
        reveal(lawful);
    }
    arith.mul32(x, y)
}

/// The quotient of two singles.
pub fn over32<A: Arithmetic>(arith: &A, x: Single, y: Single) -> (r: Single)
    requires
        lawful(*arith),
    ensures
        r == quotient32(*arith, x, y),
        call_ensures(A::div32, (arith, x, y), r),
{
    proof {
        reveal(lawful);
    }
    arith.div32(x, y)
}

/// The square root of a single.
pub fn square_root32<A: Arithmetic>(arith: &A, x: Single) -> (r: Single)
    requires
        lawful(*arith),
    ensures
        r == root32(*arith, x),
        call_ensures(A::sqrt32, (arith, x), r),
{
    proof {
        reveal(lawful);
    }
    arith.sqrt32(x)
}

/// The natural exponential of a double.
pub fn exponential64<A: Arithmetic>(arith: &A, x: Double) -> (r: Double)
    requires
        lawful(*arith),
    ensures
        r == power64(*arith, x),
        call_ensures(A::exp64, (arith, x), r),
{
    proof {
        reveal(lawful);
    }
    arith.exp64(x)
}

/// The single as a double, exactly.
pub fn to_double<A: Arithmetic>(arith: &A, x: Single) -> (r: Double)
    requires
        lawful(*arith),
    ensures
        r == widened(*arith, x),
        call_ensures(A::widen, (arith, x), r),
{
    proof {
        reveal(lawful);
    }
    arith.widen(x)
}

/// The count as a double.
pub fn double_from<A: Arithmetic>(arith: &A, x: u64) -> (r: Double)
    requires
        lawful(*arith),
    ensures
        r == double_of(*arith, x),
        call_ensures(A::count64, (arith, x), r),
{
    proof {
        reveal(lawful);
    }
    arith.count64(x)
}

/// The count as a single.
pub fn single_from<A: Arithmetic>(arith: &A, x: u64) -> (r: Single)
    requires
        lawful(*arith),
    ensures
        r == single_of(*arith, x),
        call_ensures(A::count32, (arith, x), r),
{
    proof {
        reveal(lawful);
    }
    arith.count32(x)
}

/// The nearest count: half away from zero, negatives and what is not a number to zero, saturating.
pub fn nearest_count<A: Arithmetic>(arith: &A, x: Double) -> (r: u64)
    requires
        lawful(*arith),
    ensures
        r == rounded(*arith, x),
        call_ensures(A::round64, (arith, x), r),
{
    proof {
        reveal(lawful);
    }
    arith.round64(x)
}

/// The number that a text spells, if it spells one.
pub fn parse<A: Arithmetic>(arith: &A, text: &str) -> (r: Option<Double>)
    requires
        lawful(*arith),
    ensures
        r == parsed(*arith, text@),
        call_ensures(A::parse64, (arith, text), r),
{
    let r = arith.parse64(text);
    proof {
        reveal(lawful);
        assert(reads_as(*arith, text@, r));
    }
    r
}

/// A number with a fixed count of digits behind the decimal point.
pub fn spell<A: Arithmetic>(arith: &A, x: Double, digits: usize) -> (r: String)
    requires
        lawful(*arith),
    ensures
        r@ == spelled(*arith, x, digits),
        call_ensures(A::fixed64, (arith, x, digits), r),
{
    let r = arith.fixed64(x, digits);
    proof {
        reveal(lawful);
        assert(writes_as(*arith, x, digits, r@));
    }
    r
}

/// Cosine similarity of two embeddings.
pub fn cosine<A: Arithmetic>(arith: &A, x: &Vector, y: &Vector) -> (r: Single)
    requires
        lawful(*arith),
    ensures
        r == similarity(*arith, x@, y@),
        call_ensures(A::cosine, (arith, x, y), r),
        Single::lowest().below(r),
{
    let r = arith.cosine(x, y);
    proof {
        reveal(lawful);
        assert(resembles(*arith, x@, y@, r));
    }
    r
}

/// Component-wise mean of embeddings.
pub fn mean<A: Arithmetic>(arith: &A, rows: &Vec<Vector>) -> (r: Vector)
    requires
        lawful(*arith),
    ensures
        r@ == mean_of(*arith, crate::number::vectors_of(rows@)),
        call_ensures(A::mean, (arith, rows), r),
{
    let r = arith.mean(rows);
    proof {
        reveal(lawful);
        assert(averages_to(*arith, crate::number::vectors_of(rows@), r@));
    }
    r
}

} // verus!
