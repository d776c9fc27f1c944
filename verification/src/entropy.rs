//! The physics of forgetting.
//!
//! `weight(t) = salience · e^(−λ·Δt) · (1 + reinforcement)`,  `λ = ln2 / halflife`.
//!
//! A memory never stores its weight. It stores the parameters above and the tick of its last touch;
//! the weight is a function of them, evaluated only where a decision needs it.

use crate::arithmetic;
use crate::arithmetic::Arithmetic;
use crate::number;
use crate::number::Double;
use vstd::prelude::*;

verus! {

/// Logical clock of the engine, in seconds.
pub type Tick = Double;

/// Pattern of `ln 2`, which converts half-lives to decay rates and back.
pub const LN2: u64 = 0x3fe6_2e42_fefa_39ef;

/// Pattern of the longest half-life that consolidation can lead to: ten years, in seconds.
pub const MAX_HALFLIFE_SECS: u64 = 0x41b2_cc03_0000_0000;

/// Pattern of the decay rate of [`MAX_HALFLIFE_SECS`]. Consolidation never lowers a rate below it:
/// however often a memory is revisited, it can still be forgotten.
pub const LAMBDA_FLOOR: u64 = 0x3e22_e15a_d423_eadb;

/// Pattern of the default weight below which a memory is a candidate for `FADE`: `0.05`.
pub const DEFAULT_THETA_FADE: u64 = 0x3fa9_9999_9999_999a;

/// Pattern of `1.0`.
pub const ONE: u64 = 0x3ff0_0000_0000_0000;

/// Pattern of `2.0`.
pub const TWO: u64 = 0x4000_0000_0000_0000;

/// Pattern of `0.5`.
pub const HALF: u64 = 0x3fe0_0000_0000_0000;

/// Pattern of twice the least normal number, `2^-1021`: what is no smaller can be halved exactly.
pub const TWICE_LEAST_NORMAL: u64 = 0x0020_0000_0000_0000;

/// The decay rate of a half-life.
pub open spec fn decay_rate<A: Arithmetic>(arith: A, halflife: Double) -> Double {
    arithmetic::quotient64(arith, Double { bits: LN2 }, halflife)
}

/// The half-life of a decay rate.
pub open spec fn half_life<A: Arithmetic>(arith: A, lambda: Double) -> Double {
    arithmetic::quotient64(arith, Double { bits: LN2 }, lambda)
}

/// Converts a half-life (in seconds) to its decay rate.
pub fn lambda_from_halflife<A: Arithmetic>(arith: &A, halflife: Double) -> (r: Double)
    requires
        arithmetic::lawful(*arith),
        Double::nought().below(halflife),
    ensures
        r == decay_rate(*arith, halflife),
        halflife.positive() ==> Double::nought().below(r),
        halflife.positive() && (Double { bits: ONE }).at_most(halflife) ==> r.positive(),
{
    proof {
        reveal(arithmetic::lawful);
    }
    arithmetic::over64(arith, Double { bits: LN2 }, halflife)
}

/// Converts a decay rate back to its half-life (in seconds).
pub fn halflife_from_lambda<A: Arithmetic>(arith: &A, lambda: Double) -> (r: Double)
    requires
        arithmetic::lawful(*arith),
        Double::nought().below(lambda),
    ensures
        r == half_life(*arith, lambda),
        lambda.positive() ==> Double::nought().below(r),
{
    proof {
        reveal(arithmetic::lawful);
    }
    arithmetic::over64(arith, Double { bits: LN2 }, lambda)
}

/// Everything that is needed to evaluate the weight of a memory.
#[derive(Clone, Copy, Debug, PartialEq, Eq, Structural)]
pub struct EntropyTrace {
    /// Initial charge of the stimulus, typically in `(0, 1]`.
    pub salience: Double,
    /// Decay rate.
    pub lambda: Double,
    /// Accumulated reinforcement: each evocation or repetition adds to it.
    pub reinforcement: Double,
    /// Tick of the last reinforcement or evocation.
    pub last_touch: Tick,
}

impl EntropyTrace {
    /// A trace just born.
    pub open spec fn fresh<A: Arithmetic>(
        arith: A,
        salience: Double,
        halflife: Double,
        now: Tick,
    ) -> EntropyTrace {
        EntropyTrace {
            salience,
            lambda: decay_rate(arith, halflife),
            reinforcement: Double::nought(),
            last_touch: now,
        }
    }

    /// Time since the last touch, never negative.
    pub open spec fn elapsed<A: Arithmetic>(self, arith: A, now: Tick) -> Double {
        arithmetic::difference64(arith, now, self.last_touch).larger(Double::nought())
    }

    /// `salience · e^(−λ·Δt) · (1 + reinforcement)`.
    pub open spec fn life<A: Arithmetic>(self, arith: A, now: Tick) -> Double {
        arithmetic::product64(
            arith,
            arithmetic::product64(
                arith,
                self.salience,
                arithmetic::power64(
                    arith,
                    arithmetic::product64(arith, self.lambda.opposite(), self.elapsed(arith, now)),
                ),
            ),
            arithmetic::sum64(arith, Double { bits: ONE }, self.reinforcement),
        )
    }

    /// `since` is a time since the last touch that the arithmetic answers with.
    pub open spec fn passed<A: Arithmetic>(self, arith: A, now: Tick, since: Double) -> bool {
        exists|x: Double| #[trigger]
            call_ensures(A::sub64, (&arith, now, self.last_touch), x) && since == x.larger(
                Double::nought(),
            )
    }

    /// `w` is a weight that the arithmetic answers with, where `decay` is its answer to `e^(−λ·Δt)`.
    pub open spec fn weighed_with<A: Arithmetic>(
        self,
        arith: A,
        now: Tick,
        decay: Double,
        w: Double,
    ) -> bool {
        &&& exists|since: Double, x: Double|
            {
                &&& self.passed(arith, now, since)
                &&& #[trigger] call_ensures(A::mul64, (&arith, self.lambda.opposite(), since), x)
                &&& #[trigger] call_ensures(A::exp64, (&arith, x), decay)
            }
        &&& exists|charge: Double, gain: Double|
            {
                &&& #[trigger] call_ensures(A::mul64, (&arith, self.salience, decay), charge)
                &&& call_ensures(
                    A::add64,
                    (&arith, Double { bits: ONE }, self.reinforcement),
                    gain,
                )
                &&& #[trigger] call_ensures(A::mul64, (&arith, charge, gain), w)
            }
    }

    /// `w` is a weight that the arithmetic answers with: what a call of [`EntropyTrace::weight`] can
    /// return.
    pub open spec fn weighed<A: Arithmetic>(self, arith: A, now: Tick, w: Double) -> bool {
        exists|decay: Double| #[trigger] self.weighed_with(arith, now, decay, w)
    }

    /// The trace of a memory as the engine makes them: salience and reinforcement are finite and not
    /// negative, and the decay rate is finite and positive.
    pub open spec fn regular(self) -> bool {
        &&& self.salience.finite() && Double::nought().at_most(self.salience)
        &&& self.lambda.positive()
        &&& self.reinforcement.finite() && Double::nought().at_most(self.reinforcement)
    }

    /// What a touch adds to the reinforcement: `1 / (1 + reinforcement)`.
    pub open spec fn gain<A: Arithmetic>(self, arith: A) -> Double {
        arithmetic::quotient64(
            arith,
            Double { bits: ONE },
            arithmetic::sum64(arith, Double { bits: ONE }, self.reinforcement),
        )
    }

    /// The trace after a touch at `now` that lowers the decay rate by the share `consolidation`.
    pub open spec fn touched<A: Arithmetic>(
        self,
        arith: A,
        now: Tick,
        consolidation: Double,
    ) -> EntropyTrace {
        EntropyTrace {
            salience: self.salience,
            lambda: arithmetic::product64(
                arith,
                self.lambda,
                arithmetic::difference64(arith, Double { bits: ONE }, consolidation),
            ).larger(Double { bits: LAMBDA_FLOOR }),
            reinforcement: arithmetic::sum64(arith, self.reinforcement, self.gain(arith)),
            last_touch: now,
        }
    }

    /// Whether the memory is at or above a forgetting threshold.
    pub open spec fn alive<A: Arithmetic>(self, arith: A, now: Tick, theta: Double) -> bool {
        theta.at_most(self.life(arith, now))
    }

    /// Creates a trace from a salience and a half-life (in seconds), touched at `now`.
    pub fn new<A: Arithmetic>(arith: &A, salience: Double, halflife: Double, now: Tick) -> (r:
        EntropyTrace)
        requires
            arithmetic::lawful(*arith),
            Double::nought().below(halflife),
        ensures
            r == EntropyTrace::fresh(*arith, salience, halflife, now),
            halflife.positive() && (Double { bits: ONE }).at_most(halflife) ==> r.lambda.positive(),
    {
        EntropyTrace {
            salience,
            lambda: lambda_from_halflife(arith, halflife),
            reinforcement: Double::zero(),
            last_touch: now,
        }
    }

    /// Time since the last touch. A clock that runs backwards does not un-forget: never negative.
    pub fn delta_t<A: Arithmetic>(&self, arith: &A, now: Tick) -> (r: Double)
        requires
            arithmetic::lawful(*arith),
        ensures
            r == self.elapsed(*arith, now),
            self.passed(*arith, now, r),
            Double::nought().at_most(r),
    {
        arithmetic::minus64(arith, now, self.last_touch).max(Double::zero())
    }

    /// Weight of the memory at `now`.
    pub fn weight<A: Arithmetic>(&self, arith: &A, now: Tick) -> (r: Double)
        requires
            arithmetic::lawful(*arith),
        ensures
            r == self.life(*arith, now),
            self.weighed(*arith, now, r),
    {
        let since = self.delta_t(arith, now);
        let exponent = arithmetic::times64(arith, self.lambda.negated(), since);
        let decay = arithmetic::exponential64(arith, exponent);
        let charge = arithmetic::times64(arith, self.salience, decay);
        let gain = arithmetic::plus64(arith, Double { bits: ONE }, self.reinforcement);
        let r = arithmetic::times64(arith, charge, gain);
        assert(self.weighed_with(*arith, now, decay, r));
        r
    }

    /// Reinforcement by evocation or repetition: the clock of the memory starts again, its
    /// reinforcement grows with diminishing returns, and its decay rate is lowered by the share
    /// `consolidation`, in `[0, 1)`, but never below [`LAMBDA_FLOOR`].
    pub fn reinforce<A: Arithmetic>(&mut self, arith: &A, now: Tick, consolidation: Double)
        requires
            arithmetic::lawful(*arith),
            Double::nought().at_most(consolidation),
            consolidation.below(Double { bits: ONE }),
        ensures
            *final(self) == old(self).touched(*arith, now, consolidation),
            (Double { bits: LAMBDA_FLOOR }).at_most(final(self).lambda),
            final(self).lambda.at_most(old(self).lambda.larger(Double { bits: LAMBDA_FLOOR })),
            Double::nought().below(final(self).lambda),
            old(self).lambda.positive() ==> final(self).lambda.positive(),
            old(self).reinforcement.same(Double::nought()) ==> final(self).reinforcement == (
            Double { bits: ONE }),
            (Double { bits: ONE }).at_most(old(self).reinforcement) ==> old(self).gain(
                *arith,
            ).at_most(Double { bits: HALF }),
    {
        proof {
            reveal(arithmetic::lawful);
            touching_never_raises_the_rate(*arith, *self, now, consolidation);
        }
        self.last_touch = now;
        let one = Double { bits: ONE };
        let step = arithmetic::over64(
            arith,
            one,
            arithmetic::plus64(arith, one, self.reinforcement),
        );
        self.reinforcement = arithmetic::plus64(arith, self.reinforcement, step);
        self.lambda = arithmetic::times64(
            arith,
            self.lambda,
            arithmetic::minus64(arith, one, consolidation),
        ).max(Double { bits: LAMBDA_FLOOR });
    }

    /// Whether the memory is below the forgetting threshold.
    pub fn is_faded<A: Arithmetic>(&self, arith: &A, now: Tick, theta_fade: Double) -> (r: bool)
        requires
            arithmetic::lawful(*arith),
        ensures
            r == self.life(*arith, now).below(theta_fade),
    {
        self.weight(arith, now).lt(theta_fade)
    }

    /// Whether the memory is at or above the forgetting threshold.
    pub fn is_alive<A: Arithmetic>(&self, arith: &A, now: Tick, theta_fade: Double) -> (r: bool)
        requires
            arithmetic::lawful(*arith),
        ensures
            r == self.alive(*arith, now, theta_fade),
    {
        theta_fade.le(self.weight(arith, now))
    }
}

/// No immortality: whatever a trace was, and however much it is consolidated, a touch leaves it with
/// a positive decay rate that is at least the floor.
pub proof fn touching_keeps_forgetting_possible<A: Arithmetic>(
    arith: A,
    trace: EntropyTrace,
    now: Tick,
    consolidation: Double,
)
    ensures
        (Double { bits: LAMBDA_FLOOR }).at_most(trace.touched(arith, now, consolidation).lambda),
        Double::nought().below(trace.touched(arith, now, consolidation).lambda),
{
}

/// Consolidation only ever slows forgetting down: a touch leaves a decay rate that is no higher than
/// the larger of the rate before it and the floor, whatever the trace was.
pub proof fn touching_never_raises_the_rate<A: Arithmetic>(
    arith: A,
    trace: EntropyTrace,
    now: Tick,
    consolidation: Double,
)
    requires
        arithmetic::lawful(arith),
        Double::nought().at_most(consolidation),
        consolidation.below(Double { bits: ONE }),
    ensures
        trace.touched(arith, now, consolidation).lambda.at_most(
            trace.lambda.larger(Double { bits: LAMBDA_FLOOR }),
        ),
{
    arithmetic::losing_a_share(arith, trace.lambda, consolidation);
}

/// The trace after touches in a row, each at its tick and with its consolidation.
pub open spec fn touched_by<A: Arithmetic>(
    arith: A,
    trace: EntropyTrace,
    touches: Seq<(Tick, Double)>,
) -> EntropyTrace
    decreases touches.len(),
{
    if touches.len() == 0 {
        trace
    } else {
        touched_by(arith, trace, touches.drop_last()).touched(
            arith,
            touches.last().0,
            touches.last().1,
        )
    }
}

/// For ever: however often and however much a memory is consolidated, its decay rate stays between
/// the floor and the rate that it started with.
pub proof fn rate_stays_in_bounds<A: Arithmetic>(
    arith: A,
    trace: EntropyTrace,
    touches: Seq<(Tick, Double)>,
)
    requires
        arithmetic::lawful(arith),
        (Double { bits: LAMBDA_FLOOR }).at_most(trace.lambda),
        forall|i: int|
            0 <= i < touches.len() ==> Double::nought().at_most((#[trigger] touches[i]).1)
                && touches[i].1.below(Double { bits: ONE }),
    ensures
        ({
            let t = touched_by(arith, trace, touches);
            &&& (Double { bits: LAMBDA_FLOOR }).at_most(t.lambda)
            &&& t.lambda.at_most(trace.lambda)
            &&& t.salience == trace.salience
        }),
    decreases touches.len(),
{
    if touches.len() > 0 {
        let init = touches.drop_last();
        assert forall|i: int| 0 <= i < init.len() implies Double::nought().at_most(
            (#[trigger] init[i]).1,
        ) && init[i].1.below(Double { bits: ONE }) by {
            assert(init[i] == touches[i]);
        }
        rate_stays_in_bounds(arith, trace, init);
        let last = touches[touches.len() - 1];
        touching_never_raises_the_rate(
            arith,
            touched_by(arith, trace, init),
            last.0,
            last.1,
        );
        touching_keeps_forgetting_possible(
            arith,
            touched_by(arith, trace, init),
            last.0,
            last.1,
        );
    }
}

/// Diminishing returns: the first touch adds one to the reinforcement, no touch adds more, and none
/// takes any away.
pub proof fn no_touch_gains_more_than_the_first<A: Arithmetic>(
    arith: A,
    trace: EntropyTrace,
    now: Tick,
    consolidation: Double,
)
    requires
        arithmetic::lawful(arith),
        Double::nought().at_most(trace.reinforcement),
    ensures
        trace.reinforcement.same(Double::nought()) ==> trace.gain(arith) == (Double { bits: ONE }),
        Double::nought().at_most(trace.gain(arith)),
        trace.gain(arith).at_most(Double { bits: ONE }),
        trace.reinforcement.at_most(trace.touched(arith, now, consolidation).reinforcement),
{
    arithmetic::returns_are_shares(arith, trace.reinforcement);
    arithmetic::adding_does_not_lower(arith, trace.reinforcement, trace.gain(arith));
}

/// A clock that runs backwards does not un-forget: before its last touch no time has passed for a
/// memory, and it weighs what it weighs at the touch. (Negative zero is before positive zero here,
/// and equal to it: there no time has passed either.)
pub proof fn before_the_touch_no_time_passes<A: Arithmetic>(
    arith: A,
    trace: EntropyTrace,
    now: Tick,
)
    requires
        arithmetic::lawful(arith),
        now.at_most(trace.last_touch),
    ensures
        trace.elapsed(arith, now).same(Double::nought()),
        !(now.bits == number::DOUBLE_SIGN && trace.last_touch.bits == 0) ==> trace.life(arith, now)
            == trace.life(arith, trace.last_touch),
{
    arithmetic::no_time_backwards(arith, now, trace.last_touch);
    arithmetic::no_time_backwards(arith, trace.last_touch, trace.last_touch);
}

/// Time does not shrink: at a later tick no less of it has passed since the last touch.
pub proof fn elapsed_time_never_shrinks<A: Arithmetic>(
    arith: A,
    trace: EntropyTrace,
    earlier: Tick,
    later: Tick,
    before: Double,
    after: Double,
)
    requires
        arithmetic::lawful(arith),
        earlier.at_most(later),
        trace.passed(arith, earlier, before),
        trace.passed(arith, later, after),
    ensures
        Double::nought().at_most(before),
        before.at_most(after),
{
    reveal(arithmetic::lawful);
}

/// A memory weighs less the more it has decayed: where one answer to `e^(−λ·Δt)` is a share that is no
/// larger than another, so is the weight that comes of it.
pub proof fn weight_follows_decay<A: Arithmetic>(
    arith: A,
    trace: EntropyTrace,
    earlier: Tick,
    later: Tick,
    decay: Double,
    further: Double,
    heavier: Double,
    lighter: Double,
)
    requires
        arithmetic::lawful(arith),
        trace.regular(),
        trace.weighed_with(arith, earlier, decay, heavier),
        trace.weighed_with(arith, later, further, lighter),
        Double::nought().at_most(further),
        further.at_most(decay),
        decay.at_most(Double { bits: ONE }),
    ensures
        Double::nought().at_most(lighter),
        lighter.at_most(heavier),
{
    reveal(arithmetic::lawful);
    let (c1, g1) = choose|charge: Double, gain: Double|
        {
            &&& #[trigger] call_ensures(A::mul64, (&arith, trace.salience, decay), charge)
            &&& call_ensures(A::add64, (&arith, Double { bits: ONE }, trace.reinforcement), gain)
            &&& #[trigger] call_ensures(A::mul64, (&arith, charge, gain), heavier)
        };
    let (c2, g2) = choose|charge: Double, gain: Double|
        {
            &&& #[trigger] call_ensures(A::mul64, (&arith, trace.salience, further), charge)
            &&& call_ensures(A::add64, (&arith, Double { bits: ONE }, trace.reinforcement), gain)
            &&& #[trigger] call_ensures(A::mul64, (&arith, charge, gain), lighter)
        };
    assert(g1 == g2);
    assert(c1.at_most(trace.salience) && Double::nought().at_most(c2) && c2.at_most(c1));
    assert((Double { bits: ONE }).at_most(g1) && g1.finite());
}

/// Forgetting: with an exponential that is tame, the weight of a memory never grows as time passes and
/// nothing touches it, and is never negative.
pub proof fn weight_never_grows<A: Arithmetic>(
    arith: A,
    trace: EntropyTrace,
    earlier: Tick,
    later: Tick,
    before: Double,
    after: Double,
)
    requires
        arithmetic::lawful(arith),
        arithmetic::tame(arith),
        trace.regular(),
        earlier.at_most(later),
        trace.weighed(arith, earlier, before),
        trace.weighed(arith, later, after),
    ensures
        Double::nought().at_most(after),
        after.at_most(before),
{
    let e1 = choose|decay: Double| #[trigger] trace.weighed_with(arith, earlier, decay, before);
    let e2 = choose|decay: Double| #[trigger] trace.weighed_with(arith, later, decay, after);
    decay_is_ordered(arith, trace, earlier, later, e1, e2, before, after);
    weight_follows_decay(arith, trace, earlier, later, e1, e2, before, after);
}

proof fn decay_is_ordered<A: Arithmetic>(
    arith: A,
    trace: EntropyTrace,
    earlier: Tick,
    later: Tick,
    e1: Double,
    e2: Double,
    before: Double,
    after: Double,
)
    requires
        arithmetic::lawful(arith),
        arithmetic::tame(arith),
        trace.lambda.positive(),
        earlier.at_most(later),
        trace.weighed_with(arith, earlier, e1, before),
        trace.weighed_with(arith, later, e2, after),
    ensures
        Double::nought().at_most(e2),
        e2.at_most(e1),
        e1.at_most(Double { bits: ONE }),
        earlier.at_most(trace.last_touch) ==> e1 == (Double { bits: ONE }),
{
    reveal(arithmetic::lawful);
    let (s1, x1) = choose|since: Double, x: Double|
        {
            &&& trace.passed(arith, earlier, since)
            &&& #[trigger] call_ensures(A::mul64, (&arith, trace.lambda.opposite(), since), x)
            &&& #[trigger] call_ensures(A::exp64, (&arith, x), e1)
        };
    let (s2, x2) = choose|since: Double, x: Double|
        {
            &&& trace.passed(arith, later, since)
            &&& #[trigger] call_ensures(A::mul64, (&arith, trace.lambda.opposite(), since), x)
            &&& #[trigger] call_ensures(A::exp64, (&arith, x), e2)
        };
    elapsed_time_never_shrinks(arith, trace, earlier, later, s1, s2);
    assert(x2.at_most(x1) && x1.at_most(Double::nought()));
    if earlier.at_most(trace.last_touch) {
        assert(s1.same(Double::nought()));
        assert(x1.same(Double::nought()));
    }
}

/// No memory weighs more than its whole charge, `salience · (1 + reinforcement)`, and up to its last
/// touch it weighs exactly that; with an exponential that is tame.
pub proof fn weight_is_at_most_the_charge<A: Arithmetic>(
    arith: A,
    trace: EntropyTrace,
    now: Tick,
    w: Double,
    gain: Double,
    charge: Double,
)
    requires
        arithmetic::lawful(arith),
        arithmetic::tame(arith),
        trace.regular(),
        now.at_most(now),
        trace.weighed(arith, now, w),
        call_ensures(A::add64, (&arith, Double { bits: ONE }, trace.reinforcement), gain),
        call_ensures(A::mul64, (&arith, trace.salience, gain), charge),
    ensures
        Double::nought().at_most(w),
        w.at_most(charge),
        now.at_most(trace.last_touch) ==> w == charge,
{
    reveal(arithmetic::lawful);
    let e = choose|decay: Double| #[trigger] trace.weighed_with(arith, now, decay, w);
    decay_is_ordered(arith, trace, now, now, e, e, w, w);
    let (c, g) = choose|charge: Double, gain: Double|
        {
            &&& #[trigger] call_ensures(A::mul64, (&arith, trace.salience, e), charge)
            &&& call_ensures(A::add64, (&arith, Double { bits: ONE }, trace.reinforcement), gain)
            &&& #[trigger] call_ensures(A::mul64, (&arith, charge, gain), w)
        };
    assert(g == gain);
    assert(Double::nought().at_most(c) && c.at_most(trace.salience));
    assert((Double { bits: ONE }).at_most(g) && g.finite());
}

/// Half-life: where the answer to `e^(−λ·Δt)` is a half, a memory weighs half of its whole charge, as
/// long as the salience and the charge are large enough to be halved exactly and the charge is finite.
pub proof fn half_decayed_is_half_as_heavy<A: Arithmetic>(
    arith: A,
    trace: EntropyTrace,
    now: Tick,
    w: Double,
    gain: Double,
    charge: Double,
    half: Double,
)
    requires
        arithmetic::lawful(arith),
        trace.salience.finite(),
        (Double { bits: TWICE_LEAST_NORMAL }).at_most(trace.salience),
        charge.finite(),
        (Double { bits: TWICE_LEAST_NORMAL }).at_most(charge),
        trace.weighed_with(arith, now, Double { bits: HALF }, w),
        call_ensures(A::add64, (&arith, Double { bits: ONE }, trace.reinforcement), gain),
        call_ensures(A::mul64, (&arith, trace.salience, gain), charge),
        call_ensures(A::mul64, (&arith, charge, Double { bits: HALF }), half),
    ensures
        w == half,
{
    reveal(arithmetic::lawful);
    let (c, g) = choose|charge: Double, gain: Double|
        {
            &&& #[trigger] call_ensures(
                A::mul64,
                (&arith, trace.salience, Double { bits: HALF }),
                charge,
            )
            &&& call_ensures(A::add64, (&arith, Double { bits: ONE }, trace.reinforcement), gain)
            &&& #[trigger] call_ensures(A::mul64, (&arith, charge, gain), w)
        };
    assert(g == gain);
}

/// The weight is `salience · e^(−λ·Δt) · (1 + reinforcement)`, where `Δt` is the time since the last
/// touch, or zero before it: each operation asked of the arithmetic, and its answers put together.
pub proof fn weight_is_put_together<A: Arithmetic>(
    arith: A,
    trace: EntropyTrace,
    now: Tick,
    gone: Double,
    exponent: Double,
    decay: Double,
    charge: Double,
    gain: Double,
    w: Double,
)
    requires
        arithmetic::lawful(arith),
        call_ensures(A::sub64, (&arith, now, trace.last_touch), gone),
        call_ensures(
            A::mul64,
            (
                &arith,
                trace.lambda.opposite(),
                (if gone.is_nan() || gone.below(Double::nought()) {
                    Double::nought()
                } else {
                    gone
                }),
            ),
            exponent,
        ),
        call_ensures(A::exp64, (&arith, exponent), decay),
        call_ensures(A::mul64, (&arith, trace.salience, decay), charge),
        call_ensures(A::add64, (&arith, Double { bits: ONE }, trace.reinforcement), gain),
        call_ensures(A::mul64, (&arith, charge, gain), w),
    ensures
        trace.life(arith, now) == w,
        trace.weighed(arith, now, w),
{
    reveal(arithmetic::lawful);
    let since = gone.larger(Double::nought());
    assert(trace.passed(arith, now, since));
    assert(trace.weighed_with(arith, now, decay, w));
}

/// A memory is what it weighs: every weight that the arithmetic answers with is its life.
pub proof fn life_is_the_weight<A: Arithmetic>(
    arith: A,
    trace: EntropyTrace,
    now: Tick,
    w: Double,
)
    requires
        arithmetic::lawful(arith),
        trace.weighed(arith, now, w),
    ensures
        trace.life(arith, now) == w,
{
    reveal(arithmetic::lawful);
    let decay = choose|decay: Double| #[trigger] trace.weighed_with(arith, now, decay, w);
    let (since, x) = choose|since: Double, x: Double|
        {
            &&& trace.passed(arith, now, since)
            &&& #[trigger] call_ensures(A::mul64, (&arith, trace.lambda.opposite(), since), x)
            &&& #[trigger] call_ensures(A::exp64, (&arith, x), decay)
        };
    assert(since == trace.elapsed(arith, now));
}

/// What charges a memory makes it heavier: of two memories that have decayed to the same share, the one
/// with no smaller salience and no smaller reinforcement weighs no less.
pub proof fn charge_makes_heavier<A: Arithmetic>(
    arith: A,
    light: EntropyTrace,
    heavy: EntropyTrace,
    now: Tick,
)
    requires
        arithmetic::lawful(arith),
        arithmetic::orderly(arith),
        light.lambda == heavy.lambda,
        light.last_touch == heavy.last_touch,
        Double::nought().at_most(light.salience),
        light.salience.at_most(heavy.salience),
        heavy.salience.finite(),
        Double::nought().at_most(light.reinforcement),
        light.reinforcement.at_most(heavy.reinforcement),
        arithmetic::sum64(arith, Double { bits: ONE }, heavy.reinforcement).finite(),
        ({
            let decay = arithmetic::power64(
                arith,
                arithmetic::product64(arith, light.lambda.opposite(), light.elapsed(arith, now)),
            );
            Double::nought().at_most(decay) && decay.at_most(Double { bits: ONE })
        }),
    ensures
        light.life(arith, now).at_most(heavy.life(arith, now)),
{
    let one = Double { bits: ONE };
    let decay = arithmetic::power64(
        arith,
        arithmetic::product64(arith, light.lambda.opposite(), light.elapsed(arith, now)),
    );
    assert(light.elapsed(arith, now) == heavy.elapsed(arith, now));
    let a = arithmetic::product64(arith, light.salience, decay);
    let b = arithmetic::product64(arith, heavy.salience, decay);
    let g = arithmetic::sum64(arith, one, light.reinforcement);
    let h = arithmetic::sum64(arith, one, heavy.reinforcement);
    assert(a.at_most(b));
    assert(b.at_most(heavy.salience) && Double::nought().at_most(a));
    assert(b.finite());
    assert(g.at_most(h) && Double::nought().at_most(g));
    assert(g.finite());
    assert(arithmetic::product64(arith, a, g).at_most(arithmetic::product64(arith, b, g)));
    assert(arithmetic::product64(arith, b, g).at_most(arithmetic::product64(arith, b, h)));
}

/// A memory is born with its whole salience: no reinforcement yet, a decay rate of `ln 2` over its
/// half-life, and with an exponential that is tame it weighs its salience at its birth.
pub proof fn memories_are_born_with_their_salience<A: Arithmetic>(
    arith: A,
    salience: Double,
    halflife: Double,
    now: Tick,
    rate: Double,
    w: Double,
)
    requires
        arithmetic::lawful(arith),
        arithmetic::tame(arith),
        salience.finite(),
        halflife.positive(),
        (Double { bits: ONE }).at_most(halflife),
        now.at_most(now),
        call_ensures(A::div64, (&arith, Double { bits: LN2 }, halflife), rate),
        EntropyTrace::fresh(arith, salience, halflife, now).weighed(arith, now, w),
    ensures
        EntropyTrace::fresh(arith, salience, halflife, now) == (EntropyTrace {
            salience,
            lambda: rate,
            reinforcement: Double { bits: 0 },
            last_touch: now,
        }),
        w == salience,
{
    reveal(arithmetic::lawful);
    let trace = EntropyTrace::fresh(arith, salience, halflife, now);
    assert(trace.lambda == rate);
    let decay = choose|decay: Double| #[trigger] trace.weighed_with(arith, now, decay, w);
    decay_is_ordered(arith, trace, now, now, decay, decay, w, w);
}

/// Half-life and decay rate are each `ln 2` over the other.
pub proof fn rates_and_halflives_are_reciprocal<A: Arithmetic>(arith: A, x: Double, r: Double)
    requires
        arithmetic::lawful(arith),
        call_ensures(A::div64, (&arith, Double { bits: LN2 }, x), r),
    ensures
        decay_rate(arith, x) == r,
        half_life(arith, x) == r,
{
    reveal(arithmetic::lawful);
}

/// What a touch does, each operation asked of the arithmetic: the decay rate loses the share
/// `consolidation` but stays at the floor or above, the reinforcement gains `1 / (1 + reinforcement)`,
/// the clock starts again, and the salience stays.
pub proof fn touching_is_put_together<A: Arithmetic>(
    arith: A,
    trace: EntropyTrace,
    now: Tick,
    consolidation: Double,
    kept: Double,
    rate: Double,
    more: Double,
    gain: Double,
    sum: Double,
)
    requires
        arithmetic::lawful(arith),
        call_ensures(A::sub64, (&arith, Double { bits: ONE }, consolidation), kept),
        call_ensures(A::mul64, (&arith, trace.lambda, kept), rate),
        call_ensures(A::add64, (&arith, Double { bits: ONE }, trace.reinforcement), more),
        call_ensures(A::div64, (&arith, Double { bits: ONE }, more), gain),
        call_ensures(A::add64, (&arith, trace.reinforcement, gain), sum),
    ensures
        ({
            let t = trace.touched(arith, now, consolidation);
            &&& t.lambda == (if (Double { bits: LAMBDA_FLOOR }).at_most(rate) {
                rate
            } else {
                Double { bits: LAMBDA_FLOOR }
            })
            &&& t.reinforcement == sum
            &&& t.last_touch == now
            &&& t.salience == trace.salience
        }),
{
    reveal(arithmetic::lawful);
}

/// Whether a memory is alive is a matter of its weight alone: at or above the threshold it is, below it
/// is not; what is alive at a threshold is alive at every lower one.
pub proof fn the_heavier_live<A: Arithmetic>(
    arith: A,
    trace: EntropyTrace,
    now: Tick,
    low: Double,
    high: Double,
)
    requires
        low.at_most(high),
    ensures
        trace.alive(arith, now, high) ==> trace.alive(arith, now, low),
        trace.life(arith, now).below(low) ==> !trace.alive(arith, now, low),
        trace.life(arith, now).same(low) ==> trace.alive(arith, now, low),
        high.below(trace.life(arith, now)) ==> trace.alive(arith, now, high),
{
}

/// A touch restarts the clock: right after it no time has passed, and at a later tick the elapsed
/// time counts from the touch, not from any earlier one.
pub proof fn touching_restarts_the_clock<A: Arithmetic>(
    arith: A,
    trace: EntropyTrace,
    now: Tick,
    later: Tick,
    consolidation: Double,
)
    ensures
        trace.touched(arith, now, consolidation).elapsed(arith, later)
            == arithmetic::difference64(arith, later, now).larger(Double::nought()),
        trace.touched(arith, now, consolidation).salience == trace.salience,
{
}

/// A number is either faded or alive at a threshold, never both; only a weight or a threshold that
/// is not a number is neither.
pub proof fn faded_or_alive<A: Arithmetic>(
    arith: A,
    trace: EntropyTrace,
    now: Tick,
    theta: Double,
)
    requires
        !trace.life(arith, now).is_nan(),
        !theta.is_nan(),
    ensures
        trace.alive(arith, now, theta) <==> !trace.life(arith, now).below(theta),
{
}

} // verus!
