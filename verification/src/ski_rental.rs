//! Ski rental: rent day by day or buy once, with an untrusted prediction of
//! the season length.
//!
//! Three variants share the same blended threshold
//! `(1 - trust) * buy_cost + trust * min(prediction, buy_cost)`:
//! a deterministic engine, a randomized engine that turns the threshold into
//! a buy probability, and an adaptive engine that owns its trust weight and
//! learns it from feedback.

use rand::Rng;
use vstd::prelude::*;

use crate::errors::EngineError;
use crate::trust::{blend_num, clamp_trust, lemma_abs_mul_bound, TRUST_UNIT};

verus! {

/// Number of fixed-point steps in one whole unit of probability: a buy
/// probability of `PROB_UNIT` millionths is certainty.
pub const PROB_UNIT: u64 = 1_000_000;

/// The base of the natural logarithm in thousandths, the constant that
/// normalizes the randomized buy probability.
pub const E_MILLI: i64 = 2718;

/// A product of positive factors is positive.
proof fn lemma_mul_pos(a: int, b: int)
    by (nonlinear_arith)
    requires
        a > 0,
        b > 0,
    ensures
        a * b > 0,
{
}

/// The deterministic rule shared by the trust-argument engine and the
/// adaptive engine: buy once the accumulated rent reaches the blended
/// threshold. The prediction is clamped to `buy_cost`, since a season
/// predicted to outlast the buy cost argues no harder for buying than one
/// exactly as long. Both sides of the comparison are scaled by `TRUST_UNIT`.
pub open spec fn spec_buy_decision(buy_cost: int, day: int, prediction: int, trust: int) -> bool {
    TRUST_UNIT * day >= blend_num(buy_cost, vstd::math::min(prediction, buy_cost), trust)
}

/// The randomized engine's buy probability in millionths of certainty:
/// `day * threshold / (buy_cost^2 * e)` clamped to `[0, 1]`, with the
/// blended threshold of `spec_buy_decision` and `e` in thousandths.
/// The `TRUST_UNIT` denominator of the threshold numerator and the
/// thousandths denominator of `E_MILLI` cancel.
pub open spec fn buy_prob_micros(buy_cost: int, day: int, prediction: int, trust: int) -> int {
    let t_num = blend_num(buy_cost, vstd::math::min(prediction, buy_cost), trust);
    let num = day * t_num * PROB_UNIT;
    if num <= 0 {
        0
    } else {
        vstd::math::min(num / (buy_cost * buy_cost * E_MILLI), PROB_UNIT as int)
    }
}

/// Relies on rand's `Rng::gen_range` on `low..high`: the sample lies in the
/// given range, and the call panics only on an empty range, which
/// `bound > 0` rules out.
#[verifier::external_body]
fn sample_below(bound: u64) -> (r: u64)
    requires
        bound > 0,
    ensures
        r < bound,
{
    rand::thread_rng().gen_range(0..bound)
}

/// The deterministic learning-augmented ski rental engine.
///
/// With zero trust it reduces to the classical 2-competitive rule (buy on
/// the day the rent reaches the buy cost); with full trust and a perfect
/// prediction it buys on the predicted day.
pub struct SkiRental {
    /// The cost of buying outright, in whole cost units. Positive.
    pub buy_cost: i32,
}

impl SkiRental {
    /// The configuration invariant established at construction.
    pub open spec fn wf(&self) -> bool {
        self.buy_cost > 0
    }

    /// Creates an engine, rejecting a non-positive buy cost.
    pub fn new(buy_cost: i32) -> (r: Result<SkiRental, EngineError>)
        ensures
            buy_cost <= 0 ==> r == Err::<SkiRental, EngineError>(EngineError::InvalidConfiguration),
            buy_cost > 0 ==> r == Ok::<SkiRental, EngineError>((SkiRental { buy_cost })),
    {
        if buy_cost <= 0 {
            Err(EngineError::InvalidConfiguration)
        } else {
            Ok(SkiRental { buy_cost })
        }
    }

    /// Decides whether to buy on the given day (1-indexed cumulative rent),
    /// for a predicted season length and a trust weight in thousandths.
    ///
    /// The result is a function of the arguments alone: repeated calls with
    /// identical inputs return identical answers.
    pub fn decide(&self, day: u32, prediction: i32, trust: i32) -> (r: bool)
        ensures
            r == spec_buy_decision(self.buy_cost as int, day as int, prediction as int, trust as int),
    {
        let clamped: i32 = if prediction < self.buy_cost {
            prediction
        } else {
            self.buy_cost
        };
        let a: i128 = (TRUST_UNIT as i128) - (trust as i128);
        let t: i128 = trust as i128;
        let c: i128 = self.buy_cost as i128;
        let p: i128 = clamped as i128;
        proof {
            lemma_abs_mul_bound(a as int, c as int, 0x2_0000_0000, 0x1_0000_0000);
            lemma_abs_mul_bound(t as int, p as int, 0x2_0000_0000, 0x1_0000_0000);
        }
        let rhs: i128 = a * c + t * p;
        let lhs: i128 = (day as i128) * (TRUST_UNIT as i128);
        lhs >= rhs
    }
}

/// The randomized learning-augmented ski rental engine.
///
/// It computes the same blended threshold as [`SkiRental`], derives from it
/// a buy probability that grows with the accumulated rent, and flips a coin
/// weighted by that probability on every call.
pub struct RandomizedSkiRental {
    /// The cost of buying outright, in whole cost units. Positive.
    pub buy_cost: i32,
}

impl RandomizedSkiRental {
    /// The configuration invariant established at construction.
    pub open spec fn wf(&self) -> bool {
        self.buy_cost > 0
    }

    /// Creates an engine, rejecting a non-positive buy cost.
    pub fn new(buy_cost: i32) -> (r: Result<RandomizedSkiRental, EngineError>)
        ensures
            buy_cost <= 0 ==> r == Err::<RandomizedSkiRental, EngineError>(
                EngineError::InvalidConfiguration,
            ),
            buy_cost > 0 ==> r == Ok::<RandomizedSkiRental, EngineError>(
                (RandomizedSkiRental { buy_cost }),
            ),
    {
        if buy_cost <= 0 {
            Err(EngineError::InvalidConfiguration)
        } else {
            Ok(RandomizedSkiRental { buy_cost })
        }
    }

    /// The decision for one uniform sample drawn from `[0, PROB_UNIT)`:
    /// buy exactly when the sample falls below the buy probability.
    pub fn decide_with_sample(&self, day: u32, prediction: i32, trust: i32, sample: u64) -> (r:
        bool)
        requires
            self.wf(),
            sample < PROB_UNIT,
        ensures
            r == ((sample as int) < buy_prob_micros(
                self.buy_cost as int,
                day as int,
                prediction as int,
                trust as int,
            )),
    {
        let clamped: i32 = if prediction < self.buy_cost {
            prediction
        } else {
            self.buy_cost
        };
        let a: i128 = (TRUST_UNIT as i128) - (trust as i128);
        let t: i128 = trust as i128;
        let c: i128 = self.buy_cost as i128;
        let p: i128 = clamped as i128;
        proof {
            lemma_abs_mul_bound(a as int, c as int, 0x2_0000_0000, 0x1_0000_0000);
            lemma_abs_mul_bound(t as int, p as int, 0x2_0000_0000, 0x1_0000_0000);
        }
        let t_num: i128 = a * c + t * p;
        proof {
            lemma_abs_mul_bound(
                day as int,
                t_num as int,
                0x1_0000_0000,
                0x4_0000_0000_0000_0000,
            );
        }
        let day_t: i128 = (day as i128) * t_num;
        let num: i128 = day_t * 1_000_000i128;
        assert(num == (day as int) * (t_num as int) * (PROB_UNIT as int));
        if num <= 0 {
            false
        } else {
            proof {
                lemma_abs_mul_bound(c as int, c as int, 0x1_0000_0000, 0x1_0000_0000);
                lemma_mul_pos(c as int, c as int);
                lemma_mul_pos((c * c) as int, E_MILLI as int);
            }
            let den: i128 = c * c * (E_MILLI as i128);
            let q: u128 = (num as u128) / (den as u128);
            let prob: u128 = if q < PROB_UNIT as u128 {
                q
            } else {
                PROB_UNIT as u128
            };
            (sample as u128) < prob
        }
    }

    /// Makes the probabilistic daily decision, drawing a fresh uniform
    /// sample for the weighted coin flip.
    ///
    /// The outcome varies from call to call; what holds of every outcome is
    /// that a zero probability never buys and a full probability always
    /// does, as [`Self::decide_with_sample`] states exactly.
    pub fn decide(&self, day: u32, prediction: i32, trust: i32) -> (r: bool)
        requires
            self.wf(),
        ensures
            buy_prob_micros(self.buy_cost as int, day as int, prediction as int, trust as int)
                <= 0 ==> r == false,
            buy_prob_micros(self.buy_cost as int, day as int, prediction as int, trust as int)
                >= PROB_UNIT ==> r == true,
    {
        let sample: u64 = sample_below(PROB_UNIT);
        self.decide_with_sample(day, prediction, trust, sample)
    }
}

/// Before any rent accumulates the randomized engine never buys.
pub proof fn lemma_prob_zero_without_rent(buy_cost: int, prediction: int, trust: int)
    ensures
        buy_prob_micros(buy_cost, 0, prediction, trust) == 0,
{
}

/// For a fixed configuration, prediction and trust weight, the randomized
/// buy probability never decreases as the days accumulate.
pub proof fn lemma_prob_monotone_in_day(
    buy_cost: int,
    day1: int,
    day2: int,
    prediction: int,
    trust: int,
)
    requires
        buy_cost > 0,
        0 <= day1 <= day2,
    ensures
        buy_prob_micros(buy_cost, day1, prediction, trust) <= buy_prob_micros(
            buy_cost,
            day2,
            prediction,
            trust,
        ),
{
    let t_num = blend_num(buy_cost, vstd::math::min(prediction, buy_cost), trust);
    let den = buy_cost * buy_cost * E_MILLI;
    lemma_mul_pos(buy_cost, buy_cost);
    lemma_mul_pos(buy_cost * buy_cost, E_MILLI as int);
    let num1 = day1 * t_num * PROB_UNIT;
    let num2 = day2 * t_num * PROB_UNIT;
    if t_num <= 0 {
        assert(num1 <= 0 && num2 <= 0) by (nonlinear_arith)
            requires
                num1 == day1 * t_num * PROB_UNIT,
                num2 == day2 * t_num * PROB_UNIT,
                t_num <= 0,
                0 <= day1,
                0 <= day2,
        ;
    } else {
        assert(num1 <= num2) by (nonlinear_arith)
            requires
                num1 == day1 * t_num * PROB_UNIT,
                num2 == day2 * t_num * PROB_UNIT,
                t_num > 0,
                0 <= day1 <= day2,
        ;
        if num1 <= 0 {
            if num2 > 0 {
                vstd::arithmetic::div_mod::lemma_div_is_ordered(0, num2, den);
            }
        } else {
            vstd::arithmetic::div_mod::lemma_div_is_ordered(num1, num2, den);
        }
    }
}

/// The adaptive-trust ski rental engine: the only stateful variant.
///
/// Decisions use the deterministic rule against the engine's own trust
/// weight; explicit feedback calls move that weight toward predictions that
/// prove accurate and away from ones that prove unreliable, with a dead
/// zone between the two error bands to avoid oscillation.
pub struct AdaptiveSkiRental {
    /// The cost of buying outright, in whole cost units. Positive.
    pub buy_cost: i32,
    /// The engine-owned trust weight in thousandths, kept in
    /// `[0, TRUST_UNIT]`.
    pub trust: i32,
    /// How far one feedback call moves the trust weight, in thousandths.
    pub learning_rate: i32,
}

/// The trust weight after one feedback call: the relative prediction error
/// `|prediction - actual| / buy_cost` below one tenth raises trust by the
/// learning rate, above three tenths lowers it, anything between leaves it
/// unchanged; an adjusted weight is clamped to `[0, TRUST_UNIT]`. The error
/// bands are compared exactly: `err < 1/10` as `10 * |diff| < buy_cost`.
pub open spec fn spec_feedback_trust(
    buy_cost: int,
    trust: int,
    learning_rate: int,
    prediction: int,
    actual: int,
) -> int {
    let err10 = 10 * vstd::math::abs(prediction - actual);
    if err10 < buy_cost {
        clamp_trust(trust + learning_rate)
    } else if err10 > 3 * buy_cost {
        clamp_trust(trust - learning_rate)
    } else {
        trust
    }
}

impl AdaptiveSkiRental {
    /// The invariant established at construction and preserved by feedback.
    pub open spec fn wf(&self) -> bool {
        self.buy_cost > 0 && 0 <= self.trust <= TRUST_UNIT
    }

    /// Creates an engine, rejecting a non-positive buy cost. The initial
    /// trust weight is clamped to `[0, TRUST_UNIT]`; the learning rate is
    /// stored as given.
    pub fn new(buy_cost: i32, initial_trust: i32, learning_rate: i32) -> (r: Result<
        AdaptiveSkiRental,
        EngineError,
    >)
        ensures
            buy_cost <= 0 ==> r == Err::<AdaptiveSkiRental, EngineError>(
                EngineError::InvalidConfiguration,
            ),
            buy_cost > 0 ==> (match r {
                Ok(e) => {
                    &&& e.buy_cost == buy_cost
                    &&& e.trust == clamp_trust(initial_trust as int)
                    &&& e.learning_rate == learning_rate
                    &&& e.wf()
                },
                Err(_) => false,
            }),
    {
        if buy_cost <= 0 {
            Err(EngineError::InvalidConfiguration)
        } else {
            let trust: i32 = if initial_trust < 0 {
                0
            } else if initial_trust > TRUST_UNIT {
                TRUST_UNIT
            } else {
                initial_trust
            };
            Ok(AdaptiveSkiRental { buy_cost, trust, learning_rate })
        }
    }

    /// Decides whether to buy on the given day, using the deterministic
    /// rule of [`SkiRental`] against the engine's own trust weight. The
    /// engine is not mutated: only explicit feedback moves the weight.
    pub fn decide(&self, day: u32, prediction: i32) -> (r: bool)
        ensures
            r == spec_buy_decision(
                self.buy_cost as int,
                day as int,
                prediction as int,
                self.trust as int,
            ),
    {
        let clamped: i32 = if prediction < self.buy_cost {
            prediction
        } else {
            self.buy_cost
        };
        let a: i128 = (TRUST_UNIT as i128) - (self.trust as i128);
        let t: i128 = self.trust as i128;
        let c: i128 = self.buy_cost as i128;
        let p: i128 = clamped as i128;
        proof {
            lemma_abs_mul_bound(a as int, c as int, 0x2_0000_0000, 0x1_0000_0000);
            lemma_abs_mul_bound(t as int, p as int, 0x2_0000_0000, 0x1_0000_0000);
        }
        let rhs: i128 = a * c + t * p;
        let lhs: i128 = (day as i128) * (TRUST_UNIT as i128);
        lhs >= rhs
    }

    /// Reports how a prediction compared to the actual outcome, moving the
    /// engine's trust weight as [`spec_feedback_trust`] states. The
    /// configuration is untouched, so the invariant persists.
    pub fn feedback(&mut self, prediction: i32, actual: i32)
        ensures
            final(self).buy_cost == old(self).buy_cost,
            final(self).learning_rate == old(self).learning_rate,
            final(self).trust == spec_feedback_trust(
                old(self).buy_cost as int,
                old(self).trust as int,
                old(self).learning_rate as int,
                prediction as int,
                actual as int,
            ),
            old(self).wf() ==> final(self).wf(),
    {
        let diff: i64 = (prediction as i64) - (actual as i64);
        let abs_diff: i64 = if diff < 0 {
            -diff
        } else {
            diff
        };
        let err10: i64 = 10 * abs_diff;
        let c: i64 = self.buy_cost as i64;
        if err10 < c {
            self.trust = Self::clamped(self.trust as i64 + self.learning_rate as i64);
        } else if err10 > 3 * c {
            self.trust = Self::clamped(self.trust as i64 - self.learning_rate as i64);
        }
    }

    /// Clamps a candidate trust weight to `[0, TRUST_UNIT]`.
    fn clamped(t: i64) -> (r: i32)
        ensures
            r == clamp_trust(t as int),
    {
        if t < 0 {
            0
        } else if t > TRUST_UNIT as i64 {
            TRUST_UNIT
        } else {
            t as i32
        }
    }
}

/// The deterministic rule clamps the prediction: any prediction at least as
/// large as the buy cost decides exactly as a prediction equal to the buy
/// cost, so an overlong predicted season never pushes the threshold past
/// the buy cost.
pub proof fn lemma_prediction_clamped(buy_cost: int, day: int, prediction: int, trust: int)
    requires
        prediction >= buy_cost,
    ensures
        spec_buy_decision(buy_cost, day, prediction, trust) == spec_buy_decision(
            buy_cost,
            day,
            buy_cost,
            trust,
        ),
{
}

/// With zero trust the deterministic rule ignores the prediction entirely
/// and reduces to the classical rule: buy exactly when the accumulated rent
/// reaches the buy cost.
pub proof fn lemma_zero_trust_is_classical(buy_cost: int, day: int, prediction: int)
    ensures
        spec_buy_decision(buy_cost, day, prediction, 0) == (day >= buy_cost),
{
}

} // verus!
