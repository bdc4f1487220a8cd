//! One-way trading: decide once whether to execute an irreversible trade at
//! the current price, given a predicted future price and a trust weight.

use vstd::prelude::*;

use crate::errors::EngineError;
use crate::trust::{blend_num, lemma_abs_mul_bound, TRUST_UNIT};

verus! {

/// The trading rule: trade exactly when the current price reaches the
/// blended threshold `(1 - trust) * buy_price + trust * prediction`. Unlike
/// ski rental the prediction is not clamped, since prices are unbounded
/// above; both sides of the comparison are scaled by `TRUST_UNIT`.
pub open spec fn spec_trade_decision(
    buy_price: int,
    current_price: int,
    prediction: int,
    trust: int,
) -> bool {
    TRUST_UNIT * current_price >= blend_num(buy_price, prediction, trust)
}

/// The learning-augmented one-way trading engine.
pub struct OnewayTrading {
    /// The reference price of the asset, in whole price units. Positive.
    pub buy_price: i32,
}

impl OnewayTrading {
    /// The configuration invariant established at construction.
    pub open spec fn wf(&self) -> bool {
        self.buy_price > 0
    }

    /// Creates an engine, rejecting a non-positive reference price.
    pub fn new(buy_price: i32) -> (r: Result<OnewayTrading, EngineError>)
        ensures
            buy_price <= 0 ==> r == Err::<OnewayTrading, EngineError>(
                EngineError::InvalidConfiguration,
            ),
            buy_price > 0 ==> r == Ok::<OnewayTrading, EngineError>((OnewayTrading { buy_price })),
    {
        if buy_price <= 0 {
            Err(EngineError::InvalidConfiguration)
        } else {
            Ok(OnewayTrading { buy_price })
        }
    }

    /// Decides whether to execute the trade now, for the current market
    /// price, a predicted future price and a trust weight in thousandths.
    /// A trust weight outside `[0, TRUST_UNIT]` linearly extrapolates the
    /// threshold: accepted behavior, the caller's responsibility.
    ///
    /// The result is a function of the arguments alone: repeated calls with
    /// identical inputs return identical answers.
    pub fn decide(&self, current_price: i32, prediction: i32, trust: i32) -> (r: bool)
        ensures
            r == spec_trade_decision(
                self.buy_price as int,
                current_price as int,
                prediction as int,
                trust as int,
            ),
    {
        let a: i128 = (TRUST_UNIT as i128) - (trust as i128);
        let t: i128 = trust as i128;
        let b: i128 = self.buy_price as i128;
        let p: i128 = prediction as i128;
        proof {
            lemma_abs_mul_bound(a as int, b as int, 0x2_0000_0000, 0x1_0000_0000);
            lemma_abs_mul_bound(t as int, p as int, 0x2_0000_0000, 0x1_0000_0000);
        }
        let rhs: i128 = a * b + t * p;
        let lhs: i128 = (current_price as i128) * (TRUST_UNIT as i128);
        lhs >= rhs
    }
}

/// With zero trust the trading rule ignores the prediction entirely: it
/// trades exactly when the current price has reached the reference price.
pub proof fn lemma_zero_trust_trades_at_reference(
    buy_price: int,
    current_price: int,
    prediction: int,
)
    ensures
        spec_trade_decision(buy_price, current_price, prediction, 0) == (current_price
            >= buy_price),
{
}

} // verus!
