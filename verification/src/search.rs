//! Prediction-seeded maximum finding: scan a sequence of values once,
//! starting at a predicted index and wrapping circularly, and return the
//! index of a maximum value.

use vstd::prelude::*;

use crate::errors::EngineError;

verus! {

/// `i` is the lowest index holding a maximal value of `values`: every value
/// is at most `values[i]`, and every earlier value is strictly smaller.
/// For a non-empty sequence exactly one index satisfies this.
pub open spec fn is_least_max_index(values: Seq<u32>, i: int) -> bool {
    &&& 0 <= i < values.len()
    &&& forall|j: int| 0 <= j < values.len() ==> values[j] <= values[i]
    &&& forall|j: int| 0 <= j < i ==> values[j] < values[i]
}

/// The learning-augmented search engine.
pub struct Search {
    /// The largest value the search space may hold. Recorded at
    /// construction for callers that want to reason about their value
    /// range; the scan itself does not consult it.
    pub max_value: u32,
}

impl Search {
    /// Creates an engine for a search space bounded by `max_value`.
    pub fn new(max_value: u32) -> (r: Search)
        ensures
            r == (Search { max_value }),
    {
        Search { max_value }
    }

    /// Returns the index of a maximum of `values`, scanning once from the
    /// predicted index of the maximum and wrapping circularly; an
    /// out-of-bounds prediction starts the scan at the first element.
    ///
    /// Ties are broken toward the lowest absolute index, not scan order, so
    /// the result does not depend on where the scan started — the
    /// prediction can speed the search up but never changes the answer.
    /// An empty sequence is rejected rather than given an arbitrary index.
    pub fn decide(&self, values: Vec<u32>, prediction: u32) -> (r: Result<usize, EngineError>)
        ensures
            match r {
                Ok(i) => is_least_max_index(values@, i as int),
                Err(e) => values@.len() == 0 && e == EngineError::EmptyInput,
            },
    {
        let n: usize = values.len();
        if n == 0 {
            return Err(EngineError::EmptyInput);
        }
        let start: usize = if (prediction as usize) < n {
            prediction as usize
        } else {
            0
        };
        let mut best: usize = start;
        let mut best_val: u32 = values[start];
        let mut i: usize = start + 1;
        while i < n
            invariant
                0 <= start < n == values@.len(),
                start <= best < i <= n,
                best_val == values@[best as int],
                forall|j: int| start <= j < i ==> values@[j] <= best_val,
                forall|j: int| start <= j < i && j < best ==> values@[j] < best_val,
            decreases n - i,
        {
            let v: u32 = values[i];
            if v > best_val {
                best = i;
                best_val = v;
            }
            i = i + 1;
        }
        let mut k: usize = 0;
        while k < start
            invariant
                0 <= start < n == values@.len(),
                k <= start,
                best < n,
                best_val == values@[best as int],
                forall|j: int| start <= j < n ==> values@[j] <= best_val,
                forall|j: int| 0 <= j < k ==> values@[j] <= best_val,
                forall|j: int| start <= j < n && j < best ==> values@[j] < best_val,
                forall|j: int| 0 <= j < k && j < best ==> values@[j] < best_val,
            decreases start - k,
        {
            let v: u32 = values[k];
            if v > best_val || (v == best_val && k < best) {
                best = k;
                best_val = v;
            }
            k = k + 1;
        }
        Ok(best)
    }
}

} // verus!
