//! Predictive caching: given the caller-owned cache contents and an
//! accessed item, report whether the access was absorbed without eviction
//! and return the new contents.
//!
//! On a miss at full capacity the engine evicts the resident item with the
//! largest predicted next-access time — the item least likely to be needed
//! soon — breaking ties toward the first occurrence in the given order.
//! Items absent from the prediction map count as never predicted to return,
//! which makes them eviction-preferred.

use std::collections::HashMap;
use vstd::prelude::*;

use crate::errors::EngineError;

verus! {

broadcast use vstd::std_specs::hash::group_hash_axioms;

/// The predicted next-access time of `item`: the map entry where one
/// exists, else the worst (largest) possible time.
pub open spec fn predicted_next_access(predictions: Map<u32, u32>, item: u32) -> int {
    if predictions.contains_key(item) {
        predictions[item] as int
    } else {
        u32::MAX as int
    }
}

/// The index evicted from a full cache: the first index holding the
/// largest predicted next-access time among the residents.
pub open spec fn evict_index(predictions: Map<u32, u32>, cache: Seq<u32>) -> int
    decreases cache.len(),
{
    if cache.len() <= 1 {
        0
    } else {
        let rest = evict_index(predictions, cache.drop_last());
        if predicted_next_access(predictions, cache.last()) > predicted_next_access(
            predictions,
            cache[rest],
        ) {
            cache.len() - 1
        } else {
            rest
        }
    }
}

/// The evicted index is in bounds, holds a maximal predicted next-access
/// time, and every earlier resident's prediction is strictly smaller: ties
/// for the largest prediction go to the first occurrence in cache order.
pub proof fn lemma_evict_index_is_first_max(predictions: Map<u32, u32>, cache: Seq<u32>)
    requires
        cache.len() >= 1,
    ensures
        0 <= evict_index(predictions, cache) < cache.len(),
        forall|j: int|
            0 <= j < cache.len() ==> predicted_next_access(predictions, #[trigger] cache[j])
                <= predicted_next_access(predictions, cache[evict_index(predictions, cache)]),
        forall|j: int|
            0 <= j < evict_index(predictions, cache) ==> predicted_next_access(
                predictions,
                #[trigger] cache[j],
            ) < predicted_next_access(predictions, cache[evict_index(predictions, cache)]),
    decreases cache.len(),
{
    if cache.len() > 1 {
        lemma_evict_index_is_first_max(predictions, cache.drop_last());
        assert(forall|j: int|
            0 <= j < cache.len() - 1 ==> #[trigger] cache[j] == cache.drop_last()[j]);
    }
}

/// The learning-augmented caching engine.
///
/// The decision operation is a pure function from the caller's cache state
/// to the next one; the engine owns only its capacity and the immutable
/// prediction map fixed at construction.
pub struct Caching {
    /// The maximum number of items the cache may hold. Positive.
    pub cache_size: usize,
    /// Item identifier to predicted time of next access; lower values mean
    /// sooner. Missing entries are valid inputs, treated as worst-case.
    pub predictions: HashMap<u32, u32>,
}

impl Caching {
    /// The configuration invariant established at construction.
    pub open spec fn wf(&self) -> bool {
        self.cache_size > 0
    }

    /// Creates an engine, rejecting a capacity of zero.
    pub fn new(cache_size: usize, predictions: HashMap<u32, u32>) -> (r: Result<
        Caching,
        EngineError,
    >)
        ensures
            match r {
                Ok(c) => cache_size > 0 && c.cache_size == cache_size && c.predictions@
                    == predictions@,
                Err(e) => cache_size == 0 && e == EngineError::InvalidConfiguration,
            },
    {
        if cache_size == 0 {
            Err(EngineError::InvalidConfiguration)
        } else {
            Ok(Caching { cache_size, predictions })
        }
    }

    /// The decision as a function of the engine, the accessed item and the
    /// cache contents: the flag reports whether the access was absorbed
    /// without eviction (the item was resident, or there was spare room).
    pub open spec fn spec_decide(&self, item: u32, cache: Seq<u32>) -> (bool, Seq<u32>) {
        if cache.contains(item) {
            (true, cache)
        } else if cache.len() < self.cache_size {
            (true, cache.push(item))
        } else {
            (false, cache.remove(evict_index(self.predictions@, cache)).push(item))
        }
    }

    /// Processes an access of `item` against the given cache contents.
    ///
    /// A resident item leaves the cache untouched, order and all; a miss
    /// with spare capacity appends the item; a miss at full capacity evicts
    /// the resident chosen by [`evict_index`] and appends the item. The
    /// result is a function of the arguments alone: repeated calls with
    /// identical inputs return identical outputs.
    pub fn decide(&self, item: u32, cache: Vec<u32>) -> (r: (bool, Vec<u32>))
        requires
            self.wf(),
        ensures
            r.0 == self.spec_decide(item, cache@).0,
            r.1@ == self.spec_decide(item, cache@).1,
    {
        let ghost orig = cache@;
        let mut new_cache = cache;
        let n: usize = new_cache.len();
        let mut i: usize = 0;
        let mut found = false;
        while i < n
            invariant
                new_cache@ == orig,
                n == orig.len(),
                i <= n,
                found <==> (exists|j: int| 0 <= j < i && orig[j] == item),
            decreases n - i,
        {
            if new_cache[i] == item {
                assert(orig[i as int] == item);
                found = true;
            }
            i = i + 1;
        }
        assert(found == orig.contains(item));
        if found {
            return (true, new_cache);
        }

        if n < self.cache_size {
            new_cache.push(item);
            return (true, new_cache);
        }

        let mut evict_i: usize = 0;
        let mut max_pred: u32 = 0;
        let mut k: usize = 0;
        while k < n
            invariant
                new_cache@ == orig,
                n == orig.len(),
                n >= 1,
                k <= n,
                k == 0 ==> evict_i == 0 && max_pred == 0,
                k >= 1 ==> {
                    &&& evict_i < k
                    &&& evict_i == evict_index(self.predictions@, orig.take(k as int))
                    &&& max_pred == predicted_next_access(self.predictions@, orig[evict_i as int])
                },
            decreases n - k,
        {
            let id: u32 = new_cache[k];
            let p: u32 = match self.predictions.get(&id) {
                Some(v) => *v,
                None => u32::MAX,
            };
            assert(p == predicted_next_access(self.predictions@, orig[k as int]));
            proof {
                assert(orig.take(k + 1).drop_last() =~= orig.take(k as int));
                assert(orig.take(k + 1).last() == orig[k as int]);
            }
            if p > max_pred {
                max_pred = p;
                evict_i = k;
            }
            k = k + 1;
        }
        proof {
            assert(orig.take(n as int) =~= orig);
        }
        new_cache.remove(evict_i);
        new_cache.push(item);
        (false, new_cache)
    }
}

} // verus!
