//! Error handling, determinism, learning behavior and the scheduling
//! monotonicity, each on concrete values.

use std::collections::HashMap;

use laa_core::caching::Caching;
use laa_core::errors::EngineError;
use laa_core::scheduling::Scheduling;
use laa_core::search::Search;
use laa_core::ski_rental::{AdaptiveSkiRental, RandomizedSkiRental, SkiRental};
use laa_core::trading::OnewayTrading;

fn max_machine_load(num_machines: usize, job_lengths: &[u32], assignments: &[usize]) -> u64 {
    let mut loads = vec![0u64; num_machines];
    for (job, &machine) in assignments.iter().enumerate() {
        loads[machine] += job_lengths[job] as u64;
    }
    loads.into_iter().max().unwrap()
}

#[test]
fn invalid_configurations_are_rejected() {
    assert_eq!(SkiRental::new(0).err(), Some(EngineError::InvalidConfiguration));
    assert_eq!(SkiRental::new(-7).err(), Some(EngineError::InvalidConfiguration));
    assert_eq!(RandomizedSkiRental::new(0).err(), Some(EngineError::InvalidConfiguration));
    assert_eq!(
        AdaptiveSkiRental::new(-1, 500, 100).err(),
        Some(EngineError::InvalidConfiguration)
    );
    assert_eq!(
        Caching::new(0, HashMap::new()).err(),
        Some(EngineError::InvalidConfiguration)
    );
    assert_eq!(OnewayTrading::new(0).err(), Some(EngineError::InvalidConfiguration));
    assert_eq!(Scheduling::new(0).err(), Some(EngineError::InvalidConfiguration));
}

#[test]
fn scheduling_rejects_mismatched_lengths() {
    let scheduling = Scheduling::new(2).unwrap();
    let r = scheduling.decide(vec![10, 5, 12], vec![5, 10]);
    assert_eq!(r.unwrap_err(), EngineError::LengthMismatch);
}

#[test]
fn search_rejects_empty_input() {
    let search = Search::new(100);
    let r = search.decide(vec![], 0);
    assert_eq!(r.unwrap_err(), EngineError::EmptyInput);
}

#[test]
fn ski_rental_half_trust_exact_threshold() {
    // threshold = (1 - 0.5) * 100 + 0.5 * 40 = 70
    let ski_rental = SkiRental::new(100).unwrap();
    assert_eq!(ski_rental.decide(69, 40, 500), false);
    assert_eq!(ski_rental.decide(70, 40, 500), true);
}

#[test]
fn ski_rental_overlong_prediction_acts_clamped() {
    let ski_rental = SkiRental::new(100).unwrap();
    for day in [1, 50, 99, 100, 101, 200] {
        assert_eq!(
            ski_rental.decide(day, 120, 1000),
            ski_rental.decide(day, 100, 1000)
        );
        assert_eq!(
            ski_rental.decide(day, 120, 700),
            ski_rental.decide(day, 100, 700)
        );
    }
}

#[test]
fn trading_out_of_range_trust_extrapolates() {
    // threshold = (1 - 2) * 100 + 2 * 120 = 140
    let trading = OnewayTrading::new(100).unwrap();
    assert_eq!(trading.decide(139, 120, 2000), false);
    assert_eq!(trading.decide(140, 120, 2000), true);
}

#[test]
fn stateless_decisions_are_idempotent() {
    let ski_rental = SkiRental::new(100).unwrap();
    assert_eq!(ski_rental.decide(73, 61, 400), ski_rental.decide(73, 61, 400));

    let trading = OnewayTrading::new(100).unwrap();
    assert_eq!(trading.decide(111, 95, 300), trading.decide(111, 95, 300));

    let mut predictions = HashMap::new();
    predictions.insert(5, 2);
    predictions.insert(6, 9);
    let caching = Caching::new(2, predictions).unwrap();
    assert_eq!(
        caching.decide(7, vec![5, 6]),
        caching.decide(7, vec![5, 6])
    );

    let scheduling = Scheduling::new(3).unwrap();
    assert_eq!(
        scheduling.decide(vec![4, 4, 9, 1], vec![2, 2, 8, 1]).unwrap(),
        scheduling.decide(vec![4, 4, 9, 1], vec![2, 2, 8, 1]).unwrap()
    );

    let search = Search::new(10);
    assert_eq!(
        search.decide(vec![3, 9, 2, 9], 1).unwrap(),
        search.decide(vec![3, 9, 2, 9], 1).unwrap()
    );
}

#[test]
fn caching_evicts_unpredicted_item_first() {
    let mut predictions = HashMap::new();
    predictions.insert(1, 10);
    predictions.insert(2, 5);
    let caching = Caching::new(3, predictions).unwrap();
    // Item 3 has no prediction, so it counts as farthest away and leaves.
    let (hit, new_cache) = caching.decide(4, vec![1, 2, 3]);
    assert_eq!(hit, false);
    assert_eq!(new_cache, vec![1, 2, 4]);
}

#[test]
fn caching_eviction_tie_goes_to_first_resident() {
    let caching = Caching::new(3, HashMap::new()).unwrap();
    // No predictions at all: every resident ties, the first one leaves.
    let (hit, new_cache) = caching.decide(10, vec![7, 8, 9]);
    assert_eq!(hit, false);
    assert_eq!(new_cache, vec![8, 9, 10]);
}

#[test]
fn search_out_of_bounds_prediction_starts_at_front() {
    let search = Search::new(100);
    assert_eq!(search.decide(vec![3, 9, 2], 99).unwrap(), 1);
}

#[test]
fn search_tie_breaks_toward_lowest_index() {
    let search = Search::new(100);
    // The circular scan starting at 2 sees the 9 at index 2 first, but the
    // tie goes to the lowest absolute index.
    assert_eq!(search.decide(vec![5, 9, 9], 2).unwrap(), 1);
    assert_eq!(search.decide(vec![9, 5, 9], 2).unwrap(), 0);
}

#[test]
fn scheduling_more_machines_never_increase_makespan() {
    let jobs: Vec<u32> = vec![10, 5, 12, 7, 7, 3];
    let preds: Vec<u32> = vec![9, 6, 12, 8, 2, 3];
    let mut previous = u64::MAX;
    for m in 1..=6usize {
        let scheduling = Scheduling::new(m).unwrap();
        let assignments = scheduling.decide(jobs.clone(), preds.clone()).unwrap();
        let makespan = max_machine_load(m, &jobs, &assignments);
        assert!(makespan <= previous, "machines {}: {} > {}", m, makespan, previous);
        previous = makespan;
    }
}

#[test]
fn randomized_certain_and_impossible_probabilities() {
    // buy_cost 1, day 3, zero trust: probability clamps to one, so every
    // sample buys; a fabricated sample would break this.
    let certain = RandomizedSkiRental::new(1).unwrap();
    for _ in 0..50 {
        assert_eq!(certain.decide(3, 1, 0), true);
    }
    // Day zero: no rent yet, probability zero, never buy.
    let idle = RandomizedSkiRental::new(100).unwrap();
    for _ in 0..50 {
        assert_eq!(idle.decide(0, 50, 500), false);
    }
}

#[test]
fn randomized_sample_threshold_is_exact() {
    // buy_cost 100, day 50, zero trust: threshold numerator 100000, so the
    // probability is 50 * 100000 * 1000000 / (100 * 100 * 2718) millionths,
    // which is 183958 rounded down.
    let rental = RandomizedSkiRental::new(100).unwrap();
    assert_eq!(rental.decide_with_sample(50, 200, 0, 183957), true);
    assert_eq!(rental.decide_with_sample(50, 200, 0, 183958), false);
}

#[test]
fn adaptive_trust_rises_on_accurate_predictions() {
    // |90 - 95| / 100 = 0.05 < 0.1: trust rises by the learning rate.
    let mut engine = AdaptiveSkiRental::new(100, 500, 100).unwrap();
    engine.feedback(90, 95);
    assert_eq!(engine.trust, 600);
}

#[test]
fn adaptive_trust_falls_on_unreliable_predictions() {
    // |10 - 95| / 100 = 0.85 > 0.3: trust falls by the learning rate.
    let mut engine = AdaptiveSkiRental::new(100, 500, 100).unwrap();
    engine.feedback(10, 95);
    assert_eq!(engine.trust, 400);
}

#[test]
fn adaptive_trust_dead_zone_keeps_trust() {
    // |80 - 100| / 100 = 0.2: between the bands, trust is unchanged.
    let mut engine = AdaptiveSkiRental::new(100, 500, 100).unwrap();
    engine.feedback(80, 100);
    assert_eq!(engine.trust, 500);
}

#[test]
fn adaptive_trust_stays_clamped() {
    let mut engine = AdaptiveSkiRental::new(100, 950, 100).unwrap();
    engine.feedback(100, 100);
    assert_eq!(engine.trust, 1000);
    engine.feedback(100, 100);
    assert_eq!(engine.trust, 1000);

    let mut wary = AdaptiveSkiRental::new(100, 50, 100).unwrap();
    wary.feedback(0, 100);
    assert_eq!(wary.trust, 0);
    wary.feedback(0, 100);
    assert_eq!(wary.trust, 0);
}

#[test]
fn adaptive_initial_trust_is_clamped() {
    let engine = AdaptiveSkiRental::new(100, 5000, 10).unwrap();
    assert_eq!(engine.trust, 1000);
    let wary = AdaptiveSkiRental::new(100, -5000, 10).unwrap();
    assert_eq!(wary.trust, 0);
}

#[test]
fn adaptive_decides_with_its_own_trust() {
    // Full trust, prediction 25: buys on day 25, like the deterministic
    // engine with a trust argument of 1000.
    let engine = AdaptiveSkiRental::new(100, 1000, 10).unwrap();
    assert_eq!(engine.decide(24, 25), false);
    assert_eq!(engine.decide(25, 25), true);
    // Feedback, not decisions, is what moves the trust weight.
    let reference = SkiRental::new(100).unwrap();
    for day in [1, 24, 25, 99, 100] {
        assert_eq!(engine.decide(day, 25), reference.decide(day, 25, 1000));
    }
}
