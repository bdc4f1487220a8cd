//! The decision engines on their reference scenarios.
//!
//! Trust weights are in thousandths (1000 = full trust), costs and prices
//! in whole units.

use std::collections::HashMap;

use laa_core::caching::Caching;
use laa_core::scheduling::Scheduling;
use laa_core::search::Search;
use laa_core::ski_rental::{RandomizedSkiRental, SkiRental};
use laa_core::trading::OnewayTrading;
use rand::Rng;

#[test]
fn test_ski_rental_no_trust() {
    let ski_rental = SkiRental::new(100).unwrap();
    assert_eq!(ski_rental.decide(99, 10, 0), false);
    assert_eq!(ski_rental.decide(100, 10, 0), true);
}

#[test]
fn test_ski_rental_full_trust_good_prediction() {
    let ski_rental = SkiRental::new(100).unwrap();
    assert_eq!(ski_rental.decide(24, 25, 1000), false);
    assert_eq!(ski_rental.decide(25, 25, 1000), true);
}

#[test]
fn test_ski_rental_full_trust_bad_prediction() {
    let ski_rental = SkiRental::new(100).unwrap();
    // Prediction is 120, but it's clamped at buy_cost (100), so threshold is 100.
    assert_eq!(ski_rental.decide(99, 120, 1000), false);
    assert_eq!(ski_rental.decide(100, 120, 1000), true);
}

#[test]
fn test_caching_hit() {
    let caching = Caching::new(3, HashMap::new()).unwrap();
    let cache = vec![1, 2, 3];
    let (hit, new_cache) = caching.decide(2, cache.clone());
    assert_eq!(hit, true);
    assert_eq!(new_cache, cache);
}

#[test]
fn test_caching_miss_no_eviction() {
    let caching = Caching::new(3, HashMap::new()).unwrap();
    let cache = vec![1, 2];
    let (hit, new_cache) = caching.decide(3, cache.clone());
    assert_eq!(hit, true);
    assert_eq!(new_cache, vec![1, 2, 3]);
}

#[test]
fn test_caching_miss_with_eviction() {
    let mut predictions = HashMap::new();
    predictions.insert(1, 10);
    predictions.insert(2, 5);
    predictions.insert(3, 15);
    let caching = Caching::new(3, predictions).unwrap();
    let cache = vec![1, 2, 3];
    let (hit, new_cache) = caching.decide(4, cache.clone());
    assert_eq!(hit, false);
    assert_eq!(new_cache, vec![1, 2, 4]);
}

#[test]
fn test_oneway_trading_no_trust() {
    let trading = OnewayTrading::new(100).unwrap();
    assert_eq!(trading.decide(99, 120, 0), false);
    assert_eq!(trading.decide(100, 120, 0), true);
}

#[test]
fn test_oneway_trading_full_trust() {
    let trading = OnewayTrading::new(100).unwrap();
    assert_eq!(trading.decide(119, 120, 1000), false);
    assert_eq!(trading.decide(120, 120, 1000), true);
}

#[test]
fn test_scheduling() {
    let scheduling = Scheduling::new(2).unwrap();
    let job_lengths = vec![10, 5, 12];
    let predictions = vec![5, 10, 12];
    let assignments = scheduling.decide(job_lengths, predictions).unwrap();
    assert_eq!(assignments, vec![0, 1, 1]);
}

#[test]
fn test_search() {
    let search = Search::new(100);
    let values = vec![10, 5, 12, 50, 99];
    let prediction = 4;
    let best_index = search.decide(values, prediction).unwrap();
    assert_eq!(best_index, 4);
}

#[test]
fn test_randomized_ski_rental_statistical() {
    let buy_cost = 100;
    let num_simulations = 10000;
    let mut total_ratio = 0.0;
    let mut rng = rand::thread_rng();

    for _ in 0..num_simulations {
        let ski_days: u32 = rng.gen_range(1..150);
        // Add more realistic noise to the prediction
        let noise = rng.gen_range(0.7..1.3);
        let prediction = (ski_days as f64 * noise).max(1.0) as i32;
        let trust = 800;
        let rental = RandomizedSkiRental::new(buy_cost).unwrap();

        let mut alg_cost = ski_days as f64; // Default cost is renting all days
        for day in 1..=ski_days {
            if rental.decide(day, prediction, trust) {
                alg_cost = (day - 1) as f64 + buy_cost as f64;
                break; // Decision is final
            }
        }

        let optimal_cost = (ski_days as f64).min(buy_cost as f64);
        total_ratio += alg_cost / optimal_cost;
    }

    let avg_ratio = total_ratio / num_simulations as f64;
    assert!(avg_ratio < 1.7, "Average ratio was {}", avg_ratio);
}
