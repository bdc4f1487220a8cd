//! Learning-augmented online decision algorithms.
//!
//! Each engine pairs a classical competitive-analysis algorithm (ski rental,
//! caching, one-way trading, makespan scheduling, maximum search) with an
//! untrusted prediction and a trust weight, blending worst-case-safe behavior
//! with prediction-guided behavior.
//!
//! Real-valued quantities (costs, prices, trust weights, probabilities) are
//! represented as exact fixed-point integers: trust weights in thousandths
//! (`trust::TRUST_UNIT` per whole unit) and probabilities in millionths
//! (`ski_rental::PROB_UNIT` per whole unit). All threshold comparisons are
//! exact rational comparisons carried out by cross-multiplication.

pub mod caching;
pub mod errors;
pub mod scheduling;
pub mod search;
pub mod ski_rental;
pub mod trading;
pub mod trust;
