//! A tournament-format simulation engine: it measures, by Monte Carlo
//! trials, how much advantage a randomly designated strong competitor
//! gains from a multi-stage tournament format.
//!
//! An authored definition (named stages with named placement references
//! and a scoring table) is resolved once into a flat, index-addressed
//! execution plan; each trial then runs the plan's stages in declaration
//! order — elimination series decided by exact binomial-tail
//! probabilities, round-robin groups with recursive tie-breaking — and
//! reads the scoring table. Probabilities are exact rationals over an
//! explicit denominator, so every probability computation here is plain
//! integer arithmetic; randomness enters only through one uniform-draw
//! primitive.
//!
//! Scores are integers. A table with fractional scores is represented by
//! scaling all its scores by a common denominator, which leaves the
//! advantage statistic unchanged.

pub mod math;
pub mod component;
pub mod model;
pub mod tournament;
pub mod rng;
pub mod runner;
pub mod sim;
