//! A word n-gram text classifier.
//!
//! The library trains, per label and per gram order, a table mapping grams to
//! observed probabilities, classifies sentences by multi-order voting over
//! those tables, measures accuracy over labelled datasets, shrinks a trained
//! model with accuracy-guarded pruning passes, and serializes the whole table
//! set to a line-oriented text format.
//!
//! Probabilities and accuracies are fixed-point numbers: the `u64` value `v`
//! stands for `v / PROB_SCALE`.

pub mod classify;
pub mod codec;
pub mod grams;
pub mod learn;
pub mod model;
pub mod nums;
pub mod strutil;
pub mod text;
pub mod totals;
pub mod train;
pub mod util;
