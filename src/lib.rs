//! An incremental, grammar-constrained Earley recognizer over bytes.
//!
//! A [`grammar::Grammar`] in lowered normal form and a [`vocabulary::Vocabulary`]
//! drive an [`engine_base::EngineBase`], which accepts tokens one at a time and
//! computes which tokens may come next.
mod bitset;
pub mod earley_sets;
pub mod engine;
pub mod engine_base;
pub mod grammar;
pub mod model;
pub mod vocabulary;

pub use fixedbitset::FixedBitSet;
