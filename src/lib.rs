//! Multi-armed bandit decision engines: annealed softmax and upper
//! confidence bound selection over a fixed list of arms, with per-arm pull
//! statistics that persist by arm identity.
//!
//! Arms are addressed by their position in the list the engine was built
//! with. Floats (rewards, scores, probabilities) reach this library as
//! `f64::to_bits` patterns, so that every decision taken on them is checked
//! here while the arithmetic that produces them stays with the caller.
use vstd::prelude::*;

pub mod codec;
pub mod pulls;
pub mod softmax;
pub mod ucb;
pub mod utils;

verus! {

/// Settings shared by every engine.
#[derive(Debug, PartialEq, Clone)]
pub struct BanditConfig {
    /// File that select and update events are appended to, if any.
    pub log_file: Option<String>,
}

impl Default for BanditConfig {
    /// No log file.
    fn default() -> (r: BanditConfig)
        ensures
            r.log_file is None,
    {
        BanditConfig { log_file: None }
    }
}

/// A stable, unique string that stands for an arm when an engine's state is
/// persisted.
pub trait Identifiable {
    fn ident(&self) -> String;
}

} // verus!
