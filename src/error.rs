//! The faults of a model.

use vstd::prelude::*;
use crate::value::ValueError;

verus! {

/// A configuration or programming error in a model. None is retried: each
/// is fatal to the run in progress.
#[derive(Clone, Debug)]
pub enum SimError {
    /// Two signals for `key`, or a value computed for `key`, could not be combined.
    Combine { key: String, error: ValueError },
    /// A state was constructed with `key` given twice.
    DuplicateKey { key: String },
    /// A lookup asked for `key`, which is absent.
    MissingKey { key: String },
    /// The update function registered for `expected` returned `found`.
    KeyMismatch { expected: String, found: String },
    /// The update functions do not claim the non-reserved keys one to one:
    /// `key` is claimed by none, by two, is reserved, or is not a state key.
    UnclaimedOrDoubleClaimedKey { key: String },
}

/// A fault of one invocation of the engine, with where it happened.
#[derive(Clone, Debug)]
pub enum RunError {
    /// The model was refused before any timestep ran.
    Config(SimError),
    /// Timestep `timestep` (from 0) of run `run` (from 0) failed.
    Step { run: usize, timestep: usize, error: SimError },
}

} // verus!
