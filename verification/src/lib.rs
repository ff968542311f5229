//! A four-lane Groestl-256 engine: four independent byte streams hashed
//! together over a byte-sliced, lane-transposed state, with a verified
//! streaming update/padding/finalization state machine.
//!
//! `model` is the single-lane mathematical reference the contracts speak
//! of; `state` carries four lanes at once through the transposition, the
//! round primitives and the permutations P and Q; `hasher` is the
//! streaming state machine that turns arbitrary-length byte streams into
//! one 32-byte digest per lane.
pub mod model;
pub mod state;
pub mod hasher;

pub use hasher::Groestl256Multi;
