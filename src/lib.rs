//! Finite ordered sets of states, used as cursors that step, jump and
//! iterate with wraparound.

pub mod laws;
pub mod state;

pub use state::{State, StateDescriptor, StateFlip, StateIter};
