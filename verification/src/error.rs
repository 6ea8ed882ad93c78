//! Simulation errors.

use vstd::prelude::*;

verus! {

/// Why a simulation step could not be carried out.
#[derive(Debug, Clone, PartialEq, Eq)]
pub enum SimError {
    JobNotFound(String),
    GpuNotFound(String),
    InsufficientGpus { need: u32, available: u32 },
    Config(String),
}

} // verus!
