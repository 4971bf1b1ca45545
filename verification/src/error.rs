//! The ways in which encoding can fail.

use vstd::prelude::*;

verus! {

/// Why an encoding could not be produced.
#[derive(Debug, Clone, Copy, PartialEq, Eq, Structural)]
pub enum EncodeError {
    /// The window holds no byte.
    EmptyInput,
    /// No pool of workers could be started.
    WorkerPool,
}

} // verus!
