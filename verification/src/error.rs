use vstd::prelude::*;

verus! {

/// The error taxonomy of the core.  Every error is recoverable and local:
/// an operation that fails reports one of these and leaves the grid
/// unchanged.
#[derive(Debug)]
pub enum AppError {
    /// A section's edge set does not yield a bounded walk from the start
    /// cell to the end cell, or the solver output could not be scanned.
    InvalidPath,
    /// A piece of text could not be interpreted; carries the offending text.
    ParseStringError(String),
    /// Path reconstruction was requested while the start cell is unset.
    StartNotSet,
    /// Path reconstruction was requested while the end cell is unset.
    EndNotSet,
    /// The problem-description template could not be rendered.
    FailedRenderFile,
    /// The configured solver credentials were rejected.
    InvalidAuthCredentials,
    /// The configuration could not be persisted.
    FailedUpdateConfig,
    /// A screenshot of the canvas could not be captured.
    FailedTakeScreenshot,
}

} // verus!
