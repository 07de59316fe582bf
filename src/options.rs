//! The settings that the service and its clients run with.

use vstd::prelude::*;

use crate::duration::Duration;

verus! {

/// Settings common to every command.
#[derive(Debug, Clone)]
pub struct Options {
    /// Log each step.
    pub debug: bool,
    /// Log shutdowns.
    pub verbose: bool,
}

/// Settings of the service.
#[derive(Debug, Clone)]
pub struct RunOptions {
    /// Shut down after this long without a request.
    pub timeout: Option<Duration>,
    /// Shut down once the last entry is deleted.
    pub finalize: bool,
    /// Where the endpoint is bound.
    pub path: Option<String>,
}

} // verus!
