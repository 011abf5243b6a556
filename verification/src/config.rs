use vstd::prelude::*;

verus! {

/// How long a graceful shutdown may take before the process closes
/// anyway, in seconds, when the configuration does not say otherwise.
pub const DEFAULT_SHUTDOWN_GRACE_SECONDS: u64 = 30;

pub fn default_shutdown_grace_period() -> (seconds: u64)
    ensures
        seconds == DEFAULT_SHUTDOWN_GRACE_SECONDS,
{
    DEFAULT_SHUTDOWN_GRACE_SECONDS
}

} // verus!
