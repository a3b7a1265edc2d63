//! Errors raised while building or driving a cluster.

use crate::dpu::DpuId;
use crate::target::DpuError;
use vstd::prelude::*;

verus! {

#[derive(Clone, Copy, Debug, PartialEq, Eq, Structural)]
pub enum ClusterError {
    /// Fewer DPUs are available than were asked for.
    NotEnoughResources { expected: u32, found: u32 },
    /// The control interface answered with an error status.
    LowLevelError(DpuError),
    DpuIsAlreadyRunning,
    DpuIsInFault(DpuId),
}

impl From<DpuError> for ClusterError {
    fn from(err: DpuError) -> (e: ClusterError) {
        ClusterError::LowLevelError(err)
    }
}

impl vstd::std_specs::convert::FromSpecImpl<DpuError> for ClusterError {
    open spec fn obeys_from_spec() -> bool {
        true
    }

    open spec fn from_spec(err: DpuError) -> ClusterError {
        ClusterError::LowLevelError(err)
    }
}

} // verus!
