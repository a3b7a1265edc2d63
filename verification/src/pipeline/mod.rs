//! The execution pipeline: its errors, its group policy, and its stages.

use crate::dpu::DpuId;
use crate::error::ClusterError;
use vstd::prelude::*;

pub mod bracketing;
pub mod flow;
pub mod groups;
pub mod model;
pub mod monitoring;
pub mod order;
pub mod pipeline;
pub mod plan;
pub mod stages;
pub mod transfer;

verus! {

/// Identifier of a group of DPUs that run one job together.
pub type GroupId = u32;

#[derive(Clone, Copy, Debug, PartialEq, Eq, Structural)]
pub enum PipelineError {
    /// The pipeline was built without a cluster.
    UndefinedCluster,
    /// A call of the driver failed.
    InfrastructureError(ClusterError),
    /// The DPU reported a fault while running.
    ExecutionError(DpuId),
    /// A work item names a fragment that was never registered.
    UnknownFragmentId,
}

impl From<ClusterError> for PipelineError {
    fn from(err: ClusterError) -> (e: PipelineError) {
        PipelineError::InfrastructureError(err)
    }
}

impl vstd::std_specs::convert::FromSpecImpl<ClusterError> for PipelineError {
    open spec fn obeys_from_spec() -> bool {
        true
    }

    open spec fn from_spec(err: ClusterError) -> PipelineError {
        PipelineError::InfrastructureError(err)
    }
}

/// How the DPUs of a cluster are bundled into groups.
#[derive(Clone, Copy, Debug, PartialEq, Eq, Structural)]
pub enum GroupPolicy {
    /// One group per DPU.
    Dpu,
    /// One group per `(rank, member)` position, holding that member of every
    /// slice of the rank.
    Slice,
}

impl Default for GroupPolicy {
    fn default() -> (p: GroupPolicy)
        ensures
            p == GroupPolicy::Slice,
    {
        GroupPolicy::Slice
    }
}

/// What the pipeline hands back for one work item: the caller's key with the
/// bytes read from the DPU, or the error that took the item's place.
pub type OutputResult<K> = Result<(K, Vec<u8>), PipelineError>;

} // verus!
