//! The stages of the pipeline and what flows between them.

use crate::dpu::DpuId;
use crate::pipeline::monitoring::Event;
use crate::pipeline::transfer::InputMemoryTransfer;
use crate::pipeline::transfer::OutputMemoryTransfer;
use crate::pipeline::GroupId;
use crate::pipeline::OutputResult;
use vstd::prelude::*;

pub mod fetcher;
pub mod initializer;
pub mod loader;
pub mod mapper;
pub mod persistent;
pub mod routing;
pub mod tracker;

verus! {

/// A bundle of DPUs that run one job together. Each DPU carries a flag that
/// says whether it takes part in the job at hand; batches are aligned with
/// the active DPUs, in order.
#[derive(Clone, Debug)]
pub struct DpuGroup {
    pub id: GroupId,
    pub dpus: Vec<(DpuId, bool)>,
}

/// The DPUs of `dpus` whose flag is set, in order.
pub open spec fn active_of(dpus: Seq<(DpuId, bool)>) -> Seq<DpuId>
    decreases dpus.len(),
{
    if dpus.len() == 0 {
        Seq::empty()
    } else if dpus.last().1 {
        active_of(dpus.drop_last()).push(dpus.last().0)
    } else {
        active_of(dpus.drop_last())
    }
}

impl DpuGroup {
    /// The active DPUs of the group, in order.
    pub open spec fn active(self) -> Seq<DpuId> {
        active_of(self.dpus@)
    }

    pub fn active_dpus(&self) -> (active: Vec<DpuId>)
        ensures
            active@ == self.active(),
    {
        let mut active: Vec<DpuId> = Vec::new();
        let mut i: usize = 0;
        while i < self.dpus.len()
            invariant
                i <= self.dpus.len(),
                active@ == active_of(self.dpus@.subrange(0, i as int)),
            decreases self.dpus.len() - i,
        {
            proof {
                assert(self.dpus@.subrange(0, i + 1).drop_last() =~= self.dpus@.subrange(
                    0,
                    i as int,
                ));
            }
            let (dpu, is_active) = self.dpus[i];
            if is_active {
                active.push(dpu);
            }
            i += 1;
        }
        proof {
            assert(self.dpus@.subrange(0, i as int) =~= self.dpus@);
        }
        active
    }
}

/// A batch on its way to the DPUs: the group, the regions to write for each
/// batched item, and each item's key with the region to read back.
pub type GroupTransfer<K> = (
    DpuGroup,
    Vec<Vec<InputMemoryTransfer>>,
    Vec<(K, OutputMemoryTransfer)>,
);

/// A batch that runs on its group: for each batched item, its key and the
/// region to read back once the group has finished.
pub type GroupJob<K> = (DpuGroup, Vec<(K, OutputMemoryTransfer)>);

/// Something a stage wants done that needs no answer.
#[derive(Debug)]
pub enum Effect<K> {
    /// Report an event to the monitoring sink.
    Record(Event),
    /// Hand a batch to the loader.
    Transfer(GroupTransfer<K>),
    /// Hand a booted batch to the tracker.
    Job(GroupJob<K>),
    /// Hand a finished batch to the fetcher.
    Finished(GroupJob<K>),
    /// Give a group back to the mapper's pool.
    Release(DpuGroup),
    /// Deliver a result to the caller.
    Output(OutputResult<K>),
}

/// What a stage answers when it is resumed: effects to perform in order, then
/// the request whose answer resumes the stage again.
#[derive(Debug)]
pub struct Step<K, R> {
    pub effects: Vec<Effect<K>>,
    pub request: R,
}

} // verus!
