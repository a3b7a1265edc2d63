//! The stages of a pipeline, set up for a cluster.

use crate::cluster::Cluster;
use crate::pipeline::groups::create_groups_from;
use crate::pipeline::groups::groups_of_cluster;
use crate::pipeline::monitoring::EventMonitor;
use crate::pipeline::monitoring::Process;
use crate::pipeline::stages::fetcher::FetcherPhase;
use crate::pipeline::stages::fetcher::OutputFetcher;
use crate::pipeline::stages::initializer::InitializerPhase;
use crate::pipeline::stages::initializer::InputInitializer;
use crate::pipeline::stages::loader::InputLoader;
use crate::pipeline::stages::loader::LoaderPhase;
use crate::pipeline::stages::mapper::MapperPhase;
use crate::pipeline::stages::mapper::SimpleMapper;
use crate::pipeline::stages::persistent::PersistentMapper;
use crate::pipeline::stages::persistent::PersistentPhase;
use crate::pipeline::stages::tracker::ExecutionTracker;
use crate::pipeline::stages::tracker::TrackerPhase;
use crate::pipeline::GroupPolicy;
use crate::target::DpuType;
use std::hash::Hash;
use vstd::prelude::*;

verus! {

/// The five stages of a pipeline before they are started, and how much the
/// bounded channels at its two ends hold.
#[derive(Debug)]
pub struct Pipeline<Mapper, K> {
    /// Number of work items that may wait between the initializer and the
    /// mapper.
    pub input_capacity: usize,
    /// Number of results that may wait for the caller.
    pub output_capacity: usize,
    pub input_initializer: InputInitializer,
    pub input_mapper: Mapper,
    pub input_loader: InputLoader<K>,
    pub execution_tracker: ExecutionTracker<K>,
    pub output_fetcher: OutputFetcher<K>,
}

/// The pause between two rounds of polling on a target of kind `dpu_type`, in
/// milliseconds: ten where real DPUs are polled, none on a simulator.
pub open spec fn polling_pause(dpu_type: DpuType) -> Option<u64> {
    match dpu_type {
        DpuType::Hardware => Some(10),
        DpuType::BackupSpi => Some(10),
        _ => None,
    }
}

/// The pause between two rounds of polling on a target of kind `dpu_type`.
pub fn tracker_sleep_duration(dpu_type: DpuType) -> (pause: Option<u64>)
    ensures
        pause == polling_pause(dpu_type),
{
    match dpu_type {
        DpuType::Hardware => Some(10),
        DpuType::BackupSpi => Some(10),
        _ => None,
    }
}

impl<Mapper, K> Pipeline<Mapper, K> {
    /// What every pipeline on `cluster` has, whatever its mapper: channels at
    /// both ends that hold two items for each slice of a rank, the pause of
    /// the tracker that suits the target, and stages that are not started
    /// and report under their own names with the policy of `monitoring`.
    pub open spec fn set_up(self, cluster: Cluster, monitoring: EventMonitor) -> bool {
        &&& self.input_capacity == 2 * cluster.rank_topology.nr_of_control_interfaces
        &&& self.output_capacity == 2 * cluster.rank_topology.nr_of_control_interfaces
        &&& self.input_initializer.phase == InitializerPhase::Created
        &&& self.input_initializer.monitoring == (EventMonitor {
            process: Process::Initializer,
            policy: monitoring.policy,
        })
        &&& self.input_loader.phase == LoaderPhase::Created
        &&& self.input_loader.current is None
        &&& self.input_loader.monitoring == (EventMonitor {
            process: Process::Loader,
            policy: monitoring.policy,
        })
        &&& self.execution_tracker.phase == TrackerPhase::Created
        &&& self.execution_tracker.pending@.len() == 0
        &&& self.execution_tracker.sleep == polling_pause(cluster.target.dpu_type)
        &&& self.execution_tracker.monitoring == (EventMonitor {
            process: Process::Tracker,
            policy: monitoring.policy,
        })
        &&& self.output_fetcher.phase == FetcherPhase::Created
        &&& self.output_fetcher.current is None
        &&& self.output_fetcher.monitoring == (EventMonitor {
            process: Process::Fetcher,
            policy: monitoring.policy,
        })
    }
}

impl<K> Pipeline<SimpleMapper<K>, K> {
    /// The stages of a pipeline of the simple model on `cluster`: the mapper
    /// holds every group that `group_policy` forms from the cluster.
    pub fn simple(cluster: &Cluster, group_policy: GroupPolicy, monitoring: EventMonitor) -> (pipeline:
        Pipeline<SimpleMapper<K>, K>)
        ensures
            pipeline.set_up(*cluster, monitoring),
            pipeline.input_mapper.phase == MapperPhase::Created,
            pipeline.input_mapper.current is None,
            pipeline.input_mapper.inputs@.len() == 0,
            pipeline.input_mapper.outputs@.len() == 0,
            pipeline.input_mapper.monitoring == (EventMonitor {
                process: Process::Mapper,
                policy: monitoring.policy,
            }),
            groups_of_cluster(
                pipeline.input_mapper.groups@,
                group_policy,
                cluster.nr_of_ranks as int,
                cluster.rank_topology.nr_of_control_interfaces as int,
                cluster.rank_topology.nr_of_dpus_per_control_interface as int,
            ),
    {
        let (nr_ranks, nr_slices, nr_dpus) = cluster.topology();
        let groups = create_groups_from(group_policy, nr_ranks, nr_slices, nr_dpus);
        Pipeline {
            input_capacity: 2 * (nr_slices as usize),
            output_capacity: 2 * (nr_slices as usize),
            input_initializer: InputInitializer::new(monitoring),
            input_mapper: SimpleMapper::new(groups, monitoring),
            input_loader: InputLoader::new(monitoring),
            execution_tracker: ExecutionTracker::new(
                tracker_sleep_duration(cluster.dpu_type()),
                monitoring,
            ),
            output_fetcher: OutputFetcher::new(monitoring),
        }
    }
}

impl<K, D: Hash + Eq> Pipeline<PersistentMapper<K, D>, K> {
    /// The stages of a pipeline of the persistent model on `cluster`: the
    /// mapper is to pin its fragments to the groups that `group_policy`
    /// forms from the cluster.
    pub fn persistent(cluster: &Cluster, group_policy: GroupPolicy, monitoring: EventMonitor) -> (pipeline:
        Pipeline<PersistentMapper<K, D>, K>)
        ensures
            pipeline.set_up(*cluster, monitoring),
            pipeline.input_mapper.phase == PersistentPhase::Created,
            pipeline.input_mapper.table@.len() == 0,
            pipeline.input_mapper.mapping@ == Map::<D, (usize, usize)>::empty(),
            pipeline.input_mapper.placement.cursor == 0,
            pipeline.input_mapper.placement.used@.len() == 0,
            !pipeline.input_mapper.placement.exhausted,
            pipeline.input_mapper.monitoring == (EventMonitor {
                process: Process::Mapper,
                policy: monitoring.policy,
            }),
            groups_of_cluster(
                pipeline.input_mapper.groups@,
                group_policy,
                cluster.nr_of_ranks as int,
                cluster.rank_topology.nr_of_control_interfaces as int,
                cluster.rank_topology.nr_of_dpus_per_control_interface as int,
            ),
    {
        let (nr_ranks, nr_slices, nr_dpus) = cluster.topology();
        let groups = create_groups_from(group_policy, nr_ranks, nr_slices, nr_dpus);
        Pipeline {
            input_capacity: 2 * (nr_slices as usize),
            output_capacity: 2 * (nr_slices as usize),
            input_initializer: InputInitializer::new(monitoring),
            input_mapper: PersistentMapper::new(groups, monitoring),
            input_loader: InputLoader::new(monitoring),
            execution_tracker: ExecutionTracker::new(
                tracker_sleep_duration(cluster.dpu_type()),
                monitoring,
            ),
            output_fetcher: OutputFetcher::new(monitoring),
        }
    }
}

} // verus!
