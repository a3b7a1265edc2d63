//! The plan of a pipeline: what it works on, what it runs, and how it groups
//! and monitors, put together piece by piece before the pipeline is built.

use crate::cluster::Cluster;
use crate::pipeline::monitoring::Event;
use crate::pipeline::monitoring::EventMonitor;
use crate::pipeline::monitoring::Process;
use crate::pipeline::monitoring::RecordPolicy;
use crate::pipeline::GroupPolicy;
use crate::pipeline::PipelineError;
use crate::program::capped;
use crate::program::nr_of_data_words;
use crate::program::nr_of_instructions;
use crate::program::Program;
use vstd::prelude::*;

verus! {

/// A plan for a pipeline that takes its work items from `input_iterator`.
#[derive(Debug)]
pub struct Plan<'a, Model, InputIterator> {
    pub input_iterator: InputIterator,
    pub cluster: Option<Cluster>,
    /// The program to load before the first item; none where the DPUs are
    /// loaded already.
    pub program: Option<&'a Program>,
    pub group_policy: GroupPolicy,
    pub monitoring: EventMonitor,
    pub model: Model,
}

/// The simple model: every work item brings its whole input, which
/// `input_transfers_fn` lays out.
#[derive(Debug)]
pub struct SimpleModel<TransferFn> {
    pub input_transfers_fn: TransferFn,
}

/// The persistent model: the fragments of `persistent_iterator` are pinned to
/// DPUs first, and `input_transfers_fn` names the fragment that a work item
/// is for.
#[derive(Debug)]
pub struct PersistentModel<TransferFn, PersistentIterator> {
    pub persistent_iterator: PersistentIterator,
    pub input_transfers_fn: TransferFn,
}

/// The events that are reported when a pipeline is built on a cluster of the
/// shape `topology`, before the program of the given size is loaded: the
/// shape of the cluster and, if there is a program, its size.
pub open spec fn events_before_loading(topology: (u8, u8, u8), program: Option<Program>) -> Seq<
    Event,
> {
    let initialization = Event::Initialization {
        nr_ranks: topology.0,
        nr_slices: topology.1,
        nr_dpus: topology.2,
    };
    match program {
        Some(program) => seq![
            initialization,
            Event::LoadingProgramBegin {
                nr_instructions: capped(nr_of_instructions(program.iram_sections@)) as u32,
                nr_data_bytes: capped(4 * nr_of_data_words(program.wram_sections@)) as u32,
            },
        ],
        None => seq![initialization],
    }
}

impl<'a, InputIterator> Plan<'a, (), InputIterator> {
    /// A plan for the work items of `iterator`, with everything else yet to
    /// be said: no cluster, no program, one group per slice position, and no
    /// monitoring.
    pub fn from(iterator: InputIterator) -> (plan: Plan<'a, (), InputIterator>)
        ensures
            plan.input_iterator == iterator,
            plan.cluster is None,
            plan.program is None,
            plan.group_policy == GroupPolicy::Slice,
            plan.monitoring == (EventMonitor {
                process: Process::Pipeline,
                policy: RecordPolicy::Disabled,
            }),
    {
        Plan {
            input_iterator: iterator,
            cluster: None,
            program: None,
            group_policy: GroupPolicy::Slice,
            monitoring: EventMonitor::new(),
            model: (),
        }
    }

    /// The plan for the simple model with `func` as its transfer function.
    pub fn for_simple_model<TransferFn>(self, func: TransferFn) -> (plan: Plan<
        'a,
        SimpleModel<TransferFn>,
        InputIterator,
    >)
        ensures
            plan.input_iterator == self.input_iterator,
            plan.cluster == self.cluster,
            plan.program == self.program,
            plan.group_policy == self.group_policy,
            plan.monitoring == self.monitoring,
            plan.model.input_transfers_fn == func,
    {
        Plan {
            input_iterator: self.input_iterator,
            cluster: self.cluster,
            program: self.program,
            group_policy: self.group_policy,
            monitoring: self.monitoring,
            model: SimpleModel { input_transfers_fn: func },
        }
    }

    /// The plan for the persistent model with `func` as its transfer function
    /// and the fragments of `iterator`.
    pub fn for_persistent_model<TransferFn, PersistentIterator>(
        self,
        func: TransferFn,
        iterator: PersistentIterator,
    ) -> (plan: Plan<'a, PersistentModel<TransferFn, PersistentIterator>, InputIterator>)
        ensures
            plan.input_iterator == self.input_iterator,
            plan.cluster == self.cluster,
            plan.program == self.program,
            plan.group_policy == self.group_policy,
            plan.monitoring == self.monitoring,
            plan.model.input_transfers_fn == func,
            plan.model.persistent_iterator == iterator,
    {
        Plan {
            input_iterator: self.input_iterator,
            cluster: self.cluster,
            program: self.program,
            group_policy: self.group_policy,
            monitoring: self.monitoring,
            model: PersistentModel { input_transfers_fn: func, persistent_iterator: iterator },
        }
    }
}

impl<'a, Model, InputIterator> Plan<'a, Model, InputIterator> {
    /// The plan with `program` to load before the first item.
    pub fn running(self, program: &'a Program) -> (plan: Plan<'a, Model, InputIterator>)
        ensures
            plan.program == Some(program),
            plan.input_iterator == self.input_iterator,
            plan.cluster == self.cluster,
            plan.group_policy == self.group_policy,
            plan.monitoring == self.monitoring,
            plan.model == self.model,
    {
        let mut plan = self;
        plan.program = Some(program);
        plan
    }

    /// The plan with `cluster` to drive.
    pub fn driving(self, cluster: Cluster) -> (plan: Plan<'a, Model, InputIterator>)
        ensures
            plan.cluster == Some(cluster),
            plan.input_iterator == self.input_iterator,
            plan.program == self.program,
            plan.group_policy == self.group_policy,
            plan.monitoring == self.monitoring,
            plan.model == self.model,
    {
        let mut plan = self;
        plan.cluster = Some(cluster);
        plan
    }

    /// The plan with the DPUs grouped by `group_policy`.
    pub fn grouped_by(self, group_policy: GroupPolicy) -> (plan: Plan<'a, Model, InputIterator>)
        ensures
            plan.group_policy == group_policy,
            plan.input_iterator == self.input_iterator,
            plan.cluster == self.cluster,
            plan.program == self.program,
            plan.monitoring == self.monitoring,
            plan.model == self.model,
    {
        let mut plan = self;
        plan.group_policy = group_policy;
        plan
    }

    /// The plan with its events recorded as `monitor` says.
    pub fn monitored_by(self, monitor: RecordPolicy) -> (plan: Plan<'a, Model, InputIterator>)
        ensures
            plan.monitoring == (EventMonitor { process: self.monitoring.process, policy: monitor }),
            plan.input_iterator == self.input_iterator,
            plan.cluster == self.cluster,
            plan.program == self.program,
            plan.group_policy == self.group_policy,
            plan.model == self.model,
    {
        let mut plan = self;
        plan.monitoring.set_policy(monitor);
        plan
    }

    /// The events to report when the pipeline is built, up to the loading of
    /// the program, or the error that a plan without a cluster comes to.
    pub fn build_init(&self) -> (events: Result<Vec<Event>, PipelineError>)
        ensures
            self.cluster is None ==> events == Err::<Vec<Event>, PipelineError>(
                PipelineError::UndefinedCluster,
            ),
            self.cluster is Some ==> events is Ok && events.unwrap()@ == events_before_loading(
                (
                    self.cluster.unwrap().nr_of_ranks,
                    self.cluster.unwrap().rank_topology.nr_of_control_interfaces,
                    self.cluster.unwrap().rank_topology.nr_of_dpus_per_control_interface,
                ),
                match self.program {
                    Some(program) => Some(*program),
                    None => None,
                },
            ),
    {
        match &self.cluster {
            None => Err(PipelineError::UndefinedCluster),
            Some(cluster) => {
                let (nr_ranks, nr_slices, nr_dpus) = cluster.topology();
                let mut events: Vec<Event> = Vec::new();
                events.push(Event::Initialization { nr_ranks, nr_slices, nr_dpus });
                match self.program {
                    Some(program) => {
                        let (nr_instructions, nr_data_bytes) = program.size();
                        events.push(Event::LoadingProgramBegin { nr_instructions, nr_data_bytes });
                    },
                    None => {},
                }
                Ok(events)
            },
        }
    }

    /// Takes the plan apart for building: the parts of a plan that has a
    /// cluster, or the error that a plan without one comes to.
    pub fn build(self) -> (parts: Result<(InputIterator, Cluster, Model, GroupPolicy, EventMonitor), PipelineError>)
        ensures
            self.cluster is None ==> parts is Err && parts->Err_0 == PipelineError::UndefinedCluster,
            self.cluster is Some ==> parts is Ok && parts->Ok_0 == (
                self.input_iterator,
                self.cluster.unwrap(),
                self.model,
                self.group_policy,
                self.monitoring,
            ),
    {
        match self.cluster {
            None => Err(PipelineError::UndefinedCluster),
            Some(cluster) => Ok(
                (self.input_iterator, cluster, self.model, self.group_policy, self.monitoring),
            ),
        }
    }
}

} // verus!
