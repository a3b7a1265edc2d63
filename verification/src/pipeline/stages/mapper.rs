//! The mapper of the simple model: it packs work items onto groups, one item
//! per DPU, and hands each batch to the loader.

use crate::pipeline::flow::finished_in;
use crate::pipeline::flow::items_in_transfers;
use crate::pipeline::flow::jobs_in;
use crate::pipeline::flow::lemma_project_none;
use crate::pipeline::flow::lemma_reports_only;
use crate::pipeline::flow::lemma_project_one;
use crate::pipeline::flow::lemma_project_skip;
use crate::pipeline::flow::lemma_project_cut;
use crate::pipeline::flow::outputs_in;
use crate::pipeline::flow::releases_in;
use crate::pipeline::flow::transfers_in;
use crate::pipeline::flow::transfer_of;
use crate::pipeline::flow::job_of;
use crate::pipeline::flow::finished_of;
use crate::pipeline::flow::release_of;
use crate::pipeline::flow::output_of;
use crate::pipeline::monitoring::Event;
use crate::pipeline::monitoring::EventMonitor;
use crate::pipeline::monitoring::Process;
use crate::pipeline::stages::DpuGroup;
use crate::pipeline::stages::Effect;
use crate::pipeline::stages::GroupTransfer;
use crate::pipeline::stages::Step;
use crate::pipeline::transfer::InputMemoryTransfer;
use crate::pipeline::transfer::MemoryTransfers;
use crate::pipeline::transfer::OutputMemoryTransfer;
use vstd::prelude::*;

verus! {

/// What a mapper waits for.
#[derive(Clone, Copy, Debug, PartialEq, Eq, Structural)]
pub enum MapperRequest {
    /// The next work item; waits until one comes or the input ends.
    NextInput,
    /// A group given back by the fetcher; waits until one comes.
    FreeGroup,
    /// A further group given back by the fetcher, if one is at hand.
    SpareGroup,
    /// Nothing more: the mapper has stopped.
    Exit,
}

/// The answer to a request of the simple mapper.
#[derive(Debug)]
pub enum SimpleReply<K> {
    /// Answers `NextInput`: the item's transfers, or `None` once the input
    /// has ended.
    Input(Option<MemoryTransfers<K>>),
    /// Answers `FreeGroup` and `SpareGroup`: a group, or `None` when none is
    /// to be had.
    Group(Option<DpuGroup>),
    /// An effect could not be performed: whoever should take it is gone.
    Broken,
}

/// Where the simple mapper stands between two steps.
#[derive(Clone, Copy, Debug, PartialEq, Eq, Structural)]
pub enum MapperPhase {
    /// Not started yet.
    Created,
    /// No batch is open; waiting for the item that opens the next one.
    AwaitingInput,
    /// A batch is open, the pool is empty; waiting for a group to come back.
    AwaitingGroup,
    /// A group came back; collecting the others that are at hand.
    DrainingGroups,
    /// A batch is open on a group; waiting for the next item.
    Filling,
    /// Stopped for good.
    Stopped,
}

/// The mapper of the simple model.
#[derive(Debug)]
pub struct SimpleMapper<K> {
    /// The pool of free groups; the next group is taken from the end.
    pub groups: Vec<DpuGroup>,
    pub monitoring: EventMonitor,
    pub phase: MapperPhase,
    /// The group of the open batch, once it is known.
    pub current: Option<DpuGroup>,
    /// The regions to write, for each item of the open batch.
    pub inputs: Vec<Vec<InputMemoryTransfer>>,
    /// Key and region to read back, for each item of the open batch.
    pub outputs: Vec<(K, OutputMemoryTransfer)>,
}

/// `effect` hands the batch `inputs`, `outputs` on `group` to the loader.
pub open spec fn is_transfer<K>(
    effect: Effect<K>,
    group: DpuGroup,
    inputs: Seq<Vec<InputMemoryTransfer>>,
    outputs: Seq<(K, OutputMemoryTransfer)>,
) -> bool {
    &&& effect matches Effect::Transfer(t)
    &&& t.0 == group
    &&& t.1@ =~= inputs
    &&& t.2@ =~= outputs
}

impl<K> SimpleMapper<K> {
    pub fn new(groups: Vec<DpuGroup>, monitoring: EventMonitor) -> (mapper: SimpleMapper<K>)
        ensures
            mapper.groups == groups,
            mapper.monitoring == (EventMonitor { process: Process::Mapper, policy: monitoring.policy }),
            mapper.phase == MapperPhase::Created,
            mapper.current is None,
            mapper.inputs@.len() == 0,
            mapper.outputs@.len() == 0,
    {
        let mut monitoring = monitoring;
        monitoring.set_process(Process::Mapper);
        SimpleMapper {
            groups,
            monitoring,
            phase: MapperPhase::Created,
            current: None,
            inputs: Vec::new(),
            outputs: Vec::new(),
        }
    }

    /// The mapper stops: it reports the end of its process, if it was
    /// running, and drops the open batch.
    pub open spec fn stops(pre: Self, post: Self, step: Step<K, MapperRequest>) -> bool {
        &&& post.phase == MapperPhase::Stopped
        &&& post.groups == pre.groups
        &&& post.current is None
        &&& post.inputs@.len() == 0
        &&& post.outputs@.len() == 0
        &&& step.request == MapperRequest::Exit
        &&& step.effects@ =~= if pre.phase == MapperPhase::Stopped || pre.phase == MapperPhase::Created {
            Seq::<Effect<K>>::empty()
        } else {
            seq![Effect::Record(Event::ProcessEnd)]
        }
    }

    /// The open batch has grown to `inputs`, `outputs` and its group is
    /// `group`: a batch as wide as the group is handed to the loader after the
    /// effects `before`; a narrower one stays open for the next item.
    pub open spec fn batches(
        group: DpuGroup,
        inputs: Seq<Vec<InputMemoryTransfer>>,
        outputs: Seq<(K, OutputMemoryTransfer)>,
        before: Seq<Effect<K>>,
        post: Self,
        step: Step<K, MapperRequest>,
    ) -> bool {
        &&& step.request == MapperRequest::NextInput
        &&& if inputs.len() >= group.active().len() {
            &&& post.phase == MapperPhase::AwaitingInput
            &&& post.current is None
            &&& post.inputs@.len() == 0
            &&& post.outputs@.len() == 0
            &&& step.effects@.len() == before.len() + 1
            &&& step.effects@.subrange(0, before.len() as int) =~= before
            &&& is_transfer(step.effects@.last(), group, inputs, outputs)
        } else {
            &&& post.phase == MapperPhase::Filling
            &&& post.current == Some(group)
            &&& post.inputs@ =~= inputs
            &&& post.outputs@ =~= outputs
            &&& step.effects@ =~= before
        }
    }

    /// How the mapper goes from `pre` to `post` when it is resumed with
    /// `reply`, and what it asks for in `step`.
    pub open spec fn resumes(
        pre: Self,
        reply: SimpleReply<K>,
        post: Self,
        step: Step<K, MapperRequest>,
    ) -> bool {
        &&& post.monitoring == pre.monitoring
        &&& match (pre.phase, reply) {
            (MapperPhase::AwaitingInput, SimpleReply::Input(Some(item))) => {
                if pre.groups@.len() > 0 {
                    let group = pre.groups@.last();
                    &&& post.groups@ =~= pre.groups@.drop_last()
                    &&& Self::batches(
                        group,
                        pre.inputs@.push(item.inputs),
                        pre.outputs@.push((item.key, item.output)),
                        seq![
                            Effect::Record(Event::GroupSearchBegin),
                            Effect::Record(Event::GroupSearchEnd(group.id)),
                        ],
                        post,
                        step,
                    )
                } else {
                    &&& post.groups@ =~= pre.groups@
                    &&& post.phase == MapperPhase::AwaitingGroup
                    &&& post.current == pre.current
                    &&& post.inputs@ =~= pre.inputs@.push(item.inputs)
                    &&& post.outputs@ =~= pre.outputs@.push((item.key, item.output))
                    &&& step.effects@ =~= seq![Effect::<K>::Record(Event::GroupSearchBegin)]
                    &&& step.request == MapperRequest::FreeGroup
                }
            },
            (MapperPhase::AwaitingGroup, SimpleReply::Group(Some(group))) => {
                &&& post.groups@ =~= pre.groups@
                &&& post.phase == MapperPhase::DrainingGroups
                &&& post.current == Some(group)
                &&& post.inputs@ =~= pre.inputs@
                &&& post.outputs@ =~= pre.outputs@
                &&& step.effects@.len() == 0
                &&& step.request == MapperRequest::SpareGroup
            },
            (MapperPhase::DrainingGroups, SimpleReply::Group(Some(group))) => {
                &&& post.groups@ =~= pre.groups@.push(group)
                &&& post.phase == MapperPhase::DrainingGroups
                &&& post.current == pre.current
                &&& post.inputs@ =~= pre.inputs@
                &&& post.outputs@ =~= pre.outputs@
                &&& step.effects@.len() == 0
                &&& step.request == MapperRequest::SpareGroup
            },
            (MapperPhase::DrainingGroups, SimpleReply::Group(None)) => {
                if pre.current is Some {
                    let group = pre.current.unwrap();
                    &&& post.groups@ =~= pre.groups@
                    &&& Self::batches(
                        group,
                        pre.inputs@,
                        pre.outputs@,
                        seq![Effect::Record(Event::GroupSearchEnd(group.id))],
                        post,
                        step,
                    )
                } else {
                    Self::stops(pre, post, step)
                }
            },
            (MapperPhase::Filling, SimpleReply::Input(Some(item))) => {
                if pre.current is Some {
                    &&& post.groups@ =~= pre.groups@
                    &&& Self::batches(
                        pre.current.unwrap(),
                        pre.inputs@.push(item.inputs),
                        pre.outputs@.push((item.key, item.output)),
                        Seq::empty(),
                        post,
                        step,
                    )
                } else {
                    Self::stops(pre, post, step)
                }
            },
            (MapperPhase::Filling, SimpleReply::Input(None)) => {
                if pre.current is Some {
                    &&& post.phase == MapperPhase::Stopped
                    &&& post.groups@ =~= pre.groups@
                    &&& post.current is None
                    &&& post.inputs@.len() == 0
                    &&& post.outputs@.len() == 0
                    &&& step.request == MapperRequest::Exit
                    &&& step.effects@.len() == 2
                    &&& is_transfer(
                        step.effects@[0],
                        pre.current.unwrap(),
                        pre.inputs@,
                        pre.outputs@,
                    )
                    &&& step.effects@[1] == Effect::<K>::Record(Event::ProcessEnd)
                } else {
                    Self::stops(pre, post, step)
                }
            },
            _ => Self::stops(pre, post, step),
        }
    }

    /// Starts the mapper: it reports the beginning of its process and asks
    /// for the first item. A mapper that was started before stops.
    pub fn start(&mut self) -> (step: Step<K, MapperRequest>)
        ensures
            final(self).monitoring == old(self).monitoring,
            old(self).phase == MapperPhase::Created ==> {
                &&& final(self).phase == MapperPhase::AwaitingInput
                &&& final(self).groups == old(self).groups
                &&& final(self).current == old(self).current
                &&& final(self).inputs == old(self).inputs
                &&& final(self).outputs == old(self).outputs
                &&& step.effects@ == seq![Effect::<K>::Record(Event::ProcessBegin)]
                &&& step.request == MapperRequest::NextInput
            },
            old(self).phase != MapperPhase::Created ==> Self::stops(*old(self), *final(self), step),
    {
        match self.phase {
            MapperPhase::Created => {
                self.phase = MapperPhase::AwaitingInput;
                Step { effects: vec![Effect::Record(Event::ProcessBegin)], request: MapperRequest::NextInput }
            },
            _ => self.stop(),
        }
    }

    fn stop(&mut self) -> (step: Step<K, MapperRequest>)
        ensures
            final(self).monitoring == old(self).monitoring,
            Self::stops(*old(self), *final(self), step),
    {
        let mut effects: Vec<Effect<K>> = Vec::new();
        match self.phase {
            MapperPhase::Stopped | MapperPhase::Created => {},
            _ => {
                effects.push(Effect::Record(Event::ProcessEnd));
            },
        }
        self.phase = MapperPhase::Stopped;
        self.current = None;
        self.inputs = Vec::new();
        self.outputs = Vec::new();
        Step { effects, request: MapperRequest::Exit }
    }

    /// Number of active DPUs of `group`.
    fn width(group: &DpuGroup) -> (n: usize)
        ensures
            n == group.active().len(),
    {
        group.active_dpus().len()
    }

    /// Closes the open batch on `group` if it is as wide as the group.
    fn batch(&mut self, group: DpuGroup, effects: Vec<Effect<K>>) -> (step: Step<K, MapperRequest>)
        ensures
            final(self).monitoring == old(self).monitoring,
            final(self).groups == old(self).groups,
            Self::batches(group, old(self).inputs@, old(self).outputs@, effects@, *final(self), step),
    {
        let mut effects = effects;
        if self.inputs.len() >= Self::width(&group) {
            let mut inputs: Vec<Vec<InputMemoryTransfer>> = Vec::new();
            let mut outputs: Vec<(K, OutputMemoryTransfer)> = Vec::new();
            core::mem::swap(&mut inputs, &mut self.inputs);
            core::mem::swap(&mut outputs, &mut self.outputs);
            let ghost before = effects@;
            effects.push(Effect::Transfer((group, inputs, outputs)));
            self.phase = MapperPhase::AwaitingInput;
            self.current = None;
            proof {
                assert(effects@.subrange(0, before.len() as int) =~= before);
            }
        } else {
            self.phase = MapperPhase::Filling;
            self.current = Some(group);
        }
        Step { effects, request: MapperRequest::NextInput }
    }

    /// Resumes the mapper with the answer to its last request.
    pub fn resume(&mut self, reply: SimpleReply<K>) -> (step: Step<K, MapperRequest>)
        ensures
            Self::resumes(*old(self), reply, *final(self), step),
    {
        match (self.phase, reply) {
            (MapperPhase::AwaitingInput, SimpleReply::Input(Some(item))) => {
                let MemoryTransfers { inputs, output, key } = item;
                self.inputs.push(inputs);
                self.outputs.push((key, output));
                let mut effects: Vec<Effect<K>> = vec![Effect::Record(Event::GroupSearchBegin)];
                match self.groups.pop() {
                    Some(group) => {
                        effects.push(Effect::Record(Event::GroupSearchEnd(group.id)));
                        self.batch(group, effects)
                    },
                    None => {
                        self.phase = MapperPhase::AwaitingGroup;
                        Step { effects, request: MapperRequest::FreeGroup }
                    },
                }
            },
            (MapperPhase::AwaitingGroup, SimpleReply::Group(Some(group))) => {
                self.phase = MapperPhase::DrainingGroups;
                self.current = Some(group);
                Step { effects: Vec::new(), request: MapperRequest::SpareGroup }
            },
            (MapperPhase::DrainingGroups, SimpleReply::Group(Some(group))) => {
                self.groups.push(group);
                Step { effects: Vec::new(), request: MapperRequest::SpareGroup }
            },
            (MapperPhase::DrainingGroups, SimpleReply::Group(None)) => {
                match self.current.take() {
                    Some(group) => {
                        let effects: Vec<Effect<K>> = vec![Effect::Record(Event::GroupSearchEnd(group.id))];
                        self.batch(group, effects)
                    },
                    None => self.stop(),
                }
            },
            (MapperPhase::Filling, SimpleReply::Input(Some(item))) => {
                match self.current.take() {
                    Some(group) => {
                        let MemoryTransfers { inputs, output, key } = item;
                        self.inputs.push(inputs);
                        self.outputs.push((key, output));
                        self.batch(group, Vec::new())
                    },
                    None => self.stop(),
                }
            },
            (MapperPhase::Filling, SimpleReply::Input(None)) => {
                match self.current.take() {
                    Some(group) => {
                        let mut inputs: Vec<Vec<InputMemoryTransfer>> = Vec::new();
                        let mut outputs: Vec<(K, OutputMemoryTransfer)> = Vec::new();
                        core::mem::swap(&mut inputs, &mut self.inputs);
                        core::mem::swap(&mut outputs, &mut self.outputs);
                        self.phase = MapperPhase::Stopped;
                        Step {
                            effects: vec![
                                Effect::Transfer((group, inputs, outputs)),
                                Effect::Record(Event::ProcessEnd),
                            ],
                            request: MapperRequest::Exit,
                        }
                    },
                    None => self.stop(),
                }
            },
            _ => self.stop(),
        }
    }
}

impl<K> SimpleMapper<K> {
    /// The open batch fits the phase: none before the first item of a batch,
    /// one item while the group is being found, and fewer items than the
    /// group has active DPUs while the batch fills up.
    pub open spec fn wf(self) -> bool {
        &&& self.inputs@.len() == self.outputs@.len()
        &&& match self.phase {
            MapperPhase::AwaitingGroup => self.current is None && self.inputs@.len() == 1,
            MapperPhase::DrainingGroups => self.current is Some && self.inputs@.len() == 1,
            MapperPhase::Filling => self.current is Some && 0 < self.inputs@.len()
                < self.current.unwrap().active().len(),
            _ => self.current is None && self.inputs@.len() == 0,
        }
    }

    /// Whether `reply` answers what a mapper in `phase` has asked for.
    pub open spec fn expects(phase: MapperPhase, reply: SimpleReply<K>) -> bool {
        match (phase, reply) {
            (MapperPhase::AwaitingInput, SimpleReply::Input(_)) => true,
            (MapperPhase::Filling, SimpleReply::Input(_)) => true,
            (MapperPhase::AwaitingGroup, SimpleReply::Group(Some(_))) => true,
            (MapperPhase::DrainingGroups, SimpleReply::Group(_)) => true,
            _ => false,
        }
    }

    /// Number of groups in the mapper's hands.
    pub open spec fn held_groups(self) -> nat {
        self.groups@.len() + if self.current is Some {
            1nat
        } else {
            0nat
        }
    }

    /// Number of groups that come with `reply`.
    pub open spec fn groups_with(reply: SimpleReply<K>) -> nat {
        if reply matches SimpleReply::Group(Some(_)) {
            1
        } else {
            0
        }
    }

    /// Number of work items that come with `reply`.
    pub open spec fn items_with(reply: SimpleReply<K>) -> nat {
        if reply matches SimpleReply::Input(Some(_)) {
            1
        } else {
            0
        }
    }

    /// The open batch of `pre` with the item that comes with `reply`: each
    /// item's key and the region to read back.
    pub open spec fn batch_with(pre: Self, reply: SimpleReply<K>) -> Seq<(K, OutputMemoryTransfer)> {
        match reply {
            SimpleReply::Input(Some(item)) => pre.outputs@.push((item.key, item.output)),
            _ => pre.outputs@,
        }
    }
}

/// The effects `effects` consist of the reports `before` followed by the
/// batch `inputs`, `outputs` on `group`: the batch is all they hand on.
proof fn lemma_reports_then_transfer<K>(
    effects: Seq<Effect<K>>,
    group: DpuGroup,
    inputs: Seq<Vec<InputMemoryTransfer>>,
    outputs: Seq<(K, OutputMemoryTransfer)>,
    reports: int,
)
    requires
        effects.len() == reports + 1,
        0 <= reports,
        forall|i: int| 0 <= i < reports ==> (#[trigger] effects[i]) is Record,
        is_transfer(effects.last(), group, inputs, outputs),
    ensures
        transfers_in(effects).len() == 1,
        transfers_in(effects)[0] == effects.last()->Transfer_0,
        items_in_transfers(transfers_in(effects)) == outputs.len(),
        jobs_in(effects).len() == 0,
        finished_in(effects).len() == 0,
        releases_in(effects).len() == 0,
        outputs_in(effects).len() == 0,
{
    let tail = effects.subrange(reports, effects.len() as int);
    assert(tail[0] == effects.last());
    lemma_project_skip(effects, reports, |e: Effect<K>| transfer_of(e));
    lemma_project_one(tail, |e: Effect<K>| transfer_of(e));
    lemma_project_none(effects, |e: Effect<K>| job_of(e));
    lemma_project_none(effects, |e: Effect<K>| finished_of(e));
    lemma_project_none(effects, |e: Effect<K>| release_of(e));
    lemma_project_none(effects, |e: Effect<K>| output_of(e));
    let sent = transfers_in(effects);
    assert(sent.drop_last() =~= Seq::<GroupTransfer<K>>::empty());
    assert(items_in_transfers(sent.drop_last()) == 0);
}

/// A step of the simple mapper keeps the mapper well-formed and loses
/// neither a group nor a work item: what the mapper holds afterwards and
/// what it hands to the loader is what it held before and what came with the
/// reply. All it hands on are batches for the loader, at most one a step.
pub proof fn lemma_simple_mapper_flow<K>(
    pre: SimpleMapper<K>,
    reply: SimpleReply<K>,
    post: SimpleMapper<K>,
    step: Step<K, MapperRequest>,
)
    requires
        pre.wf(),
        SimpleMapper::<K>::expects(pre.phase, reply),
        SimpleMapper::resumes(pre, reply, post, step),
    ensures
        post.wf(),
        post.held_groups() + transfers_in(step.effects@).len() == pre.held_groups()
            + SimpleMapper::<K>::groups_with(reply),
        post.outputs@.len() + items_in_transfers(transfers_in(step.effects@)) == pre.outputs@.len()
            + SimpleMapper::<K>::items_with(reply),
        jobs_in(step.effects@).len() == 0,
        finished_in(step.effects@).len() == 0,
        releases_in(step.effects@).len() == 0,
        outputs_in(step.effects@).len() == 0,
        post.outputs@.len() == 0 || post.outputs@ == SimpleMapper::batch_with(pre, reply),
        forall|i: int|
            0 <= i < transfers_in(step.effects@).len() ==> (#[trigger] transfers_in(
                step.effects@,
            )[i]).2@ == SimpleMapper::batch_with(pre, reply),
{
    let effects = step.effects@;
    let sent = transfers_in(effects);
    let ships = post.phase == MapperPhase::AwaitingInput || (pre.phase == MapperPhase::Filling
        && reply == SimpleReply::<K>::Input(None));
    match (pre.phase, reply) {
        (MapperPhase::AwaitingInput, SimpleReply::Input(Some(item))) => {
            if pre.groups@.len() > 0 {
                let group = pre.groups@.last();
                let inputs = pre.inputs@.push(item.inputs);
                let outputs = pre.outputs@.push((item.key, item.output));
                let before: Seq<Effect<K>> = seq![
                    Effect::Record(Event::GroupSearchBegin),
                    Effect::Record(Event::GroupSearchEnd(group.id)),
                ];
                if inputs.len() >= group.active().len() {
                    assert(effects[0] == effects.subrange(0, 2)[0]);
                    assert(effects[1] == effects.subrange(0, 2)[1]);
                    lemma_reports_then_transfer(effects, group, inputs, outputs, 2);
                } else {
                    lemma_reports_only(effects);
                }
            } else {
                lemma_reports_only(effects);
            }
        },
        (MapperPhase::AwaitingInput, SimpleReply::Input(None)) => {
            lemma_reports_only(effects);
        },
        (MapperPhase::AwaitingGroup, SimpleReply::Group(Some(group))) => {
            lemma_reports_only(effects);
        },
        (MapperPhase::DrainingGroups, SimpleReply::Group(Some(group))) => {
            lemma_reports_only(effects);
        },
        (MapperPhase::DrainingGroups, SimpleReply::Group(None)) => {
            let group = pre.current.unwrap();
            if pre.inputs@.len() >= group.active().len() {
                assert(effects[0] == effects.subrange(0, 1)[0]);
                lemma_reports_then_transfer(effects, group, pre.inputs@, pre.outputs@, 1);
            } else {
                lemma_reports_only(effects);
            }
        },
        (MapperPhase::Filling, SimpleReply::Input(Some(item))) => {
            let group = pre.current.unwrap();
            let inputs = pre.inputs@.push(item.inputs);
            let outputs = pre.outputs@.push((item.key, item.output));
            if inputs.len() >= group.active().len() {
                lemma_reports_then_transfer(effects, group, inputs, outputs, 0);
            } else {
                lemma_reports_only(effects);
            }
        },
        (MapperPhase::Filling, SimpleReply::Input(None)) => {
            let group = pre.current.unwrap();
            let head = effects.subrange(0, 1);
            assert(head[0] == effects[0]);
            assert(head.last() == effects[0]);
            lemma_reports_then_transfer(head, group, pre.inputs@, pre.outputs@, 0);
            lemma_project_cut(effects, 1, |e: Effect<K>| transfer_of(e));
            lemma_project_cut(effects, 1, |e: Effect<K>| job_of(e));
            lemma_project_cut(effects, 1, |e: Effect<K>| finished_of(e));
            lemma_project_cut(effects, 1, |e: Effect<K>| release_of(e));
            lemma_project_cut(effects, 1, |e: Effect<K>| output_of(e));
        },
        _ => {},
    }
}

} // verus!
