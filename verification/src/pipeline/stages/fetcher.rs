//! The fetcher: it reads the results of a finished group out of DPU memory,
//! gives the group back to the mapper, and delivers the results.

use crate::buffers::copy_of;
use crate::buffers::filled;
use crate::dpu::DpuId;
use crate::error::ClusterError;
use crate::memory::entry_of;
use crate::memory::with_entry;
use crate::memory::MemoryTransfer;
use crate::memory::MemoryTransferEntryReference;
use crate::pipeline::flow::finished_in;
use crate::pipeline::flow::id_of;
use crate::pipeline::flow::ids_of_groups;
use crate::pipeline::flow::lemma_ids_one;
use crate::pipeline::flow::finished_of;
use crate::pipeline::flow::job_of;
use crate::pipeline::flow::jobs_in;
use crate::pipeline::flow::lemma_project_all;
use crate::pipeline::flow::lemma_project_cut;
use crate::pipeline::flow::lemma_project_last;
use crate::pipeline::flow::lemma_project_none;
use crate::pipeline::flow::lemma_project_skip;
use crate::pipeline::flow::lemma_reports_only;
use crate::pipeline::flow::output_of;
use crate::pipeline::flow::outputs_in;
use crate::pipeline::flow::release_of;
use crate::pipeline::flow::releases_in;
use crate::pipeline::flow::transfer_of;
use crate::pipeline::flow::transfers_in;
use crate::pipeline::monitoring::Event;
use crate::pipeline::monitoring::EventMonitor;
use crate::pipeline::monitoring::Process;
use crate::pipeline::stages::DpuGroup;
use crate::pipeline::stages::Effect;
use crate::pipeline::stages::GroupJob;
use crate::pipeline::stages::Step;
use crate::pipeline::transfer::OutputMemoryTransfer;
use crate::pipeline::PipelineError;
use vstd::multiset::Multiset;
use vstd::prelude::*;

verus! {

/// What the fetcher waits for.
#[derive(Debug)]
pub enum FetcherRequest {
    /// The next finished job; waits until one comes or the tracker stops.
    NextJob,
    /// The buffers of this transfer, filled from DPU memory.
    CopyFromMemory(MemoryTransfer),
    /// Nothing more: the fetcher has stopped.
    Exit,
}

/// The answer to a request of the fetcher.
#[derive(Debug)]
pub enum FetcherReply<K> {
    /// Answers `NextJob`: a job, or `None` once there are no more.
    Job(Option<GroupJob<K>>),
    /// Answers `CopyFromMemory`: the transfer with its buffers filled.
    Copied(Result<MemoryTransfer, ClusterError>),
    /// An effect could not be performed: whoever should take it is gone.
    Broken,
}

/// Where the fetcher stands between two steps.
#[derive(Clone, Copy, Debug, PartialEq, Eq, Structural)]
pub enum FetcherPhase {
    /// Not started yet.
    Created,
    /// Waiting for a finished job.
    AwaitingJob,
    /// Waiting for the results of a job to be read.
    Copying,
    /// Stopped for good.
    Stopped,
}

/// The fetcher.
#[derive(Debug)]
pub struct OutputFetcher<K> {
    pub monitoring: EventMonitor,
    pub phase: FetcherPhase,
    /// The job whose results are being read.
    pub current: Option<GroupJob<K>>,
}

/// A buffer of `length` zero bytes.
pub open spec fn blank(length: u32) -> Seq<u8> {
    Seq::new(length as nat, |i: int| 0u8)
}

/// How many of the `outputs` have a DPU among `dpus` to be read from.
pub open spec fn paired<K>(dpus: Seq<DpuId>, outputs: Seq<(K, OutputMemoryTransfer)>) -> int {
    if dpus.len() <= outputs.len() {
        dpus.len() as int
    } else {
        outputs.len() as int
    }
}

/// The transfer that reads the first `n` of the `outputs`, each from the DPU
/// at its position, into a blank buffer of the length asked for.
pub open spec fn fetch_plan<K>(
    dpus: Seq<DpuId>,
    outputs: Seq<(K, OutputMemoryTransfer)>,
    n: int,
) -> Map<u8, Map<DpuId, (u32, Seq<u8>)>>
    decreases n,
{
    if n <= 0 {
        Map::empty()
    } else {
        with_entry(
            fetch_plan(dpus, outputs, n - 1),
            dpus[n - 1],
            outputs[n - 1].1.offset,
            blank(outputs[n - 1].1.length),
        )
    }
}

/// The bytes delivered for the output at `position`: what `filled` holds for
/// the DPU at that position, or a blank buffer where there is no such DPU or
/// nothing was read for it.
pub open spec fn fetched<K>(
    filled: Map<u8, Map<DpuId, (u32, Seq<u8>)>>,
    dpus: Seq<DpuId>,
    outputs: Seq<(K, OutputMemoryTransfer)>,
    position: int,
) -> Seq<u8> {
    if position < dpus.len() && entry_of(filled, dpus[position]) is Some {
        entry_of(filled, dpus[position]).unwrap().1
    } else {
        blank(outputs[position].1.length)
    }
}

impl<K> OutputFetcher<K> {
    pub fn new(monitoring: EventMonitor) -> (fetcher: OutputFetcher<K>)
        ensures
            fetcher.monitoring == (EventMonitor { process: Process::Fetcher, policy: monitoring.policy }),
            fetcher.phase == FetcherPhase::Created,
            fetcher.current is None,
    {
        let mut monitoring = monitoring;
        monitoring.set_process(Process::Fetcher);
        OutputFetcher { monitoring, phase: FetcherPhase::Created, current: None }
    }

    /// The fetcher stops: it reports the end of its process, if it was
    /// running, and drops the job at hand.
    pub open spec fn stops(pre: Self, post: Self, step: Step<K, FetcherRequest>) -> bool {
        &&& post.monitoring == pre.monitoring
        &&& post.current is None
        &&& post.phase == FetcherPhase::Stopped
        &&& step.request is Exit
        &&& step.effects@ =~= if pre.phase == FetcherPhase::Stopped || pre.phase == FetcherPhase::Created {
            Seq::<Effect<K>>::empty()
        } else {
            seq![Effect::Record(Event::ProcessEnd)]
        }
    }

    /// A finished job comes in: the fetcher reports the beginning of the
    /// fetch and, for each output that has a DPU, where it reads from; then it
    /// asks for the memory to be read.
    pub open spec fn begins(pre: Self, job: GroupJob<K>, post: Self, step: Step<K, FetcherRequest>) -> bool {
        let dpus = job.0.active();
        let n = paired(dpus, job.1@);
        &&& post.monitoring == pre.monitoring
        &&& post.current == Some(job)
        &&& post.phase == FetcherPhase::Copying
        &&& step.effects@.len() == n + 1
        &&& step.effects@[0] == Effect::<K>::Record(Event::OutputFetchingBegin(job.0.id))
        &&& forall|i: int|
            0 <= i < n ==> (#[trigger] step.effects@[i + 1]) == Effect::<K>::Record(
                Event::OutputFetchingInfo {
                    dpu: dpus[i],
                    offset: job.1@[i].1.offset,
                    length: job.1@[i].1.length,
                },
            )
        &&& step.request matches FetcherRequest::CopyFromMemory(transfer)
        &&& transfer@ == fetch_plan(dpus, job.1@, n)
    }

    /// The memory was read into `filled`: the group goes back to the mapper
    /// first, then every output is delivered with its key and its bytes, and
    /// the end of the fetch is reported.
    pub open spec fn delivers(
        pre: Self,
        filled: MemoryTransfer,
        post: Self,
        step: Step<K, FetcherRequest>,
    ) -> bool {
        let job = pre.current.unwrap();
        let dpus = job.0.active();
        &&& post.monitoring == pre.monitoring
        &&& post.current is None
        &&& post.phase == FetcherPhase::AwaitingJob
        &&& step.request is NextJob
        &&& step.effects@.len() == job.1@.len() + 2
        &&& step.effects@[0] matches Effect::Release(group)
        &&& group == job.0
        &&& forall|i: int|
            0 <= i < job.1@.len() ==> {
                &&& (#[trigger] step.effects@[i + 1]) matches Effect::Output(Ok(result))
                &&& result.0 == job.1@[i].0
                &&& result.1@ == fetched(filled@, dpus, job.1@, i)
            }
        &&& step.effects@.last() == Effect::<K>::Record(Event::OutputFetchingEnd(job.0.id))
    }

    /// Reading the memory failed: the end of the fetch is reported, one error
    /// goes to the caller, and the group is not given back.
    pub open spec fn fails(pre: Self, err: ClusterError, post: Self, step: Step<K, FetcherRequest>) -> bool {
        &&& post.monitoring == pre.monitoring
        &&& post.current is None
        &&& post.phase == FetcherPhase::AwaitingJob
        &&& step.request is NextJob
        &&& step.effects@ =~= seq![
            Effect::Record(Event::OutputFetchingEnd(pre.current.unwrap().0.id)),
            Effect::Output(Err(PipelineError::InfrastructureError(err))),
        ]
    }

    /// How the fetcher goes from `pre` to `post` when it is resumed with
    /// `reply`, and what it asks for in `step`.
    pub open spec fn resumes(pre: Self, reply: FetcherReply<K>, post: Self, step: Step<K, FetcherRequest>) -> bool {
        match (pre.phase, reply) {
            (FetcherPhase::AwaitingJob, FetcherReply::Job(Some(job))) => Self::begins(
                pre,
                job,
                post,
                step,
            ),
            (FetcherPhase::Copying, FetcherReply::Copied(Ok(filled))) => if pre.current is Some {
                Self::delivers(pre, filled, post, step)
            } else {
                Self::stops(pre, post, step)
            },
            (FetcherPhase::Copying, FetcherReply::Copied(Err(err))) => if pre.current is Some {
                Self::fails(pre, err, post, step)
            } else {
                Self::stops(pre, post, step)
            },
            _ => Self::stops(pre, post, step),
        }
    }

    /// Starts the fetcher: it reports the beginning of its process and asks
    /// for the first finished job. A fetcher that was started before stops.
    pub fn start(&mut self) -> (step: Step<K, FetcherRequest>)
        ensures
            old(self).phase == FetcherPhase::Created ==> {
                &&& final(self).monitoring == old(self).monitoring
                &&& final(self).current == old(self).current
                &&& final(self).phase == FetcherPhase::AwaitingJob
                &&& step.effects@ == seq![Effect::<K>::Record(Event::ProcessBegin)]
                &&& step.request is NextJob
            },
            old(self).phase != FetcherPhase::Created ==> Self::stops(*old(self), *final(self), step),
    {
        match self.phase {
            FetcherPhase::Created => {
                self.phase = FetcherPhase::AwaitingJob;
                Step {
                    effects: vec![Effect::Record(Event::ProcessBegin)],
                    request: FetcherRequest::NextJob,
                }
            },
            _ => self.stop(),
        }
    }

    fn stop(&mut self) -> (step: Step<K, FetcherRequest>)
        ensures
            Self::stops(*old(self), *final(self), step),
    {
        let mut effects: Vec<Effect<K>> = Vec::new();
        match self.phase {
            FetcherPhase::Stopped | FetcherPhase::Created => {},
            _ => {
                effects.push(Effect::Record(Event::ProcessEnd));
            },
        }
        self.phase = FetcherPhase::Stopped;
        self.current = None;
        Step { effects, request: FetcherRequest::Exit }
    }

    fn begin(&mut self, job: GroupJob<K>) -> (step: Step<K, FetcherRequest>)
        ensures
            Self::begins(*old(self), job, *final(self), step),
    {
        let dpus = job.0.active_dpus();
        let mut effects: Vec<Effect<K>> = vec![Effect::Record(Event::OutputFetchingBegin(job.0.id))];
        let mut transfer = MemoryTransfer::default();
        let mut i: usize = 0;
        while i < dpus.len() && i < job.1.len()
            invariant
                dpus@ == job.0.active(),
                i <= dpus@.len(),
                i <= job.1@.len(),
                effects@.len() == i + 1,
                effects@[0] == Effect::<K>::Record(Event::OutputFetchingBegin(job.0.id)),
                forall|j: int|
                    0 <= j < i ==> (#[trigger] effects@[j + 1]) == Effect::<K>::Record(
                        Event::OutputFetchingInfo {
                            dpu: dpus@[j],
                            offset: job.1@[j].1.offset,
                            length: job.1@[j].1.length,
                        },
                    ),
                transfer@ == fetch_plan(dpus@, job.1@, i as int),
            decreases dpus.len() - i,
        {
            let dpu = dpus[i];
            let region = job.1[i].1;
            effects.push(
                Effect::Record(
                    Event::OutputFetchingInfo { dpu, offset: region.offset, length: region.length },
                ),
            );
            transfer.add_in_place(
                dpu,
                region.offset,
                MemoryTransferEntryReference(filled(0u8, region.length as usize)),
            );
            i += 1;
        }
        self.current = Some(job);
        self.phase = FetcherPhase::Copying;
        Step { effects, request: FetcherRequest::CopyFromMemory(transfer) }
    }

    fn deliver_taken(&mut self, job: GroupJob<K>, filled_transfer: MemoryTransfer) -> (step: Step<
        K,
        FetcherRequest,
    >)
        ensures
            forall|pre: Self|
                pre.monitoring == old(self).monitoring && pre.current == Some(job)
                    ==> #[trigger] Self::delivers(pre, filled_transfer, *final(self), step),
    {
        let (group, outputs) = job;
        let mut outputs = outputs;
        let id = group.id;
        let dpus = group.active_dpus();
        let mut effects: Vec<Effect<K>> = vec![Effect::Release(group)];
        let mut i: usize = 0;
        let ghost all = outputs@;
        let total = outputs.len();
        while outputs.len() > 0
            invariant
                dpus@ == group.active(),
                all == job.1@,
                all.len() == total,
                i <= all.len(),
                outputs@ =~= all.subrange(i as int, all.len() as int),
                effects@.len() == i + 1,
                effects@[0] == Effect::<K>::Release(group),
                forall|j: int|
                    0 <= j < i ==> {
                        &&& (#[trigger] effects@[j + 1]) matches Effect::Output(Ok(result))
                        &&& result.0 == all[j].0
                        &&& result.1@ == fetched(filled_transfer@, dpus@, all, j)
                    },
            decreases outputs.len(),
        {
            let (key, region) = outputs.remove(0);
            let found = if i < dpus.len() {
                filled_transfer.get(dpus[i])
            } else {
                None
            };
            let bytes = match found {
                Some(entry) => copy_of(&entry.reference),
                None => filled(0u8, region.length as usize),
            };
            effects.push(Effect::Output(Ok((key, bytes))));
            i += 1;
        }
        effects.push(Effect::Record(Event::OutputFetchingEnd(id)));
        self.current = None;
        self.phase = FetcherPhase::AwaitingJob;
        Step { effects, request: FetcherRequest::NextJob }
    }

    /// Resumes the fetcher with the answer to its last request.
    pub fn resume(&mut self, reply: FetcherReply<K>) -> (step: Step<K, FetcherRequest>)
        ensures
            Self::resumes(*old(self), reply, *final(self), step),
    {
        match (self.phase, reply) {
            (FetcherPhase::AwaitingJob, FetcherReply::Job(Some(job))) => self.begin(job),
            (FetcherPhase::Copying, FetcherReply::Copied(Ok(filled_transfer))) => {
                match self.current.take() {
                    Some(job) => {
                        self.current = None;
                        self.deliver_taken(job, filled_transfer)
                    },
                    None => self.stop(),
                }
            },
            (FetcherPhase::Copying, FetcherReply::Copied(Err(err))) => {
                match self.current.take() {
                    Some(job) => {
                        self.phase = FetcherPhase::AwaitingJob;
                        Step {
                            effects: vec![
                                Effect::Record(Event::OutputFetchingEnd(job.0.id)),
                                Effect::Output(Err(PipelineError::InfrastructureError(err))),
                            ],
                            request: FetcherRequest::NextJob,
                        }
                    },
                    None => self.stop(),
                }
            },
            _ => self.stop(),
        }
    }
}

impl<K> OutputFetcher<K> {
    /// A job is at hand exactly while its results are being read.
    pub open spec fn wf(self) -> bool {
        (self.phase == FetcherPhase::Copying) == (self.current is Some)
    }

    /// Whether `reply` answers what a fetcher in `phase` has asked for.
    pub open spec fn expects(phase: FetcherPhase, reply: FetcherReply<K>) -> bool {
        match (phase, reply) {
            (FetcherPhase::AwaitingJob, FetcherReply::Job(_)) => true,
            (FetcherPhase::Copying, FetcherReply::Copied(_)) => true,
            _ => false,
        }
    }

    /// Number of groups in the fetcher's hands.
    pub open spec fn held_groups(self) -> nat {
        if self.current is Some {
            1
        } else {
            0
        }
    }

    /// Number of work items in the fetcher's hands.
    pub open spec fn held_items(self) -> nat {
        match self.current {
            Some(job) => job.1@.len(),
            None => 0,
        }
    }

    /// Number of groups that come with `reply`.
    pub open spec fn groups_with(reply: FetcherReply<K>) -> nat {
        if reply matches FetcherReply::Job(Some(_)) {
            1
        } else {
            0
        }
    }

    /// Number of work items that come with `reply`.
    pub open spec fn items_with(reply: FetcherReply<K>) -> nat {
        match reply {
            FetcherReply::Job(Some(job)) => job.1@.len(),
            _ => 0,
        }
    }

    /// Whether `reply` reports a failed call of the driver.
    pub open spec fn fails_with(reply: FetcherReply<K>) -> bool {
        reply matches FetcherReply::Copied(Err(_))
    }
}

/// A step of the fetcher keeps the fetcher well-formed. Unless the driver
/// failed, it loses neither a group nor a work item: the group at hand goes
/// back to the mapper and every item of the job is delivered with the key it
/// came with. When the driver failed, the group at hand is dropped with its
/// items and exactly one error is delivered.
pub proof fn lemma_fetcher_flow<K>(
    pre: OutputFetcher<K>,
    reply: FetcherReply<K>,
    post: OutputFetcher<K>,
    step: Step<K, FetcherRequest>,
)
    requires
        pre.wf(),
        OutputFetcher::<K>::expects(pre.phase, reply),
        OutputFetcher::resumes(pre, reply, post, step),
    ensures
        post.wf(),
        transfers_in(step.effects@).len() == 0,
        jobs_in(step.effects@).len() == 0,
        finished_in(step.effects@).len() == 0,
        post.current is Some ==> reply == FetcherReply::Job(post.current),
        forall|i: int|
            0 <= i < releases_in(step.effects@).len() ==> pre.current is Some && (
            #[trigger] releases_in(step.effects@)[i]) == pre.current.unwrap().0,
        !OutputFetcher::<K>::fails_with(reply) ==> {
            &&& post.held_groups() + releases_in(step.effects@).len() == pre.held_groups()
                + OutputFetcher::<K>::groups_with(reply)
            &&& post.held_items() + outputs_in(step.effects@).len() == pre.held_items()
                + OutputFetcher::<K>::items_with(reply)
            &&& forall|i: int|
                0 <= i < outputs_in(step.effects@).len() ==> {
                    &&& (#[trigger] outputs_in(step.effects@)[i]) matches Ok(result)
                    &&& result.0 == pre.current.unwrap().1@[i].0
                }
        },
        OutputFetcher::<K>::fails_with(reply) ==> {
            &&& post.held_groups() == 0
            &&& pre.held_groups() == 1
            &&& releases_in(step.effects@).len() == 0
            &&& outputs_in(step.effects@).len() == 1
            &&& outputs_in(step.effects@)[0] is Err
        },
{
    let effects = step.effects@;
    match (pre.phase, reply) {
        (FetcherPhase::AwaitingJob, FetcherReply::Job(Some(job))) => {
            assert forall|i: int| 0 <= i < effects.len() implies (#[trigger] effects[i]) is Record by {
                if i > 0 {
                    assert(effects[(i - 1) + 1] is Record);
                }
            }
            lemma_reports_only(effects);
        },
        (FetcherPhase::AwaitingJob, FetcherReply::Job(None)) => {
            lemma_reports_only(effects);
        },
        (FetcherPhase::Copying, FetcherReply::Copied(Ok(filled))) => {
            let job = pre.current.unwrap();
            let n = job.1@.len() as int;
            assert forall|i: int| 1 <= i < effects.len() - 1 implies (#[trigger] effects[i]) is Output by {
                assert(effects[(i - 1) + 1] is Output);
            }
            lemma_project_none(effects, |e: Effect<K>| transfer_of(e));
            lemma_project_none(effects, |e: Effect<K>| job_of(e));
            lemma_project_none(effects, |e: Effect<K>| finished_of(e));
            // The group is the first effect and the only one of its kind.
            lemma_project_cut(effects, 1, |e: Effect<K>| release_of(e));
            lemma_project_last(effects.subrange(0, 1), |e: Effect<K>| release_of(e));
            // The results are the effects between the first and the last.
            let body = effects.subrange(0, n + 1);
            lemma_project_cut(effects, n + 1, |e: Effect<K>| output_of(e));
            let results = body.subrange(1, n + 1);
            lemma_project_skip(body, 1, |e: Effect<K>| output_of(e));
            assert forall|i: int| 0 <= i < results.len() implies output_of(
                #[trigger] results[i],
            ) is Some by {
                assert(results[i] == effects[i + 1]);
            }
            lemma_project_all(results, |e: Effect<K>| output_of(e));
            assert forall|i: int| 0 <= i < outputs_in(effects).len() implies {
                &&& (#[trigger] outputs_in(effects)[i]) matches Ok(result)
                &&& result.0 == job.1@[i].0
            } by {
                assert(results[i] == effects[i + 1]);
            }
        },
        (FetcherPhase::Copying, FetcherReply::Copied(Err(err))) => {
            lemma_project_none(effects, |e: Effect<K>| transfer_of(e));
            lemma_project_none(effects, |e: Effect<K>| job_of(e));
            lemma_project_none(effects, |e: Effect<K>| finished_of(e));
            lemma_project_none(effects, |e: Effect<K>| release_of(e));
            lemma_project_last(effects, |e: Effect<K>| output_of(e));
        },
        _ => {},
    }
}

impl<K> OutputFetcher<K> {
    /// The group of the job at hand, if there is one.
    pub open spec fn group_at_hand(self) -> Option<DpuGroup> {
        match self.current {
            Some(job) => Some(job.0),
            None => None,
        }
    }

    /// The group that comes with `reply`, if any.
    pub open spec fn group_with(reply: FetcherReply<K>) -> Option<DpuGroup> {
        match reply {
            FetcherReply::Job(Some(job)) => Some(job.0),
            _ => None,
        }
    }

    /// The group that `reply` makes the fetcher drop, if it does.
    pub open spec fn dropped_with(pre: Self, reply: FetcherReply<K>) -> Option<DpuGroup> {
        if Self::fails_with(reply) {
            pre.group_at_hand()
        } else {
            None
        }
    }
}

/// A step of the fetcher moves groups and makes none: the group it holds
/// afterwards, the group it gives back and the group it drops are the group
/// it held before and the group that came with the reply.
pub proof fn lemma_fetcher_groups<K>(
    pre: OutputFetcher<K>,
    reply: FetcherReply<K>,
    post: OutputFetcher<K>,
    step: Step<K, FetcherRequest>,
)
    requires
        pre.wf(),
        OutputFetcher::<K>::expects(pre.phase, reply),
        OutputFetcher::resumes(pre, reply, post, step),
    ensures
        id_of(post.group_at_hand()).add(ids_of_groups(releases_in(step.effects@))).add(
            id_of(OutputFetcher::dropped_with(pre, reply)),
        ) == id_of(pre.group_at_hand()).add(id_of(OutputFetcher::<K>::group_with(reply))),
{
    let given = releases_in(step.effects@);
    let none = Seq::<DpuGroup>::empty();
    lemma_fetcher_flow(pre, reply, post, step);
    assert(ids_of_groups(none) == Multiset::<int>::empty());
    if given.len() == 0 {
        assert(given =~= none);
    } else {
        assert(given[0] == pre.current.unwrap().0);
        lemma_ids_one(given);
    }
    assert(id_of(post.group_at_hand()).add(ids_of_groups(given)).add(
        id_of(OutputFetcher::dropped_with(pre, reply)),
    ) =~= id_of(pre.group_at_hand()).add(id_of(OutputFetcher::<K>::group_with(reply))));
}

} // verus!
