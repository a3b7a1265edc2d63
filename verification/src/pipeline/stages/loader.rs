//! The loader: it writes the inputs of a batch into DPU memory, boots the
//! DPUs of the group, and hands the running batch to the tracker.

use crate::dpu::DpuId;
use crate::error::ClusterError;
use crate::memory::with_entry;
use crate::memory::MemoryTransfer;
use crate::memory::MemoryTransferEntryReference;
use crate::pipeline::flow::finished_in;
use crate::pipeline::flow::groups_of_jobs;
use crate::pipeline::flow::id_of;
use crate::pipeline::flow::ids_of_groups;
use crate::pipeline::flow::lemma_ids_one;
use crate::pipeline::flow::finished_of;
use crate::pipeline::flow::items_in_jobs;
use crate::pipeline::flow::job_of;
use crate::pipeline::flow::jobs_in;
use crate::pipeline::flow::lemma_items_in_one_job;
use crate::pipeline::flow::lemma_project_last;
use crate::pipeline::flow::lemma_project_none;
use crate::pipeline::flow::lemma_reports_only;
use crate::pipeline::flow::output_of;
use crate::pipeline::flow::outputs_in;
use crate::pipeline::flow::release_of;
use crate::pipeline::flow::releases_in;
use crate::pipeline::flow::transfer_of;
use crate::pipeline::flow::transfers_in;
use crate::pipeline::monitoring::Event;
use crate::pipeline::monitoring::EventMonitor;
use crate::pipeline::monitoring::Process;
use crate::pipeline::stages::DpuGroup;
use crate::pipeline::stages::Effect;
use crate::pipeline::stages::GroupJob;
use crate::pipeline::stages::GroupTransfer;
use crate::pipeline::stages::Step;
use crate::pipeline::transfer::InputMemoryTransfer;
use crate::pipeline::PipelineError;
use vstd::multiset::Multiset;
use vstd::prelude::*;

verus! {

/// What the loader waits for.
#[derive(Debug)]
pub enum LoaderRequest {
    /// The next batch; waits until one comes or the mapper stops.
    NextTransfer,
    /// The outcome of writing this transfer into DPU memory.
    CopyToMemory(MemoryTransfer),
    /// The outcome of booting this DPU.
    Boot(DpuId),
    /// Nothing more: the loader has stopped.
    Exit,
}

/// The answer to a request of the loader.
#[derive(Debug)]
pub enum LoaderReply<K> {
    /// Answers `NextTransfer`: a batch, or `None` once there are no more.
    Transfer(Option<GroupTransfer<K>>),
    /// Answers `CopyToMemory` and `Boot`.
    Done(Result<(), ClusterError>),
    /// An effect could not be performed: whoever should take it is gone.
    Broken,
}

/// Where the loader stands between two steps.
#[derive(Clone, Copy, Debug, PartialEq, Eq, Structural)]
pub enum LoaderPhase {
    /// Not started yet.
    Created,
    /// Waiting for a batch.
    AwaitingTransfer,
    /// Waiting for a transfer matrix to be written.
    Copying,
    /// Waiting for a DPU to boot.
    Booting,
    /// Stopped for good.
    Stopped,
}

/// The loader.
#[derive(Debug)]
pub struct InputLoader<K> {
    pub monitoring: EventMonitor,
    pub phase: LoaderPhase,
    /// The batch that is being loaded, as the tracker will get it.
    pub current: Option<GroupJob<K>>,
    /// The transfer matrices that are still to be written, in order.
    pub matrices: Vec<MemoryTransfer>,
    /// The active DPUs of the group.
    pub dpus: Vec<DpuId>,
    /// How many of them have been booted.
    pub booted: usize,
}

/// The length of the longest of the `lists`.
pub open spec fn widest(lists: Seq<Vec<InputMemoryTransfer>>) -> nat
    decreases lists.len(),
{
    if lists.len() == 0 {
        0
    } else if lists.last()@.len() > widest(lists.drop_last()) {
        lists.last()@.len()
    } else {
        widest(lists.drop_last())
    }
}

/// Transfer matrix `j` of a batch, restricted to the first `n` items: for
/// each of them that has a DPU at its position and a `j`-th region, that
/// region at its offset in the memory of that DPU.
pub open spec fn matrix(
    dpus: Seq<DpuId>,
    inputs: Seq<Vec<InputMemoryTransfer>>,
    j: int,
    n: int,
) -> Map<u8, Map<DpuId, (u32, Seq<u8>)>>
    decreases n,
{
    if n <= 0 {
        Map::empty()
    } else if n - 1 < dpus.len() && j < inputs[n - 1]@.len() {
        with_entry(
            matrix(dpus, inputs, j, n - 1),
            dpus[n - 1],
            inputs[n - 1]@[j].offset,
            inputs[n - 1]@[j].content@,
        )
    } else {
        matrix(dpus, inputs, j, n - 1)
    }
}

/// The transfer matrices of a batch, in the order in which they are written.
pub open spec fn matrices_of(dpus: Seq<DpuId>, inputs: Seq<Vec<InputMemoryTransfer>>) -> Seq<
    Map<u8, Map<DpuId, (u32, Seq<u8>)>>,
> {
    Seq::new(widest(inputs), |j: int| matrix(dpus, inputs, j, inputs.len() as int))
}

/// What a list of transfers stands for, one by one.
pub open spec fn views(transfers: Seq<MemoryTransfer>) -> Seq<Map<u8, Map<DpuId, (u32, Seq<u8>)>>> {
    Seq::new(transfers.len(), |j: int| transfers[j]@)
}

impl<K> InputLoader<K> {
    pub fn new(monitoring: EventMonitor) -> (loader: InputLoader<K>)
        ensures
            loader.monitoring == (EventMonitor { process: Process::Loader, policy: monitoring.policy }),
            loader.phase == LoaderPhase::Created,
            loader.current is None,
            loader.matrices@.len() == 0,
            loader.dpus@.len() == 0,
            loader.booted == 0,
    {
        let mut monitoring = monitoring;
        monitoring.set_process(Process::Loader);
        InputLoader {
            monitoring,
            phase: LoaderPhase::Created,
            current: None,
            matrices: Vec::new(),
            dpus: Vec::new(),
            booted: 0,
        }
    }

    /// Nothing is left of the batch at hand.
    pub open spec fn cleared(post: Self) -> bool {
        &&& post.current is None
        &&& post.matrices@.len() == 0
        &&& post.dpus@.len() == 0
        &&& post.booted == 0
    }

    /// The loader stops: it reports the end of its process, if it was
    /// running, and drops the batch at hand.
    pub open spec fn stops(pre: Self, post: Self, step: Step<K, LoaderRequest>) -> bool {
        &&& post.monitoring == pre.monitoring
        &&& Self::cleared(post)
        &&& post.phase == LoaderPhase::Stopped
        &&& step.request is Exit
        &&& step.effects@ =~= if pre.phase == LoaderPhase::Stopped || pre.phase == LoaderPhase::Created {
            Seq::<Effect<K>>::empty()
        } else {
            seq![Effect::Record(Event::ProcessEnd)]
        }
    }

    /// The loading of `job` goes on after the effects `before`: the first of
    /// the `matrices` still to be written is written; without any, the first
    /// of the `dpus` not yet booted is booted; without any, the end of the
    /// loading is reported and the job handed to the tracker.
    pub open spec fn advances(
        pre: Self,
        job: GroupJob<K>,
        dpus: Seq<DpuId>,
        matrices: Seq<Map<u8, Map<DpuId, (u32, Seq<u8>)>>>,
        booted: int,
        before: Seq<Effect<K>>,
        post: Self,
        step: Step<K, LoaderRequest>,
    ) -> bool {
        &&& post.monitoring == pre.monitoring
        &&& if matrices.len() > 0 {
            &&& post.phase == LoaderPhase::Copying
            &&& post.current == Some(job)
            &&& post.dpus@ =~= dpus
            &&& post.booted == booted
            &&& views(post.matrices@) =~= matrices.skip(1)
            &&& step.effects@ =~= before
            &&& step.request matches LoaderRequest::CopyToMemory(transfer)
            &&& transfer@ == matrices[0]
        } else if 0 <= booted < dpus.len() {
            &&& post.phase == LoaderPhase::Booting
            &&& post.current == Some(job)
            &&& post.dpus@ =~= dpus
            &&& post.booted == booted
            &&& post.matrices@.len() == 0
            &&& step.effects@ =~= before
            &&& step.request matches LoaderRequest::Boot(dpu)
            &&& dpu == dpus[booted]
        } else {
            &&& post.phase == LoaderPhase::AwaitingTransfer
            &&& Self::cleared(post)
            &&& step.effects@.len() == before.len() + 2
            &&& step.effects@.subrange(0, before.len() as int) =~= before
            &&& step.effects@[before.len() as int] == Effect::<K>::Record(
                Event::GroupLoadingEnd(job.0.id),
            )
            &&& step.effects@.last() matches Effect::Job(handed)
            &&& handed == job
            &&& step.request is NextTransfer
        }
    }

    /// A batch comes in: the loader reports the beginning of the loading and
    /// starts on the transfer matrices. A batch without items is handed on as
    /// it is.
    pub open spec fn begins(pre: Self, transfer: GroupTransfer<K>, post: Self, step: Step<K, LoaderRequest>) -> bool {
        let dpus = if transfer.1@.len() == 0 {
            Seq::empty()
        } else {
            transfer.0.active()
        };
        Self::advances(
            pre,
            (transfer.0, transfer.2),
            dpus,
            matrices_of(dpus, transfer.1@),
            0,
            seq![Effect::Record(Event::GroupLoadingBegin(transfer.0.id))],
            post,
            step,
        )
    }

    /// A call of the driver failed: the end of the loading is reported, one
    /// error goes to the caller, and the batch is dropped with its group.
    pub open spec fn abandons(pre: Self, err: ClusterError, post: Self, step: Step<K, LoaderRequest>) -> bool {
        &&& post.monitoring == pre.monitoring
        &&& Self::cleared(post)
        &&& post.phase == LoaderPhase::AwaitingTransfer
        &&& step.request is NextTransfer
        &&& step.effects@ =~= seq![
            Effect::Record(Event::GroupLoadingEnd(pre.current.unwrap().0.id)),
            Effect::Output(Err(PipelineError::InfrastructureError(err))),
        ]
    }

    /// How the loader goes from `pre` to `post` when it is resumed with
    /// `reply`, and what it asks for in `step`.
    pub open spec fn resumes(pre: Self, reply: LoaderReply<K>, post: Self, step: Step<K, LoaderRequest>) -> bool {
        match (pre.phase, reply) {
            (LoaderPhase::AwaitingTransfer, LoaderReply::Transfer(Some(transfer))) => Self::begins(
                pre,
                transfer,
                post,
                step,
            ),
            (LoaderPhase::Copying, LoaderReply::Done(Ok(_))) => if pre.current is Some {
                Self::advances(
                    pre,
                    pre.current.unwrap(),
                    pre.dpus@,
                    views(pre.matrices@),
                    pre.booted as int,
                    Seq::empty(),
                    post,
                    step,
                )
            } else {
                Self::stops(pre, post, step)
            },
            (LoaderPhase::Booting, LoaderReply::Done(Ok(_))) => if pre.current is Some && pre.booted
                < pre.dpus@.len() {
                Self::advances(
                    pre,
                    pre.current.unwrap(),
                    pre.dpus@,
                    views(pre.matrices@),
                    pre.booted + 1,
                    Seq::empty(),
                    post,
                    step,
                )
            } else {
                Self::stops(pre, post, step)
            },
            (LoaderPhase::Copying, LoaderReply::Done(Err(err))) => if pre.current is Some {
                Self::abandons(pre, err, post, step)
            } else {
                Self::stops(pre, post, step)
            },
            (LoaderPhase::Booting, LoaderReply::Done(Err(err))) => if pre.current is Some {
                Self::abandons(pre, err, post, step)
            } else {
                Self::stops(pre, post, step)
            },
            _ => Self::stops(pre, post, step),
        }
    }

    /// Starts the loader: it reports the beginning of its process and asks
    /// for the first batch. A loader that was started before stops.
    pub fn start(&mut self) -> (step: Step<K, LoaderRequest>)
        ensures
            old(self).phase == LoaderPhase::Created ==> {
                &&& final(self).monitoring == old(self).monitoring
                &&& final(self).current == old(self).current
                &&& final(self).matrices == old(self).matrices
                &&& final(self).dpus == old(self).dpus
                &&& final(self).booted == old(self).booted
                &&& final(self).phase == LoaderPhase::AwaitingTransfer
                &&& step.effects@ == seq![Effect::<K>::Record(Event::ProcessBegin)]
                &&& step.request is NextTransfer
            },
            old(self).phase != LoaderPhase::Created ==> Self::stops(*old(self), *final(self), step),
    {
        match self.phase {
            LoaderPhase::Created => {
                self.phase = LoaderPhase::AwaitingTransfer;
                Step {
                    effects: vec![Effect::Record(Event::ProcessBegin)],
                    request: LoaderRequest::NextTransfer,
                }
            },
            _ => self.stop(),
        }
    }

    fn clear(&mut self)
        ensures
            final(self).monitoring == old(self).monitoring,
            final(self).phase == old(self).phase,
            Self::cleared(*final(self)),
    {
        self.current = None;
        self.matrices = Vec::new();
        self.dpus = Vec::new();
        self.booted = 0;
    }

    fn stop(&mut self) -> (step: Step<K, LoaderRequest>)
        ensures
            Self::stops(*old(self), *final(self), step),
    {
        let mut effects: Vec<Effect<K>> = Vec::new();
        match self.phase {
            LoaderPhase::Stopped | LoaderPhase::Created => {},
            _ => {
                effects.push(Effect::Record(Event::ProcessEnd));
            },
        }
        self.clear();
        self.phase = LoaderPhase::Stopped;
        Step { effects, request: LoaderRequest::Exit }
    }

    /// Goes on with the loading of `job`.
    fn advance(&mut self, job: GroupJob<K>, effects: Vec<Effect<K>>) -> (step: Step<K, LoaderRequest>)
        ensures
            Self::advances(
                *old(self),
                job,
                old(self).dpus@,
                views(old(self).matrices@),
                old(self).booted as int,
                effects@,
                *final(self),
                step,
            ),
    {
        let mut effects = effects;
        if self.matrices.len() > 0 {
            let transfer = self.matrices.remove(0);
            self.current = Some(job);
            self.phase = LoaderPhase::Copying;
            Step { effects, request: LoaderRequest::CopyToMemory(transfer) }
        } else if self.booted < self.dpus.len() {
            self.current = Some(job);
            self.phase = LoaderPhase::Booting;
            Step { effects, request: LoaderRequest::Boot(self.dpus[self.booted]) }
        } else {
            let ghost before = effects@;
            effects.push(Effect::Record(Event::GroupLoadingEnd(job.0.id)));
            effects.push(Effect::Job(job));
            self.clear();
            self.phase = LoaderPhase::AwaitingTransfer;
            proof {
                assert(effects@.subrange(0, before.len() as int) =~= before);
            }
            Step { effects, request: LoaderRequest::NextTransfer }
        }
    }

    /// The length of the longest of the `lists`.
    fn width(lists: &Vec<Vec<InputMemoryTransfer>>) -> (w: usize)
        ensures
            w == widest(lists@),
    {
        let mut w: usize = 0;
        let mut p: usize = 0;
        proof {
            assert(lists@.subrange(0, 0) =~= Seq::<Vec<InputMemoryTransfer>>::empty());
        }
        while p < lists.len()
            invariant
                p <= lists@.len(),
                w == widest(lists@.subrange(0, p as int)),
            decreases lists.len() - p,
        {
            proof {
                assert(lists@.subrange(0, p + 1).drop_last() =~= lists@.subrange(0, p as int));
            }
            if lists[p].len() > w {
                w = lists[p].len();
            }
            p += 1;
        }
        proof {
            assert(lists@.subrange(0, p as int) =~= lists@);
        }
        w
    }

    /// The transfer matrices of a batch.
    fn build(dpus: &Vec<DpuId>, inputs: Vec<Vec<InputMemoryTransfer>>) -> (matrices: Vec<
        MemoryTransfer,
    >)
        ensures
            views(matrices@) =~= matrices_of(dpus@, inputs@),
    {
        let w = Self::width(&inputs);
        let mut matrices: Vec<MemoryTransfer> = Vec::new();
        let mut j: usize = 0;
        while j < w
            invariant
                j <= w,
                matrices@.len() == j,
                forall|k: int|
                    0 <= k < j ==> (#[trigger] matrices@[k])@ == matrix(dpus@, inputs@, k, 0),
            decreases w - j,
        {
            matrices.push(MemoryTransfer::default());
            j += 1;
        }
        let ghost all = inputs@;
        let mut inputs = inputs;
        let total = inputs.len();
        let mut p: usize = 0;
        while inputs.len() > 0
            invariant
                all.len() == total,
                w == widest(all),
                p <= all.len(),
                inputs@ =~= all.subrange(p as int, all.len() as int),
                matrices@.len() == w,
                forall|k: int|
                    0 <= k < w ==> (#[trigger] matrices@[k])@ == matrix(dpus@, all, k, p as int),
            decreases inputs.len(),
        {
            let mut regions = inputs.remove(0);
            let ghost list = regions@;
            assert(list == all[p as int]@);
            proof {
                lemma_widest_bounds(all, p as int);
            }
            if p < dpus.len() {
                let dpu = dpus[p];
                let mut j: usize = 0;
                while regions.len() > 0
                    invariant
                        list.len() <= w,
                        list == all[p as int]@,
                        p < dpus@.len(),
                        p < all.len(),
                        dpu == dpus@[p as int],
                        j <= list.len(),
                        regions@ =~= list.subrange(j as int, list.len() as int),
                        matrices@.len() == w,
                        forall|k: int|
                            0 <= k < w ==> (#[trigger] matrices@[k])@ == matrix(
                                dpus@,
                                all,
                                k,
                                if k < j {
                                    p + 1
                                } else {
                                    p as int
                                },
                            ),
                    decreases regions.len(),
                {
                    let region = regions.remove(0);
                    matrices[j].add_in_place(
                        dpu,
                        region.offset,
                        MemoryTransferEntryReference(region.content),
                    );
                    j += 1;
                }
            }
            p += 1;
        }
        matrices
    }

    fn begin(&mut self, transfer: GroupTransfer<K>) -> (step: Step<K, LoaderRequest>)
        ensures
            Self::begins(*old(self), transfer, *final(self), step),
    {
        let (group, inputs, outputs) = transfer;
        let effects: Vec<Effect<K>> = vec![Effect::Record(Event::GroupLoadingBegin(group.id))];
        if inputs.len() == 0 {
            self.dpus = Vec::new();
        } else {
            self.dpus = group.active_dpus();
        }
        self.matrices = Self::build(&self.dpus, inputs);
        self.booted = 0;
        self.advance((group, outputs), effects)
    }

    /// Resumes the loader with the answer to its last request.
    pub fn resume(&mut self, reply: LoaderReply<K>) -> (step: Step<K, LoaderRequest>)
        ensures
            Self::resumes(*old(self), reply, *final(self), step),
    {
        match (self.phase, reply) {
            (LoaderPhase::AwaitingTransfer, LoaderReply::Transfer(Some(transfer))) => self.begin(
                transfer,
            ),
            (LoaderPhase::Copying, LoaderReply::Done(Ok(_))) => {
                match self.current.take() {
                    Some(job) => self.advance(job, Vec::new()),
                    None => self.stop(),
                }
            },
            (LoaderPhase::Booting, LoaderReply::Done(Ok(_))) => {
                if self.booted < self.dpus.len() {
                    match self.current.take() {
                        Some(job) => {
                            self.booted += 1;
                            self.advance(job, Vec::new())
                        },
                        None => self.stop(),
                    }
                } else {
                    self.stop()
                }
            },
            (LoaderPhase::Copying, LoaderReply::Done(Err(err))) => self.abandon(err),
            (LoaderPhase::Booting, LoaderReply::Done(Err(err))) => self.abandon(err),
            _ => self.stop(),
        }
    }

    fn abandon(&mut self, err: ClusterError) -> (step: Step<K, LoaderRequest>)
        ensures
            old(self).current is Some ==> Self::abandons(*old(self), err, *final(self), step),
            old(self).current is None ==> Self::stops(*old(self), *final(self), step),
    {
        match self.current.take() {
            Some(job) => {
                self.clear();
                self.phase = LoaderPhase::AwaitingTransfer;
                Step {
                    effects: vec![
                        Effect::Record(Event::GroupLoadingEnd(job.0.id)),
                        Effect::Output(Err(PipelineError::InfrastructureError(err))),
                    ],
                    request: LoaderRequest::NextTransfer,
                }
            },
            None => self.stop(),
        }
    }
}

/// No list is longer than the longest.
pub proof fn lemma_widest_bounds(lists: Seq<Vec<InputMemoryTransfer>>, p: int)
    requires
        0 <= p < lists.len(),
    ensures
        lists[p]@.len() <= widest(lists),
    decreases lists.len(),
{
    if p < lists.len() - 1 {
        lemma_widest_bounds(lists.drop_last(), p);
    }
}

impl<K> InputLoader<K> {
    /// A batch is at hand exactly while it is being written or booted, and
    /// while it is booted a DPU is left to boot.
    pub open spec fn wf(self) -> bool {
        match self.phase {
            LoaderPhase::Copying => self.current is Some,
            LoaderPhase::Booting => self.current is Some && self.booted < self.dpus@.len()
                && self.matrices@.len() == 0,
            _ => self.current is None,
        }
    }

    /// Whether `reply` answers what a loader in `phase` has asked for.
    pub open spec fn expects(phase: LoaderPhase, reply: LoaderReply<K>) -> bool {
        match (phase, reply) {
            (LoaderPhase::AwaitingTransfer, LoaderReply::Transfer(_)) => true,
            (LoaderPhase::Copying, LoaderReply::Done(_)) => true,
            (LoaderPhase::Booting, LoaderReply::Done(_)) => true,
            _ => false,
        }
    }

    /// Number of groups in the loader's hands.
    pub open spec fn held_groups(self) -> nat {
        if self.current is Some {
            1
        } else {
            0
        }
    }

    /// Number of work items in the loader's hands.
    pub open spec fn held_items(self) -> nat {
        match self.current {
            Some(job) => job.1@.len(),
            None => 0,
        }
    }

    /// Number of groups that come with `reply`.
    pub open spec fn groups_with(reply: LoaderReply<K>) -> nat {
        if reply matches LoaderReply::Transfer(Some(_)) {
            1
        } else {
            0
        }
    }

    /// Number of work items that come with `reply`.
    pub open spec fn items_with(reply: LoaderReply<K>) -> nat {
        match reply {
            LoaderReply::Transfer(Some(transfer)) => transfer.2@.len(),
            _ => 0,
        }
    }

    /// Whether `reply` reports a failed call of the driver.
    pub open spec fn fails_with(reply: LoaderReply<K>) -> bool {
        reply matches LoaderReply::Done(Err(_))
    }

    /// The job that the loader works on once it has `reply`: the batch that
    /// comes with it, or the one at hand.
    pub open spec fn job_with(pre: Self, reply: LoaderReply<K>) -> Option<GroupJob<K>> {
        match reply {
            LoaderReply::Transfer(Some(transfer)) => Some((transfer.0, transfer.2)),
            _ => pre.current,
        }
    }
}

/// A step of the loader keeps the loader well-formed. Unless a call of the
/// driver failed, it loses neither a group nor a work item and delivers
/// nothing to the caller; when a call failed, the group at hand is dropped
/// with its items and exactly one error is delivered. All it hands on are
/// jobs for the tracker.
pub proof fn lemma_loader_flow<K>(
    pre: InputLoader<K>,
    reply: LoaderReply<K>,
    post: InputLoader<K>,
    step: Step<K, LoaderRequest>,
)
    requires
        pre.wf(),
        InputLoader::<K>::expects(pre.phase, reply),
        InputLoader::resumes(pre, reply, post, step),
    ensures
        post.wf(),
        transfers_in(step.effects@).len() == 0,
        finished_in(step.effects@).len() == 0,
        releases_in(step.effects@).len() == 0,
        post.current is Some ==> post.current == InputLoader::job_with(pre, reply),
        forall|i: int|
            0 <= i < jobs_in(step.effects@).len() ==> Some(#[trigger] jobs_in(step.effects@)[i])
                == InputLoader::job_with(pre, reply),
        !InputLoader::<K>::fails_with(reply) ==> {
            &&& post.held_groups() + jobs_in(step.effects@).len() == pre.held_groups()
                + InputLoader::<K>::groups_with(reply)
            &&& post.held_items() + items_in_jobs(jobs_in(step.effects@)) == pre.held_items()
                + InputLoader::<K>::items_with(reply)
            &&& outputs_in(step.effects@).len() == 0
        },
        InputLoader::<K>::fails_with(reply) ==> {
            &&& post.held_groups() == 0
            &&& pre.held_groups() == 1
            &&& jobs_in(step.effects@).len() == 0
            &&& outputs_in(step.effects@).len() == 1
            &&& outputs_in(step.effects@)[0] is Err
        },
{
    let effects = step.effects@;
    if InputLoader::<K>::fails_with(reply) {
        lemma_project_none(effects, |e: Effect<K>| transfer_of(e));
        lemma_project_none(effects, |e: Effect<K>| job_of(e));
        lemma_project_none(effects, |e: Effect<K>| finished_of(e));
        lemma_project_none(effects, |e: Effect<K>| release_of(e));
        lemma_project_last(effects, |e: Effect<K>| output_of(e));
    } else if post.phase == LoaderPhase::AwaitingTransfer {
        // The job has been handed on as the last effect.
        match (pre.phase, reply) {
            (LoaderPhase::AwaitingTransfer, LoaderReply::Transfer(Some(transfer))) => {
                assert(effects[0] == effects.subrange(0, 1)[0]);
            },
            _ => {},
        }
        lemma_project_none(effects, |e: Effect<K>| transfer_of(e));
        lemma_project_none(effects, |e: Effect<K>| finished_of(e));
        lemma_project_none(effects, |e: Effect<K>| release_of(e));
        lemma_project_none(effects, |e: Effect<K>| output_of(e));
        lemma_project_last(effects, |e: Effect<K>| job_of(e));
        lemma_items_in_one_job(jobs_in(effects));
    } else if post.phase == LoaderPhase::Stopped {
        lemma_reports_only(effects);
    } else {
        match (pre.phase, reply) {
            (LoaderPhase::AwaitingTransfer, LoaderReply::Transfer(Some(transfer))) => {
                lemma_reports_only(effects);
            },
            _ => {
                lemma_reports_only(effects);
            },
        }
    }
}

impl<K> InputLoader<K> {
    /// The group of the batch at hand, if there is one.
    pub open spec fn group_at_hand(self) -> Option<DpuGroup> {
        match self.current {
            Some(job) => Some(job.0),
            None => None,
        }
    }

    /// The group that comes with `reply`, if any.
    pub open spec fn group_with(reply: LoaderReply<K>) -> Option<DpuGroup> {
        match reply {
            LoaderReply::Transfer(Some(transfer)) => Some(transfer.0),
            _ => None,
        }
    }

    /// The group that `reply` makes the loader drop, if it does.
    pub open spec fn dropped_with(pre: Self, reply: LoaderReply<K>) -> Option<DpuGroup> {
        if Self::fails_with(reply) {
            pre.group_at_hand()
        } else {
            None
        }
    }
}

/// A step of the loader moves groups and makes none: the group it holds
/// afterwards, the group of the job it hands on and the group it drops are
/// the group it held before and the group that came with the reply.
pub proof fn lemma_loader_groups<K>(
    pre: InputLoader<K>,
    reply: LoaderReply<K>,
    post: InputLoader<K>,
    step: Step<K, LoaderRequest>,
)
    requires
        pre.wf(),
        InputLoader::<K>::expects(pre.phase, reply),
        InputLoader::resumes(pre, reply, post, step),
    ensures
        id_of(post.group_at_hand()).add(ids_of_groups(groups_of_jobs(jobs_in(step.effects@)))).add(
            id_of(InputLoader::dropped_with(pre, reply)),
        ) == id_of(pre.group_at_hand()).add(id_of(InputLoader::<K>::group_with(reply))),
{
    let handed = groups_of_jobs(jobs_in(step.effects@));
    let none = Seq::<DpuGroup>::empty();
    lemma_loader_flow(pre, reply, post, step);
    assert(ids_of_groups(none) == Multiset::<int>::empty());
    if handed.len() == 0 {
        assert(handed =~= none);
    } else {
        assert(Some(jobs_in(step.effects@)[0]) == InputLoader::job_with(pre, reply));
        lemma_ids_one(handed);
    }
    assert(id_of(post.group_at_hand()).add(ids_of_groups(handed)).add(
        id_of(InputLoader::dropped_with(pre, reply)),
    ) =~= id_of(pre.group_at_hand()).add(id_of(InputLoader::<K>::group_with(reply))));
}

} // verus!
