//! The tracker: it polls the groups that run a job and sorts them into those
//! that still run, those that have finished, and those that failed.

use crate::dpu::DpuId;
use crate::driver::merge;
use crate::driver::Mergeable;
use crate::driver::RunStatus;
use crate::driver::Status;
use crate::error::ClusterError;
use crate::pipeline::flow::finished_in;
use crate::pipeline::flow::groups_of_jobs;
use crate::pipeline::flow::id_of;
use crate::pipeline::flow::ids_of_groups;
use crate::pipeline::flow::lemma_ids_one;
use crate::pipeline::flow::lemma_ids_remove;
use crate::pipeline::flow::finished_of;
use crate::pipeline::flow::items_in_jobs;
use crate::pipeline::flow::job_of;
use crate::pipeline::flow::jobs_in;
use crate::pipeline::flow::lemma_items_in_jobs_concat;
use crate::pipeline::flow::lemma_items_in_jobs_remove;
use crate::pipeline::flow::lemma_items_in_one_job;
use crate::pipeline::flow::lemma_project_all;
use crate::pipeline::flow::lemma_project_last;
use crate::pipeline::flow::lemma_project_none;
use crate::pipeline::flow::lemma_project_skip;
use crate::pipeline::flow::lemma_reports_only;
use crate::pipeline::flow::output_of;
use crate::pipeline::flow::outputs_in;
use crate::pipeline::flow::release_of;
use crate::pipeline::flow::releases_in;
use crate::pipeline::flow::transfer_of;
use crate::pipeline::flow::transfers_in;
use crate::pipeline::monitoring::Event;
use crate::pipeline::monitoring::EventMonitor;
use crate::pipeline::monitoring::Process;
use crate::pipeline::stages::DpuGroup;
use crate::pipeline::stages::Effect;
use crate::pipeline::stages::GroupJob;
use crate::pipeline::stages::Step;
use crate::pipeline::PipelineError;
use vstd::multiset::Multiset;
use vstd::prelude::*;

verus! {

/// What the tracker waits for.
#[derive(Clone, Copy, Debug, PartialEq, Eq, Structural)]
pub enum TrackerRequest {
    /// A job handed over by the loader, if one is at hand.
    NextJob,
    /// What this DPU is doing.
    Status(DpuId),
    /// The end of a pause of this many milliseconds.
    Sleep(u64),
    /// Nothing more: the tracker has stopped.
    Exit,
}

/// The answer to a request of the tracker.
#[derive(Debug)]
pub enum TrackerReply<K> {
    /// Answers `NextJob`: a job, or `None` when none is at hand.
    Job(Option<GroupJob<K>>),
    /// Answers `NextJob` once the loader has stopped and no job is left.
    Closed,
    /// Answers `Status`.
    Status(Result<RunStatus, ClusterError>),
    /// Answers `Sleep`.
    Woken,
    /// An effect could not be performed: whoever should take it is gone.
    Broken,
}

/// Where the tracker stands between two steps.
#[derive(Clone, Copy, Debug, PartialEq, Eq, Structural)]
pub enum TrackerPhase {
    /// Not started yet.
    Created,
    /// Taking in the jobs at hand.
    Collecting,
    /// Asking the DPUs of one job what they are doing.
    Polling,
    /// Pausing between two rounds.
    Sleeping,
    /// Stopped for good.
    Stopped,
}

/// The tracker.
#[derive(Debug)]
pub struct ExecutionTracker<K> {
    pub monitoring: EventMonitor,
    pub phase: TrackerPhase,
    /// The pause between two rounds of polling, in milliseconds.
    pub sleep: Option<u64>,
    /// The jobs that run, oldest first.
    pub pending: Vec<GroupJob<K>>,
    /// Index in `pending` of the job that is being polled.
    pub cursor: usize,
    /// The active DPUs of that job.
    pub dpus: Vec<DpuId>,
    /// How many of them have answered.
    pub polled: usize,
    /// What their answers merge into.
    pub status: RunStatus,
}

/// The effects that report the faulting DPUs `faults` of group `id`: the end
/// of the tracking, then one error per DPU.
pub open spec fn reports_faults<K>(effects: Seq<Effect<K>>, id: u32, faults: Seq<DpuId>) -> bool {
    &&& effects.len() == faults.len() + 1
    &&& effects[0] == Effect::<K>::Record(Event::JobExecutionTrackingEnd(id))
    &&& forall|i: int|
        0 <= i < faults.len() ==> (#[trigger] effects[i + 1]) == Effect::<K>::Output(
            Err(PipelineError::ExecutionError(faults[i])),
        )
}

impl<K> ExecutionTracker<K> {
    pub fn new(sleep: Option<u64>, monitoring: EventMonitor) -> (tracker: ExecutionTracker<K>)
        ensures
            tracker.monitoring == (EventMonitor { process: Process::Tracker, policy: monitoring.policy }),
            tracker.phase == TrackerPhase::Created,
            tracker.sleep == sleep,
            tracker.pending@.len() == 0,
            tracker.cursor == 0,
            tracker.dpus@.len() == 0,
            tracker.polled == 0,
            tracker.status@ == Status::Idle,
    {
        let mut monitoring = monitoring;
        monitoring.set_process(Process::Tracker);
        ExecutionTracker {
            monitoring,
            phase: TrackerPhase::Created,
            sleep,
            pending: Vec::new(),
            cursor: 0,
            dpus: Vec::new(),
            polled: 0,
            status: RunStatus::Idle,
        }
    }

    /// Everything but the phase stays as it is.
    pub open spec fn keeps(pre: Self, post: Self) -> bool {
        &&& post.monitoring == pre.monitoring
        &&& post.sleep == pre.sleep
        &&& post.pending == pre.pending
        &&& post.cursor == pre.cursor
        &&& post.dpus == pre.dpus
        &&& post.polled == pre.polled
        &&& post.status == pre.status
    }

    /// The tracker stops: it reports the end of its process, if it was
    /// running.
    pub open spec fn stops(pre: Self, post: Self, step: Step<K, TrackerRequest>) -> bool {
        &&& Self::keeps(pre, post)
        &&& post.phase == TrackerPhase::Stopped
        &&& step.request == TrackerRequest::Exit
        &&& step.effects@ =~= if pre.phase == TrackerPhase::Stopped || pre.phase == TrackerPhase::Created {
            Seq::<Effect<K>>::empty()
        } else {
            seq![Effect::Record(Event::ProcessEnd)]
        }
    }

    /// The tracker turns to the job at `cursor` of `pending`, after the
    /// effects `before`: it asks the job's first active DPU for its status.
    /// Past the last job the round is over: the tracker pauses, if it was
    /// given a pause, and then takes in the jobs at hand.
    pub open spec fn polls(
        pre: Self,
        pending: Seq<GroupJob<K>>,
        cursor: int,
        before: Seq<Effect<K>>,
        post: Self,
        step: Step<K, TrackerRequest>,
    ) -> bool {
        &&& post.monitoring == pre.monitoring
        &&& post.sleep == pre.sleep
        &&& post.pending@ =~= pending
        &&& post.polled == 0
        &&& post.status@ == Status::Idle
        &&& if cursor >= pending.len() {
            &&& post.cursor == 0
            &&& post.dpus@.len() == 0
            &&& step.effects@ =~= before
            &&& match pre.sleep {
                Some(pause) => post.phase == TrackerPhase::Sleeping && step.request
                    == TrackerRequest::Sleep(pause),
                None => post.phase == TrackerPhase::Collecting && step.request
                    == TrackerRequest::NextJob,
            }
        } else {
            &&& post.cursor == cursor
            &&& post.dpus@ =~= pending[cursor].0.active()
            &&& if pending[cursor].0.active().len() > 0 {
                &&& post.phase == TrackerPhase::Polling
                &&& step.effects@ =~= before
                &&& step.request == TrackerRequest::Status(pending[cursor].0.active()[0])
            } else {
                &&& post.phase == TrackerPhase::Stopped
                &&& step.effects@ =~= before.push(Effect::Record(Event::ProcessEnd))
                &&& step.request == TrackerRequest::Exit
            }
        }
    }

    /// A job comes in. One without an active DPU has nothing to wait for and
    /// goes on to the fetcher at once; any other joins the running jobs.
    pub open spec fn collects(pre: Self, job: GroupJob<K>, post: Self, step: Step<K, TrackerRequest>) -> bool {
        &&& post.monitoring == pre.monitoring
        &&& post.sleep == pre.sleep
        &&& post.cursor == pre.cursor
        &&& post.dpus == pre.dpus
        &&& post.polled == pre.polled
        &&& post.status == pre.status
        &&& post.phase == TrackerPhase::Collecting
        &&& step.request == TrackerRequest::NextJob
        &&& if job.0.active().len() > 0 {
            &&& post.pending@ =~= pre.pending@.push(job)
            &&& step.effects@ =~= seq![Effect::Record(Event::JobExecutionTrackingBegin(job.0.id))]
        } else {
            &&& post.pending == pre.pending
            &&& step.effects@ =~= seq![
                Effect::Record(Event::JobExecutionTrackingBegin(job.0.id)),
                Effect::Record(Event::JobExecutionTrackingEnd(job.0.id)),
                Effect::Finished(job),
            ]
        }
    }

    /// The job at the cursor is settled with the merged status `status`: a
    /// running job stays and the tracker turns to the next one; a finished
    /// job goes on to the fetcher; a job with faults is dropped and each
    /// faulting DPU reported.
    pub open spec fn settles(pre: Self, status: Status, post: Self, step: Step<K, TrackerRequest>) -> bool {
        let job = pre.pending@[pre.cursor as int];
        match status {
            Status::Running => Self::polls(pre, pre.pending@, pre.cursor + 1, Seq::empty(), post, step),
            Status::Idle => Self::polls(
                pre,
                pre.pending@.remove(pre.cursor as int),
                pre.cursor as int,
                seq![
                    Effect::Record(Event::JobExecutionTrackingEnd(job.0.id)),
                    Effect::Finished(job),
                ],
                post,
                step,
            ),
            Status::Fault(faults) => {
                &&& step.effects@.len() > faults.len()
                &&& reports_faults(step.effects@.subrange(0, faults.len() as int + 1), job.0.id, faults)
                &&& Self::polls(
                    pre,
                    pre.pending@.remove(pre.cursor as int),
                    pre.cursor as int,
                    step.effects@.subrange(0, faults.len() as int + 1),
                    post,
                    step,
                )
            },
        }
    }

    /// A DPU of the job at the cursor has answered.
    pub open spec fn hears(
        pre: Self,
        answer: Result<RunStatus, ClusterError>,
        post: Self,
        step: Step<K, TrackerRequest>,
    ) -> bool {
        if pre.cursor < pre.pending@.len() && pre.polled < pre.dpus@.len() {
            match answer {
                Ok(status) => {
                    let merged = merge(pre.status@, status@);
                    if pre.polled + 1 < pre.dpus@.len() {
                        &&& post.monitoring == pre.monitoring
                        &&& post.sleep == pre.sleep
                        &&& post.pending == pre.pending
                        &&& post.cursor == pre.cursor
                        &&& post.dpus == pre.dpus
                        &&& post.polled == pre.polled + 1
                        &&& post.status@ == merged
                        &&& post.phase == TrackerPhase::Polling
                        &&& step.effects@.len() == 0
                        &&& step.request == TrackerRequest::Status(pre.dpus@[pre.polled + 1])
                    } else {
                        Self::settles(pre, merged, post, step)
                    }
                },
                Err(err) => Self::polls(
                    pre,
                    pre.pending@.remove(pre.cursor as int),
                    pre.cursor as int,
                    seq![
                        Effect::Record(
                            Event::JobExecutionTrackingEnd(pre.pending@[pre.cursor as int].0.id),
                        ),
                        Effect::Output(Err(PipelineError::InfrastructureError(err))),
                    ],
                    post,
                    step,
                ),
            }
        } else {
            Self::stops(pre, post, step)
        }
    }

    /// How the tracker goes from `pre` to `post` when it is resumed with
    /// `reply`, and what it asks for in `step`.
    pub open spec fn resumes(pre: Self, reply: TrackerReply<K>, post: Self, step: Step<K, TrackerRequest>) -> bool {
        match (pre.phase, reply) {
            (TrackerPhase::Collecting, TrackerReply::Job(Some(job))) => Self::collects(
                pre,
                job,
                post,
                step,
            ),
            (TrackerPhase::Collecting, TrackerReply::Job(None)) => Self::polls(
                pre,
                pre.pending@,
                0,
                Seq::empty(),
                post,
                step,
            ),
            (TrackerPhase::Collecting, TrackerReply::Closed) => if pre.pending@.len() == 0 {
                Self::stops(pre, post, step)
            } else {
                Self::polls(pre, pre.pending@, 0, Seq::empty(), post, step)
            },
            (TrackerPhase::Polling, TrackerReply::Status(answer)) => Self::hears(
                pre,
                answer,
                post,
                step,
            ),
            (TrackerPhase::Sleeping, TrackerReply::Woken) => {
                &&& Self::keeps(pre, post)
                &&& post.phase == TrackerPhase::Collecting
                &&& step.effects@.len() == 0
                &&& step.request == TrackerRequest::NextJob
            },
            _ => Self::stops(pre, post, step),
        }
    }

    /// Starts the tracker: it reports the beginning of its process and asks
    /// for the jobs at hand. A tracker that was started before stops.
    pub fn start(&mut self) -> (step: Step<K, TrackerRequest>)
        ensures
            old(self).phase == TrackerPhase::Created ==> {
                &&& Self::keeps(*old(self), *final(self))
                &&& final(self).phase == TrackerPhase::Collecting
                &&& step.effects@ == seq![Effect::<K>::Record(Event::ProcessBegin)]
                &&& step.request == TrackerRequest::NextJob
            },
            old(self).phase != TrackerPhase::Created ==> Self::stops(*old(self), *final(self), step),
    {
        match self.phase {
            TrackerPhase::Created => {
                self.phase = TrackerPhase::Collecting;
                Step {
                    effects: vec![Effect::Record(Event::ProcessBegin)],
                    request: TrackerRequest::NextJob,
                }
            },
            _ => self.stop(),
        }
    }

    fn stop(&mut self) -> (step: Step<K, TrackerRequest>)
        ensures
            Self::stops(*old(self), *final(self), step),
    {
        let mut effects: Vec<Effect<K>> = Vec::new();
        match self.phase {
            TrackerPhase::Stopped | TrackerPhase::Created => {},
            _ => {
                effects.push(Effect::Record(Event::ProcessEnd));
            },
        }
        self.phase = TrackerPhase::Stopped;
        Step { effects, request: TrackerRequest::Exit }
    }

    /// Turns to the job at `cursor`.
    fn poll(&mut self, cursor: usize, effects: Vec<Effect<K>>) -> (step: Step<K, TrackerRequest>)
        ensures
            Self::polls(*old(self), old(self).pending@, cursor as int, effects@, *final(self), step),
    {
        let mut effects = effects;
        self.polled = 0;
        self.status = RunStatus::Idle;
        if cursor >= self.pending.len() {
            self.cursor = 0;
            self.dpus = Vec::new();
            match self.sleep {
                Some(pause) => {
                    self.phase = TrackerPhase::Sleeping;
                    Step { effects, request: TrackerRequest::Sleep(pause) }
                },
                None => {
                    self.phase = TrackerPhase::Collecting;
                    Step { effects, request: TrackerRequest::NextJob }
                },
            }
        } else {
            self.cursor = cursor;
            self.dpus = self.pending[cursor].0.active_dpus();
            if self.dpus.len() > 0 {
                self.phase = TrackerPhase::Polling;
                Step { effects, request: TrackerRequest::Status(self.dpus[0]) }
            } else {
                self.phase = TrackerPhase::Stopped;
                effects.push(Effect::Record(Event::ProcessEnd));
                Step { effects, request: TrackerRequest::Exit }
            }
        }
    }

    fn collect(&mut self, job: GroupJob<K>) -> (step: Step<K, TrackerRequest>)
        ensures
            Self::collects(*old(self), job, *final(self), step),
    {
        let id = job.0.id;
        self.phase = TrackerPhase::Collecting;
        if job.0.active_dpus().len() > 0 {
            self.pending.push(job);
            Step {
                effects: vec![Effect::Record(Event::JobExecutionTrackingBegin(id))],
                request: TrackerRequest::NextJob,
            }
        } else {
            Step {
                effects: vec![
                    Effect::Record(Event::JobExecutionTrackingBegin(id)),
                    Effect::Record(Event::JobExecutionTrackingEnd(id)),
                    Effect::Finished(job),
                ],
                request: TrackerRequest::NextJob,
            }
        }
    }

    /// Settles the job at the cursor with what its DPUs answered.
    fn settle(&mut self) -> (step: Step<K, TrackerRequest>)
        requires
            old(self).cursor < old(self).pending@.len(),
        ensures
            Self::settles(*old(self), old(self).status@, *final(self), step),
    {
        let mut status = RunStatus::Idle;
        core::mem::swap(&mut status, &mut self.status);
        match status {
            RunStatus::Running => {
                let jobs = self.pending.len();
                let next = self.cursor + 1;
                self.poll(next, Vec::new())
            },
            RunStatus::Idle => {
                let job = self.pending.remove(self.cursor);
                let effects: Vec<Effect<K>> = vec![
                    Effect::Record(Event::JobExecutionTrackingEnd(job.0.id)),
                    Effect::Finished(job),
                ];
                let cursor = self.cursor;
                self.poll(cursor, effects)
            },
            RunStatus::Fault(faults) => {
                let job = self.pending.remove(self.cursor);
                let mut effects: Vec<Effect<K>> = vec![
                    Effect::Record(Event::JobExecutionTrackingEnd(job.0.id)),
                ];
                let mut i: usize = 0;
                while i < faults.len()
                    invariant
                        i <= faults@.len(),
                        effects@.len() == i + 1,
                        effects@[0] == Effect::<K>::Record(Event::JobExecutionTrackingEnd(job.0.id)),
                        forall|j: int|
                            0 <= j < i ==> (#[trigger] effects@[j + 1]) == Effect::<K>::Output(
                                Err(PipelineError::ExecutionError(faults@[j])),
                            ),
                    decreases faults.len() - i,
                {
                    effects.push(Effect::Output(Err(PipelineError::ExecutionError(faults[i]))));
                    i += 1;
                }
                let ghost before = effects@;
                let cursor = self.cursor;
                let step = self.poll(cursor, effects);
                proof {
                    assert(step.effects@.subrange(0, faults@.len() as int + 1) =~= before);
                }
                step
            },
        }
    }

    fn hear(&mut self, answer: Result<RunStatus, ClusterError>) -> (step: Step<K, TrackerRequest>)
        ensures
            Self::hears(*old(self), answer, *final(self), step),
    {
        if self.cursor < self.pending.len() && self.polled < self.dpus.len() {
            match answer {
                Ok(status) => {
                    self.status = self.status.merge_with(&status);
                    if self.polled + 1 < self.dpus.len() {
                        self.polled += 1;
                        self.phase = TrackerPhase::Polling;
                        Step { effects: Vec::new(), request: TrackerRequest::Status(self.dpus[self.polled]) }
                    } else {
                        self.settle()
                    }
                },
                Err(err) => {
                    let job = self.pending.remove(self.cursor);
                    let effects: Vec<Effect<K>> = vec![
                        Effect::Record(Event::JobExecutionTrackingEnd(job.0.id)),
                        Effect::Output(Err(PipelineError::InfrastructureError(err))),
                    ];
                    let cursor = self.cursor;
                    self.poll(cursor, effects)
                },
            }
        } else {
            self.stop()
        }
    }

    /// Resumes the tracker with the answer to its last request.
    pub fn resume(&mut self, reply: TrackerReply<K>) -> (step: Step<K, TrackerRequest>)
        ensures
            Self::resumes(*old(self), reply, *final(self), step),
    {
        match (self.phase, reply) {
            (TrackerPhase::Collecting, TrackerReply::Job(Some(job))) => self.collect(job),
            (TrackerPhase::Collecting, TrackerReply::Job(None)) => self.poll(0, Vec::new()),
            (TrackerPhase::Collecting, TrackerReply::Closed) => {
                if self.pending.len() == 0 {
                    self.stop()
                } else {
                    self.poll(0, Vec::new())
                }
            },
            (TrackerPhase::Polling, TrackerReply::Status(answer)) => self.hear(answer),
            (TrackerPhase::Sleeping, TrackerReply::Woken) => {
                self.phase = TrackerPhase::Collecting;
                Step { effects: Vec::new(), request: TrackerRequest::NextJob }
            },
            _ => self.stop(),
        }
    }
}

impl<K> ExecutionTracker<K> {
    /// Every running job has an active DPU, and while a job is polled, it is
    /// one of the running jobs and one of its DPUs has yet to answer.
    pub open spec fn wf(self) -> bool {
        &&& forall|j: int|
            0 <= j < self.pending@.len() ==> (#[trigger] self.pending@[j]).0.active().len() > 0
        &&& self.phase == TrackerPhase::Polling ==> self.cursor < self.pending@.len()
            && self.polled < self.dpus@.len()
    }

    /// Whether `reply` answers what a tracker in `phase` has asked for.
    pub open spec fn expects(phase: TrackerPhase, reply: TrackerReply<K>) -> bool {
        match (phase, reply) {
            (TrackerPhase::Collecting, TrackerReply::Job(_)) => true,
            (TrackerPhase::Collecting, TrackerReply::Closed) => true,
            (TrackerPhase::Polling, TrackerReply::Status(_)) => true,
            (TrackerPhase::Sleeping, TrackerReply::Woken) => true,
            _ => false,
        }
    }

    /// Number of groups in the tracker's hands.
    pub open spec fn held_groups(self) -> nat {
        self.pending@.len()
    }

    /// Number of work items in the tracker's hands.
    pub open spec fn held_items(self) -> nat {
        items_in_jobs(self.pending@)
    }

    /// Number of groups that come with `reply`.
    pub open spec fn groups_with(reply: TrackerReply<K>) -> nat {
        if reply matches TrackerReply::Job(Some(_)) {
            1
        } else {
            0
        }
    }

    /// Number of work items that come with `reply`.
    pub open spec fn items_with(reply: TrackerReply<K>) -> nat {
        match reply {
            TrackerReply::Job(Some(job)) => job.1@.len(),
            _ => 0,
        }
    }

    /// Whether `job` is one of the jobs that the tracker has once it has
    /// `reply`: the job that comes with it, or one of the running jobs.
    pub open spec fn has_with(pre: Self, reply: TrackerReply<K>, job: GroupJob<K>) -> bool {
        ||| reply == TrackerReply::Job(Some(job))
        ||| exists|j: int| 0 <= j < pre.pending@.len() && #[trigger] pre.pending@[j] == job
    }

    /// Whether `reply` makes the tracker drop the job it polls: the driver
    /// failed, or the last answer is in and a DPU of the job is in fault.
    pub open spec fn drops_with(pre: Self, reply: TrackerReply<K>) -> bool {
        match reply {
            TrackerReply::Status(Err(_)) => true,
            TrackerReply::Status(Ok(status)) => pre.polled + 1 >= pre.dpus@.len() && merge(
                pre.status@,
                status@,
            ) is Fault,
            _ => false,
        }
    }
}

/// A step of the tracker keeps the tracker well-formed. Unless it drops the
/// job it polls, it loses neither a group nor a work item and delivers
/// nothing to the caller; when it drops the job, that job's group goes with
/// it and only errors are delivered. All it hands on are jobs for the
/// fetcher.
pub proof fn lemma_tracker_flow<K>(
    pre: ExecutionTracker<K>,
    reply: TrackerReply<K>,
    post: ExecutionTracker<K>,
    step: Step<K, TrackerRequest>,
)
    requires
        pre.wf(),
        ExecutionTracker::<K>::expects(pre.phase, reply),
        ExecutionTracker::resumes(pre, reply, post, step),
    ensures
        post.wf(),
        transfers_in(step.effects@).len() == 0,
        jobs_in(step.effects@).len() == 0,
        releases_in(step.effects@).len() == 0,
        forall|j: int|
            0 <= j < post.pending@.len() ==> ExecutionTracker::has_with(
                pre,
                reply,
                #[trigger] post.pending@[j],
            ),
        forall|i: int|
            0 <= i < finished_in(step.effects@).len() ==> ExecutionTracker::has_with(
                pre,
                reply,
                #[trigger] finished_in(step.effects@)[i],
            ),
        !ExecutionTracker::drops_with(pre, reply) ==> {
            &&& post.held_groups() + finished_in(step.effects@).len() == pre.held_groups()
                + ExecutionTracker::<K>::groups_with(reply)
            &&& post.held_items() + items_in_jobs(finished_in(step.effects@)) == pre.held_items()
                + ExecutionTracker::<K>::items_with(reply)
            &&& outputs_in(step.effects@).len() == 0
        },
        ExecutionTracker::drops_with(pre, reply) ==> {
            &&& post.held_groups() + 1 == pre.held_groups()
            &&& finished_in(step.effects@).len() == 0
            &&& forall|i: int|
                0 <= i < outputs_in(step.effects@).len() ==> (#[trigger] outputs_in(
                    step.effects@,
                )[i]) is Err
        },
{
    let effects = step.effects@;
    match (pre.phase, reply) {
        (TrackerPhase::Collecting, TrackerReply::Job(Some(job))) => {
            if job.0.active().len() > 0 {
                lemma_reports_only(effects);
                assert(pre.pending@.push(job) =~= pre.pending@ + seq![job]);
                lemma_items_in_jobs_concat(pre.pending@, seq![job]);
                lemma_items_in_one_job(seq![job]);
            } else {
                lemma_project_none(effects, |e: Effect<K>| transfer_of(e));
                lemma_project_none(effects, |e: Effect<K>| job_of(e));
                lemma_project_none(effects, |e: Effect<K>| release_of(e));
                lemma_project_none(effects, |e: Effect<K>| output_of(e));
                lemma_project_last(effects, |e: Effect<K>| finished_of(e));
                lemma_items_in_one_job(finished_in(effects));
            }
        },
        (TrackerPhase::Collecting, TrackerReply::Job(None)) => {
            lemma_reports_only(effects);
        },
        (TrackerPhase::Collecting, TrackerReply::Closed) => {
            lemma_reports_only(effects);
        },
        (TrackerPhase::Sleeping, TrackerReply::Woken) => {
            lemma_reports_only(effects);
        },
        (TrackerPhase::Polling, TrackerReply::Status(Err(err))) => {
            let rest = pre.pending@.remove(pre.cursor as int);
            assert forall|j: int| 0 <= j < rest.len() implies (#[trigger] rest[j]).0.active().len()
                > 0 by {
                if j < pre.cursor {
                    assert(rest[j] == pre.pending@[j]);
                } else {
                    assert(rest[j] == pre.pending@[j + 1]);
                }
            }
            lemma_project_none(effects, |e: Effect<K>| transfer_of(e));
            lemma_project_none(effects, |e: Effect<K>| job_of(e));
            lemma_project_none(effects, |e: Effect<K>| finished_of(e));
            lemma_project_none(effects, |e: Effect<K>| release_of(e));
            lemma_project_last(effects, |e: Effect<K>| output_of(e));
        },
        (TrackerPhase::Polling, TrackerReply::Status(Ok(status))) => {
            let merged = merge(pre.status@, status@);
            if pre.polled + 1 < pre.dpus@.len() {
                lemma_reports_only(effects);
            } else {
                let job = pre.pending@[pre.cursor as int];
                let rest = pre.pending@.remove(pre.cursor as int);
                assert forall|j: int| 0 <= j < rest.len() implies (#[trigger] rest[j]).0.active().len()
                    > 0 by {
                    if j < pre.cursor {
                        assert(rest[j] == pre.pending@[j]);
                    } else {
                        assert(rest[j] == pre.pending@[j + 1]);
                    }
                }
                match merged {
                    Status::Running => {
                        lemma_reports_only(effects);
                    },
                    Status::Idle => {
                        lemma_project_none(effects, |e: Effect<K>| transfer_of(e));
                        lemma_project_none(effects, |e: Effect<K>| job_of(e));
                        lemma_project_none(effects, |e: Effect<K>| release_of(e));
                        lemma_project_none(effects, |e: Effect<K>| output_of(e));
                        lemma_project_last(effects, |e: Effect<K>| finished_of(e));
                        lemma_items_in_one_job(finished_in(effects));
                        lemma_items_in_jobs_remove(pre.pending@, pre.cursor as int);
                    },
                    Status::Fault(faults) => {
                        let reports = effects.subrange(0, faults.len() as int + 1);
                        assert(effects =~= reports);
                        assert forall|i: int| 0 <= i < effects.len() implies !((
                        #[trigger] effects[i]) is Transfer) && !(effects[i] is Job) && !(effects[i] is Finished)
                            && !(effects[i] is Release) by {
                            if i > 0 {
                                assert(reports[(i - 1) + 1] == effects[i]);
                            }
                        }
                        lemma_project_none(effects, |e: Effect<K>| transfer_of(e));
                        lemma_project_none(effects, |e: Effect<K>| job_of(e));
                        lemma_project_none(effects, |e: Effect<K>| finished_of(e));
                        lemma_project_none(effects, |e: Effect<K>| release_of(e));
                        let tail = effects.subrange(1, effects.len() as int);
                        lemma_project_skip(effects, 1, |e: Effect<K>| output_of(e));
                        assert forall|i: int| 0 <= i < tail.len() implies output_of(
                            #[trigger] tail[i],
                        ) is Some && output_of(tail[i]).unwrap() is Err by {
                            assert(tail[i] == reports[i + 1]);
                        }
                        lemma_project_all(tail, |e: Effect<K>| output_of(e));
                    },
                }
            }
        },
        _ => {},
    }
}

impl<K> ExecutionTracker<K> {
    /// The group that comes with `reply`, if any.
    pub open spec fn group_with(reply: TrackerReply<K>) -> Option<DpuGroup> {
        match reply {
            TrackerReply::Job(Some(job)) => Some(job.0),
            _ => None,
        }
    }

    /// The group of the job that `reply` makes the tracker drop, if it does.
    pub open spec fn dropped_with(pre: Self, reply: TrackerReply<K>) -> Option<DpuGroup> {
        if Self::drops_with(pre, reply) {
            Some(pre.pending@[pre.cursor as int].0)
        } else {
            None
        }
    }
}

/// A step of the tracker moves groups and makes none: the groups of the jobs
/// it holds afterwards, of the jobs it hands on and of the job it drops are
/// the groups of the jobs it held before and of the job that came with the
/// reply.
pub proof fn lemma_tracker_groups<K>(
    pre: ExecutionTracker<K>,
    reply: TrackerReply<K>,
    post: ExecutionTracker<K>,
    step: Step<K, TrackerRequest>,
)
    requires
        pre.wf(),
        ExecutionTracker::<K>::expects(pre.phase, reply),
        ExecutionTracker::resumes(pre, reply, post, step),
    ensures
        ids_of_groups(groups_of_jobs(post.pending@)).add(
            ids_of_groups(groups_of_jobs(finished_in(step.effects@))),
        ).add(id_of(ExecutionTracker::dropped_with(pre, reply))) == ids_of_groups(
            groups_of_jobs(pre.pending@),
        ).add(id_of(ExecutionTracker::<K>::group_with(reply))),
{
    let effects = step.effects@;
    let before = groups_of_jobs(pre.pending@);
    let after = groups_of_jobs(post.pending@);
    let handed = groups_of_jobs(finished_in(effects));
    let none = Seq::<DpuGroup>::empty();
    lemma_tracker_flow(pre, reply, post, step);
    assert(ids_of_groups(none) == Multiset::<int>::empty());
    match (pre.phase, reply) {
        (TrackerPhase::Collecting, TrackerReply::Job(Some(job))) => {
            if job.0.active().len() > 0 {
                assert(after =~= before.push(job.0));
                assert(after.drop_last() =~= before);
                assert(handed =~= none);
                assert(ids_of_groups(after).add(ids_of_groups(handed)).add(
                    id_of(ExecutionTracker::dropped_with(pre, reply)),
                ) =~= ids_of_groups(before).add(id_of(Some(job.0))));
            } else {
                assert(after =~= before);
                lemma_project_last(effects, |e: Effect<K>| finished_of(e));
                assert(handed =~= seq![job.0]);
                lemma_ids_one(handed);
                assert(ids_of_groups(after).add(ids_of_groups(handed)).add(
                    id_of(ExecutionTracker::dropped_with(pre, reply)),
                ) =~= ids_of_groups(before).add(id_of(Some(job.0))));
            }
        },
        (TrackerPhase::Polling, TrackerReply::Status(answer)) => {
            let c = pre.cursor as int;
            let job = pre.pending@[c];
            let settled = match answer {
                Ok(status) => pre.polled + 1 >= pre.dpus@.len() && !(merge(pre.status@, status@) is Running),
                Err(_) => true,
            };
            if settled {
                assert(after =~= before.remove(c));
                lemma_ids_remove(before, c);
                if ExecutionTracker::drops_with(pre, reply) {
                    assert(handed =~= none);
                    assert(ids_of_groups(after).add(ids_of_groups(handed)).add(id_of(Some(job.0)))
                        =~= ids_of_groups(before).add(id_of(None)));
                } else {
                    lemma_project_last(effects, |e: Effect<K>| finished_of(e));
                    assert(handed =~= seq![job.0]);
                    lemma_ids_one(handed);
                    assert(ids_of_groups(after).add(ids_of_groups(handed)).add(id_of(None))
                        =~= ids_of_groups(before).add(id_of(None)));
                }
            } else {
                assert(after =~= before);
                assert(handed =~= none);
                assert(ids_of_groups(after).add(ids_of_groups(handed)).add(id_of(None))
                    =~= ids_of_groups(before).add(id_of(None)));
            }
        },
        _ => {
            assert(after =~= before);
            assert(handed =~= none);
            assert(ids_of_groups(after).add(ids_of_groups(handed)).add(id_of(None))
                =~= ids_of_groups(before).add(id_of(None)));
        },
    }
}

impl<K> ExecutionTracker<K> {
    /// Whether `reply` settles the job that the tracker polls: the driver
    /// failed, or the last answer is in and the job runs no more.
    pub open spec fn settles_with(pre: Self, reply: TrackerReply<K>) -> bool {
        match reply {
            TrackerReply::Status(Err(_)) => true,
            TrackerReply::Status(Ok(status)) => pre.polled + 1 >= pre.dpus@.len() && !(merge(
                pre.status@,
                status@,
            ) is Running),
            _ => false,
        }
    }
}

/// What a step of the tracker does to its jobs: a job that comes in joins at
/// the end, or goes on to the fetcher at once where its group has no active
/// DPU; a job that is settled leaves its place among the running jobs and
/// goes on to the fetcher unless it is dropped; no other job moves.
pub proof fn lemma_tracker_moves<K>(
    pre: ExecutionTracker<K>,
    reply: TrackerReply<K>,
    post: ExecutionTracker<K>,
    step: Step<K, TrackerRequest>,
)
    requires
        pre.wf(),
        ExecutionTracker::<K>::expects(pre.phase, reply),
        ExecutionTracker::resumes(pre, reply, post, step),
    ensures
        match reply {
            TrackerReply::Job(Some(job)) => if job.0.active().len() > 0 {
                post.pending@ == pre.pending@.push(job) && finished_in(step.effects@).len() == 0
            } else {
                post.pending@ == pre.pending@ && finished_in(step.effects@) == seq![job]
            },
            _ => if ExecutionTracker::settles_with(pre, reply) {
                &&& pre.phase == TrackerPhase::Polling
                &&& post.pending@ == pre.pending@.remove(pre.cursor as int)
                &&& finished_in(step.effects@) == if ExecutionTracker::drops_with(pre, reply) {
                    Seq::<GroupJob<K>>::empty()
                } else {
                    seq![pre.pending@[pre.cursor as int]]
                }
            } else {
                post.pending@ == pre.pending@ && finished_in(step.effects@).len() == 0
            },
        },
{
    let effects = step.effects@;
    lemma_tracker_flow(pre, reply, post, step);
    match (pre.phase, reply) {
        (TrackerPhase::Collecting, TrackerReply::Job(Some(job))) => {
            if job.0.active().len() == 0 {
                lemma_project_last(effects, |e: Effect<K>| finished_of(e));
                assert(finished_in(effects) =~= seq![job]);
            }
        },
        (TrackerPhase::Polling, TrackerReply::Status(answer)) => {
            if ExecutionTracker::settles_with(pre, reply) {
                if ExecutionTracker::drops_with(pre, reply) {
                    assert(finished_in(effects) =~= Seq::<GroupJob<K>>::empty());
                } else {
                    lemma_project_last(effects, |e: Effect<K>| finished_of(e));
                    assert(finished_in(effects) =~= seq![pre.pending@[pre.cursor as int]]);
                }
            }
        },
        _ => {},
    }
}

} // verus!
