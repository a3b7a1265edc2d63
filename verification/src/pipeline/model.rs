//! The pipeline as a whole: the mapper, the three stages behind it, and the
//! channels between them, and what holds of every run.
//!
//! A run is a sequence of moves. In each move one stage is resumed with an
//! answer that the channels allow, and the effects of its step are put onto
//! the channels. Stages run in any order; the laws below hold of every
//! interleaving.

use crate::pipeline::flow::finished_in;
use crate::pipeline::flow::groups_of_jobs;
use crate::pipeline::flow::groups_of_transfers;
use crate::pipeline::flow::id_of;
use crate::pipeline::flow::ids_of_groups;
use crate::pipeline::flow::lemma_ids_concat;
use crate::pipeline::flow::lemma_ids_remove;
use crate::pipeline::flow::items_in_jobs;
use crate::pipeline::flow::items_in_transfers;
use crate::pipeline::flow::jobs_in;
use crate::pipeline::flow::lemma_items_in_jobs_concat;
use crate::pipeline::flow::lemma_items_in_jobs_remove;
use crate::pipeline::flow::lemma_items_in_transfers_concat;
use crate::pipeline::flow::lemma_items_in_transfers_skip;
use crate::pipeline::flow::outputs_in;
use crate::pipeline::flow::releases_in;
use crate::pipeline::flow::transfers_in;
use crate::pipeline::monitoring::Event;
use crate::pipeline::stages::fetcher::lemma_fetcher_flow;
use crate::pipeline::stages::fetcher::lemma_fetcher_groups;
use crate::pipeline::stages::fetcher::FetcherPhase;
use crate::pipeline::stages::fetcher::FetcherReply;
use crate::pipeline::stages::fetcher::FetcherRequest;
use crate::pipeline::stages::fetcher::OutputFetcher;
use crate::pipeline::stages::initializer::initializer_next;
use crate::pipeline::stages::initializer::InitializerPhase;
use crate::pipeline::stages::initializer::InitializerReply;
use crate::pipeline::stages::initializer::InitializerRequest;
use crate::pipeline::stages::loader::lemma_loader_flow;
use crate::pipeline::stages::loader::lemma_loader_groups;
use crate::pipeline::stages::loader::InputLoader;
use crate::pipeline::stages::loader::LoaderPhase;
use crate::pipeline::stages::loader::LoaderReply;
use crate::pipeline::stages::loader::LoaderRequest;
use crate::pipeline::stages::mapper::lemma_simple_mapper_flow;
use crate::pipeline::stages::mapper::MapperPhase;
use crate::pipeline::stages::mapper::MapperRequest;
use crate::pipeline::stages::mapper::SimpleMapper;
use crate::pipeline::stages::mapper::SimpleReply;
use crate::pipeline::stages::persistent::GroupSlots;
use crate::pipeline::stages::persistent::PersistentMapper;
use crate::pipeline::stages::persistent::PersistentPhase;
use crate::pipeline::stages::persistent::PersistentReply;
use crate::pipeline::stages::persistent::PersistentRequest;
use crate::pipeline::stages::routing::away;
use crate::pipeline::stages::routing::away_ids;
use crate::pipeline::stages::routing::distinct_groups;
use crate::pipeline::stages::routing::lemma_away_ids_of;
use crate::pipeline::stages::routing::lemma_cancel_ids;
use crate::pipeline::stages::routing::distinct_entries;
use crate::pipeline::stages::routing::lemma_persistent_mapper_ids;
use crate::pipeline::stages::routing::batch_known;
use crate::pipeline::stages::routing::lemma_persistent_mapper_keys;
use crate::pipeline::stages::routing::table_known;
use crate::pipeline::stages::routing::taken_key;
use crate::pipeline::stages::routing::lemma_persistent_mapper_flow;
use crate::pipeline::stages::tracker::lemma_tracker_flow;
use crate::pipeline::stages::tracker::lemma_tracker_groups;
use crate::pipeline::stages::tracker::ExecutionTracker;
use crate::pipeline::stages::tracker::TrackerPhase;
use crate::pipeline::stages::tracker::TrackerReply;
use crate::pipeline::stages::tracker::TrackerRequest;
use crate::pipeline::stages::DpuGroup;
use crate::pipeline::stages::Effect;
use crate::pipeline::stages::GroupJob;
use crate::pipeline::stages::GroupTransfer;
use crate::pipeline::stages::Step;
use crate::pipeline::transfer::MemoryTransfers;
use crate::pipeline::transfer::OutputMemoryTransfer;
use crate::pipeline::OutputResult;
use std::hash::Hash;
use vstd::multiset::Multiset;
use vstd::prelude::*;

verus! {

/// The stages behind the mapper and the channels of the pipeline.
pub struct Downstream<K> {
    pub loader: InputLoader<K>,
    pub tracker: ExecutionTracker<K>,
    pub fetcher: OutputFetcher<K>,
    /// The batches on their way from the mapper to the loader, oldest first.
    pub transfers: Seq<GroupTransfer<K>>,
    /// The jobs on their way from the loader to the tracker.
    pub jobs: Seq<GroupJob<K>>,
    /// The jobs on their way from the tracker to the fetcher.
    pub finished: Seq<GroupJob<K>>,
    /// The groups on their way back from the fetcher to the mapper.
    pub free: Seq<DpuGroup>,
    /// The results delivered so far.
    pub outputs: Seq<OutputResult<K>>,
    /// Number of groups that were dropped after a failure.
    pub torn: nat,
}

/// A stage behind the mapper is resumed with an answer and takes a step.
pub enum Move<K> {
    Loader(LoaderReply<K>, Step<K, LoaderRequest>),
    Tracker(TrackerReply<K>, Step<K, TrackerRequest>),
    Fetcher(FetcherReply<K>, Step<K, FetcherRequest>),
}

/// The channel that a move takes its answer from.
pub enum Source {
    Outside,
    Transfers,
    Jobs,
    Finished,
    Free,
}

/// `rest` is `channel` after its oldest element has left, if `taken`, and
/// `added` have joined.
pub open spec fn passes<A>(channel: Seq<A>, taken: bool, added: Seq<A>, rest: Seq<A>) -> bool {
    rest =~= (if taken {
        channel.skip(1)
    } else {
        channel
    }) + added
}

/// Whether `key` is the key of one of the work items `taken`.
pub open spec fn known<K>(taken: Seq<MemoryTransfers<K>>, key: K) -> bool {
    exists|j: int| 0 <= j < taken.len() && (#[trigger] taken[j]).key == key
}

/// Whether every key in `batch` is the key of one of the work items `taken`.
pub open spec fn all_known<K>(taken: Seq<MemoryTransfers<K>>, batch: Seq<(K, OutputMemoryTransfer)>) -> bool {
    forall|i: int| 0 <= i < batch.len() ==> known(taken, (#[trigger] batch[i]).0)
}

impl<K> Downstream<K> {
    /// The channels of `post` are those of `self` after one element has left
    /// `source` and `effects` have been performed.
    pub open spec fn carries(self, source: Source, effects: Seq<Effect<K>>, post: Self) -> bool {
        &&& passes(self.transfers, source is Transfers, transfers_in(effects), post.transfers)
        &&& passes(self.jobs, source is Jobs, jobs_in(effects), post.jobs)
        &&& passes(self.finished, source is Finished, finished_in(effects), post.finished)
        &&& passes(self.free, source is Free, releases_in(effects), post.free)
        &&& post.outputs =~= self.outputs + outputs_in(effects)
    }

    /// Whether the loader can be given `reply` now: a batch only if it is the
    /// oldest on its way, and the end of the batches only once the mapper has
    /// stopped and none is on its way.
    pub open spec fn loader_ready(self, reply: LoaderReply<K>, mapper_stopped: bool) -> bool {
        &&& InputLoader::<K>::expects(self.loader.phase, reply)
        &&& match reply {
            LoaderReply::Transfer(Some(transfer)) => self.transfers.len() > 0 && transfer
                == self.transfers[0],
            LoaderReply::Transfer(None) => self.transfers.len() == 0 && mapper_stopped,
            _ => true,
        }
    }

    /// Whether the tracker can be given `reply` now.
    pub open spec fn tracker_ready(self, reply: TrackerReply<K>) -> bool {
        &&& ExecutionTracker::<K>::expects(self.tracker.phase, reply)
        &&& match reply {
            TrackerReply::Job(Some(job)) => self.jobs.len() > 0 && job == self.jobs[0],
            TrackerReply::Job(None) => self.jobs.len() == 0,
            TrackerReply::Closed => self.jobs.len() == 0 && self.loader.phase
                == LoaderPhase::Stopped,
            _ => true,
        }
    }

    /// Whether the fetcher can be given `reply` now.
    pub open spec fn fetcher_ready(self, reply: FetcherReply<K>) -> bool {
        &&& OutputFetcher::<K>::expects(self.fetcher.phase, reply)
        &&& match reply {
            FetcherReply::Job(Some(job)) => self.finished.len() > 0 && job == self.finished[0],
            FetcherReply::Job(None) => self.finished.len() == 0 && self.tracker.phase
                == TrackerPhase::Stopped,
            _ => true,
        }
    }

    /// Whether `mv` is a failure: a call of the driver failed, or a DPU is in
    /// fault.
    pub open spec fn fails(self, mv: Move<K>) -> bool {
        match mv {
            Move::Loader(reply, step) => InputLoader::<K>::fails_with(reply),
            Move::Tracker(reply, step) => ExecutionTracker::drops_with(self.tracker, reply),
            Move::Fetcher(reply, step) => OutputFetcher::<K>::fails_with(reply),
        }
    }

    /// Whether `mv` is a move behind the mapper that is a failure.
    pub open spec fn fails_behind<D>(self, mv: PersistentMove<K, D>) -> bool {
        match mv {
            PersistentMove::Mapper(reply, step) => false,
            PersistentMove::Behind(mv) => self.fails(mv),
        }
    }

    /// A stage behind the mapper moves.
    pub open spec fn next(self, mv: Move<K>, mapper_stopped: bool, post: Self) -> bool {
        &&& post.torn == self.torn + if self.fails(mv) {
            1nat
        } else {
            0nat
        }
        &&& match mv {
            Move::Loader(reply, step) => {
                &&& self.loader_ready(reply, mapper_stopped)
                &&& InputLoader::resumes(self.loader, reply, post.loader, step)
                &&& post.tracker == self.tracker
                &&& post.fetcher == self.fetcher
                &&& self.carries(
                    if reply matches LoaderReply::Transfer(Some(_)) {
                        Source::Transfers
                    } else {
                        Source::Outside
                    },
                    step.effects@,
                    post,
                )
            },
            Move::Tracker(reply, step) => {
                &&& self.tracker_ready(reply)
                &&& ExecutionTracker::resumes(self.tracker, reply, post.tracker, step)
                &&& post.loader == self.loader
                &&& post.fetcher == self.fetcher
                &&& self.carries(
                    if reply matches TrackerReply::Job(Some(_)) {
                        Source::Jobs
                    } else {
                        Source::Outside
                    },
                    step.effects@,
                    post,
                )
            },
            Move::Fetcher(reply, step) => {
                &&& self.fetcher_ready(reply)
                &&& OutputFetcher::resumes(self.fetcher, reply, post.fetcher, step)
                &&& post.loader == self.loader
                &&& post.tracker == self.tracker
                &&& self.carries(
                    if reply matches FetcherReply::Job(Some(_)) {
                        Source::Finished
                    } else {
                        Source::Outside
                    },
                    step.effects@,
                    post,
                )
            },
        }
    }

    /// The mapper moves: it takes the oldest group on its way back, if
    /// `takes_group`, and performs `effects`.
    pub open spec fn fed(self, takes_group: bool, effects: Seq<Effect<K>>, post: Self) -> bool {
        &&& post.loader == self.loader
        &&& post.tracker == self.tracker
        &&& post.fetcher == self.fetcher
        &&& post.torn == self.torn
        &&& self.carries(
            if takes_group {
                Source::Free
            } else {
                Source::Outside
            },
            effects,
            post,
        )
    }

    /// The stages right after they were started: nothing is on its way and
    /// nothing has been delivered.
    pub open spec fn initial(self) -> bool {
        &&& self.loader.phase == LoaderPhase::AwaitingTransfer
        &&& self.loader.current is None
        &&& self.tracker.phase == TrackerPhase::Collecting
        &&& self.tracker.pending@.len() == 0
        &&& self.fetcher.phase == FetcherPhase::AwaitingJob
        &&& self.fetcher.current is None
        &&& self.transfers.len() == 0
        &&& self.jobs.len() == 0
        &&& self.finished.len() == 0
        &&& self.free.len() == 0
        &&& self.outputs.len() == 0
        &&& self.torn == 0
    }

    /// Every stage is well-formed.
    pub open spec fn wf(self) -> bool {
        &&& self.loader.wf()
        &&& self.tracker.wf()
        &&& self.fetcher.wf()
    }

    /// Number of groups in flight: on their way to a stage behind the mapper,
    /// or in the hands of one.
    pub open spec fn groups_in_flight(self) -> nat {
        self.transfers.len() + self.loader.held_groups() + self.jobs.len()
            + self.tracker.held_groups() + self.finished.len() + self.fetcher.held_groups()
    }

    /// Number of groups that have left the mapper and are not back: in
    /// flight, on their way back, or dropped after a failure.
    pub open spec fn groups_out(self) -> nat {
        self.groups_in_flight() + self.free.len() + self.torn
    }

    /// Number of work items in flight behind the mapper: on their way to a
    /// stage, or in the hands of one.
    pub open spec fn items_in_flight(self) -> nat {
        items_in_transfers(self.transfers) + self.loader.held_items() + items_in_jobs(self.jobs)
            + self.tracker.held_items() + items_in_jobs(self.finished) + self.fetcher.held_items()
    }

    /// Nothing is on its way and no stage has anything at hand.
    pub open spec fn drained(self) -> bool {
        &&& self.transfers.len() == 0
        &&& self.loader.current is None
        &&& self.jobs.len() == 0
        &&& self.tracker.pending@.len() == 0
        &&& self.finished.len() == 0
        &&& self.fetcher.current is None
    }

    /// Every key behind the mapper, in flight or delivered, is the key of one
    /// of the work items `taken`.
    pub open spec fn keeps_keys(self, taken: Seq<MemoryTransfers<K>>) -> bool {
        &&& forall|t: int|
            0 <= t < self.transfers.len() ==> all_known(taken, (#[trigger] self.transfers[t]).2@)
        &&& self.loader.current is Some ==> all_known(taken, self.loader.current.unwrap().1@)
        &&& forall|j: int| 0 <= j < self.jobs.len() ==> all_known(taken, (#[trigger] self.jobs[j]).1@)
        &&& forall|j: int|
            0 <= j < self.tracker.pending@.len() ==> all_known(
                taken,
                (#[trigger] self.tracker.pending@[j]).1@,
            )
        &&& forall|j: int|
            0 <= j < self.finished.len() ==> all_known(taken, (#[trigger] self.finished[j]).1@)
        &&& self.fetcher.current is Some ==> all_known(taken, self.fetcher.current.unwrap().1@)
        &&& forall|i: int|
            0 <= i < self.outputs.len() ==> ((#[trigger] self.outputs[i]) matches Ok(result) ==> known(
                taken,
                result.0,
            ))
    }
}

/// What a channel holds after a move.
proof fn lemma_passes_len<A>(channel: Seq<A>, taken: bool, added: Seq<A>, rest: Seq<A>)
    requires
        passes(channel, taken, added, rest),
        taken ==> channel.len() > 0,
    ensures
        rest.len() + (if taken {
            1nat
        } else {
            0nat
        }) == channel.len() + added.len(),
{
}

/// The items that a channel of batches holds after a move.
proof fn lemma_passes_transfers<K>(
    channel: Seq<GroupTransfer<K>>,
    taken: bool,
    added: Seq<GroupTransfer<K>>,
    rest: Seq<GroupTransfer<K>>,
)
    requires
        passes(channel, taken, added, rest),
        taken ==> channel.len() > 0,
    ensures
        items_in_transfers(rest) + (if taken {
            channel[0].2@.len()
        } else {
            0nat
        }) == items_in_transfers(channel) + items_in_transfers(added),
{
    if taken {
        lemma_items_in_transfers_skip(channel);
        lemma_items_in_transfers_concat(channel.skip(1), added);
    } else {
        lemma_items_in_transfers_concat(channel, added);
    }
}

/// The items that a channel of jobs holds after a move.
proof fn lemma_passes_jobs<K>(
    channel: Seq<GroupJob<K>>,
    taken: bool,
    added: Seq<GroupJob<K>>,
    rest: Seq<GroupJob<K>>,
)
    requires
        passes(channel, taken, added, rest),
        taken ==> channel.len() > 0,
    ensures
        items_in_jobs(rest) + (if taken {
            channel[0].1@.len()
        } else {
            0nat
        }) == items_in_jobs(channel) + items_in_jobs(added),
{
    if taken {
        lemma_items_in_jobs_remove(channel, 0);
        assert(channel.remove(0) =~= channel.skip(1));
        lemma_items_in_jobs_concat(channel.skip(1), added);
    } else {
        lemma_items_in_jobs_concat(channel, added);
    }
}

/// A key that is known stays known when more items are taken in.
proof fn lemma_known_grows<K>(taken: Seq<MemoryTransfers<K>>, item: MemoryTransfers<K>, key: K)
    requires
        known(taken, key),
    ensures
        known(taken.push(item), key),
{
    let j = choose|j: int| 0 <= j < taken.len() && (#[trigger] taken[j]).key == key;
    assert(taken.push(item)[j].key == key);
}

proof fn lemma_all_known_grows<K>(
    taken: Seq<MemoryTransfers<K>>,
    item: MemoryTransfers<K>,
    batch: Seq<(K, OutputMemoryTransfer)>,
)
    requires
        all_known(taken, batch),
    ensures
        all_known(taken.push(item), batch),
{
    assert forall|i: int| 0 <= i < batch.len() implies known(
        taken.push(item),
        (#[trigger] batch[i]).0,
    ) by {
        lemma_known_grows(taken, item, batch[i].0);
    }
}

/// A move behind the mapper keeps the stages well-formed and every group
/// that has left the mapper accounted for; a group is dropped only by a move
/// that is a failure.
pub proof fn lemma_downstream_groups<K>(pre: Downstream<K>, mv: Move<K>, mapper_stopped: bool, post: Downstream<K>)
    requires
        pre.wf(),
        pre.next(mv, mapper_stopped, post),
    ensures
        post.wf(),
        post.groups_out() == pre.groups_out(),
        !pre.fails(mv) ==> post.torn == pre.torn,
{
    match mv {
        Move::Loader(reply, step) => {
            lemma_loader_flow(pre.loader, reply, post.loader, step);
            lemma_passes_len(
                pre.transfers,
                reply matches LoaderReply::Transfer(Some(_)),
                transfers_in(step.effects@),
                post.transfers,
            );
        },
        Move::Tracker(reply, step) => {
            lemma_tracker_flow(pre.tracker, reply, post.tracker, step);
            lemma_passes_len(
                pre.jobs,
                reply matches TrackerReply::Job(Some(_)),
                jobs_in(step.effects@),
                post.jobs,
            );
        },
        Move::Fetcher(reply, step) => {
            lemma_fetcher_flow(pre.fetcher, reply, post.fetcher, step);
            lemma_passes_len(
                pre.finished,
                reply matches FetcherReply::Job(Some(_)),
                finished_in(step.effects@),
                post.finished,
            );
        },
    }
}

/// A move behind the mapper that is no failure loses no work item: what is
/// in flight and what is delivered add up to the same, and only successes
/// are delivered.
pub proof fn lemma_downstream_items<K>(pre: Downstream<K>, mv: Move<K>, mapper_stopped: bool, post: Downstream<K>)
    requires
        pre.wf(),
        pre.next(mv, mapper_stopped, post),
        !pre.fails(mv),
    ensures
        post.items_in_flight() + post.outputs.len() == pre.items_in_flight() + pre.outputs.len(),
        forall|i: int|
            pre.outputs.len() <= i < post.outputs.len() ==> (#[trigger] post.outputs[i]) is Ok,
        forall|i: int| 0 <= i < pre.outputs.len() ==> (#[trigger] post.outputs[i]) == pre.outputs[i],
{
    let empty_transfers = Seq::<GroupTransfer<K>>::empty();
    let empty_jobs = Seq::<GroupJob<K>>::empty();
    assert(items_in_transfers(empty_transfers) == 0);
    assert(items_in_jobs(empty_jobs) == 0);
    match mv {
        Move::Loader(reply, step) => {
            lemma_loader_flow(pre.loader, reply, post.loader, step);
            assert(transfers_in(step.effects@) =~= empty_transfers);
            assert(finished_in(step.effects@) =~= empty_jobs);
            lemma_passes_transfers(
                pre.transfers,
                reply matches LoaderReply::Transfer(Some(_)),
                transfers_in(step.effects@),
                post.transfers,
            );
            lemma_passes_jobs(pre.jobs, false, jobs_in(step.effects@), post.jobs);
            lemma_passes_jobs(pre.finished, false, finished_in(step.effects@), post.finished);
            assert(post.outputs =~= pre.outputs);
        },
        Move::Tracker(reply, step) => {
            lemma_tracker_flow(pre.tracker, reply, post.tracker, step);
            assert(transfers_in(step.effects@) =~= empty_transfers);
            assert(jobs_in(step.effects@) =~= empty_jobs);
            lemma_passes_transfers(pre.transfers, false, transfers_in(step.effects@), post.transfers);
            lemma_passes_jobs(
                pre.jobs,
                reply matches TrackerReply::Job(Some(_)),
                jobs_in(step.effects@),
                post.jobs,
            );
            lemma_passes_jobs(pre.finished, false, finished_in(step.effects@), post.finished);
            assert(post.outputs =~= pre.outputs);
        },
        Move::Fetcher(reply, step) => {
            lemma_fetcher_flow(pre.fetcher, reply, post.fetcher, step);
            assert(transfers_in(step.effects@) =~= empty_transfers);
            assert(jobs_in(step.effects@) =~= empty_jobs);
            assert(finished_in(step.effects@) =~= empty_jobs);
            lemma_passes_transfers(pre.transfers, false, transfers_in(step.effects@), post.transfers);
            lemma_passes_jobs(pre.jobs, false, jobs_in(step.effects@), post.jobs);
            lemma_passes_jobs(
                pre.finished,
                reply matches FetcherReply::Job(Some(_)),
                finished_in(step.effects@),
                post.finished,
            );
            assert forall|i: int| pre.outputs.len() <= i < post.outputs.len() implies (
            #[trigger] post.outputs[i]) is Ok by {
                assert(post.outputs[i] == outputs_in(step.effects@)[i - pre.outputs.len()]);
            }
        },
    }
}

/// A move behind the mapper brings no key into being: every key in flight
/// or delivered afterwards was in flight before.
pub proof fn lemma_downstream_keys<K>(
    pre: Downstream<K>,
    mv: Move<K>,
    mapper_stopped: bool,
    post: Downstream<K>,
    taken: Seq<MemoryTransfers<K>>,
)
    requires
        pre.wf(),
        pre.keeps_keys(taken),
        pre.next(mv, mapper_stopped, post),
    ensures
        post.keeps_keys(taken),
{
    match mv {
        Move::Loader(reply, step) => {
            lemma_loader_flow(pre.loader, reply, post.loader, step);
            let job = InputLoader::job_with(pre.loader, reply);
            match reply {
                LoaderReply::Transfer(Some(transfer)) => {
                    assert(transfer == pre.transfers[0]);
                },
                _ => {},
            }
            assert(job is Some ==> all_known(taken, job.unwrap().1@));
            assert forall|t: int| 0 <= t < post.transfers.len() implies all_known(
                taken,
                (#[trigger] post.transfers[t]).2@,
            ) by {
                if reply matches LoaderReply::Transfer(Some(_)) {
                    assert(post.transfers[t] == pre.transfers[t + 1]);
                } else {
                    assert(post.transfers[t] == pre.transfers[t]);
                }
            }
            assert forall|j: int| 0 <= j < post.jobs.len() implies all_known(
                taken,
                (#[trigger] post.jobs[j]).1@,
            ) by {
                if j >= pre.jobs.len() {
                    assert(post.jobs[j] == jobs_in(step.effects@)[j - pre.jobs.len()]);
                } else {
                    assert(post.jobs[j] == pre.jobs[j]);
                }
            }
            assert(post.finished =~= pre.finished);
            assert forall|i: int| 0 <= i < post.outputs.len() implies ((
            #[trigger] post.outputs[i]) matches Ok(result) ==> known(taken, result.0)) by {
                if i >= pre.outputs.len() {
                    assert(post.outputs[i] == outputs_in(step.effects@)[i - pre.outputs.len()]);
                }
            }
        },
        Move::Tracker(reply, step) => {
            lemma_tracker_flow(pre.tracker, reply, post.tracker, step);
            match reply {
                TrackerReply::Job(Some(job)) => {
                    assert(job == pre.jobs[0]);
                },
                _ => {},
            }
            assert forall|job: GroupJob<K>|
                ExecutionTracker::has_with(pre.tracker, reply, job) implies all_known(
                taken,
                job.1@,
            ) by {
                if reply == TrackerReply::Job(Some(job)) {
                } else {
                    let j = choose|j: int|
                        0 <= j < pre.tracker.pending@.len() && #[trigger] pre.tracker.pending@[j]
                            == job;
                    assert(all_known(taken, pre.tracker.pending@[j].1@));
                }
            }
            assert(post.transfers =~= pre.transfers);
            assert forall|j: int| 0 <= j < post.jobs.len() implies all_known(
                taken,
                (#[trigger] post.jobs[j]).1@,
            ) by {
                if reply matches TrackerReply::Job(Some(_)) {
                    assert(post.jobs[j] == pre.jobs[j + 1]);
                } else {
                    assert(post.jobs[j] == pre.jobs[j]);
                }
            }
            assert forall|j: int| 0 <= j < post.finished.len() implies all_known(
                taken,
                (#[trigger] post.finished[j]).1@,
            ) by {
                if j >= pre.finished.len() {
                    assert(post.finished[j] == finished_in(step.effects@)[j - pre.finished.len()]);
                } else {
                    assert(post.finished[j] == pre.finished[j]);
                }
            }
            assert forall|i: int| 0 <= i < post.outputs.len() implies ((
            #[trigger] post.outputs[i]) matches Ok(result) ==> known(taken, result.0)) by {
                if i >= pre.outputs.len() {
                    assert(post.outputs[i] == outputs_in(step.effects@)[i - pre.outputs.len()]);
                }
            }
        },
        Move::Fetcher(reply, step) => {
            lemma_fetcher_flow(pre.fetcher, reply, post.fetcher, step);
            match reply {
                FetcherReply::Job(Some(job)) => {
                    assert(job == pre.finished[0]);
                },
                _ => {},
            }
            assert(post.transfers =~= pre.transfers);
            assert(post.jobs =~= pre.jobs);
            assert forall|j: int| 0 <= j < post.finished.len() implies all_known(
                taken,
                (#[trigger] post.finished[j]).1@,
            ) by {
                if reply matches FetcherReply::Job(Some(_)) {
                    assert(post.finished[j] == pre.finished[j + 1]);
                } else {
                    assert(post.finished[j] == pre.finished[j]);
                }
            }
            assert forall|i: int| 0 <= i < post.outputs.len() implies ((
            #[trigger] post.outputs[i]) matches Ok(result) ==> known(taken, result.0)) by {
                if i >= pre.outputs.len() {
                    let k = i - pre.outputs.len();
                    assert(post.outputs[i] == outputs_in(step.effects@)[k]);
                    if OutputFetcher::<K>::fails_with(reply) {
                    } else if pre.fetcher.current is Some {
                        assert(k < pre.fetcher.current.unwrap().1@.len());
                    }
                }
            }
        },
    }
}

/// What a move of the mapper does to what lies behind it, where the mapper
/// hands on nothing but batches and results.
pub proof fn lemma_fed<K>(pre: Downstream<K>, takes_group: bool, effects: Seq<Effect<K>>, post: Downstream<K>)
    requires
        pre.fed(takes_group, effects, post),
        takes_group ==> pre.free.len() > 0,
        jobs_in(effects).len() == 0,
        finished_in(effects).len() == 0,
        releases_in(effects).len() == 0,
    ensures
        post.wf() == pre.wf(),
        post.groups_out() + (if takes_group {
            1nat
        } else {
            0nat
        }) == pre.groups_out() + transfers_in(effects).len(),
        post.items_in_flight() == pre.items_in_flight() + items_in_transfers(transfers_in(effects)),
        post.outputs == pre.outputs + outputs_in(effects),
        post.jobs == pre.jobs,
        post.finished == pre.finished,
        forall|t: int| 0 <= t < pre.transfers.len() ==> (#[trigger] post.transfers[t]) == pre.transfers[t],
        forall|t: int|
            pre.transfers.len() <= t < post.transfers.len() ==> (#[trigger] post.transfers[t])
                == transfers_in(effects)[t - pre.transfers.len()],
{
    let empty_jobs = Seq::<GroupJob<K>>::empty();
    assert(items_in_jobs(empty_jobs) == 0);
    assert(jobs_in(effects) =~= empty_jobs);
    assert(finished_in(effects) =~= empty_jobs);
    lemma_passes_len(pre.free, takes_group, releases_in(effects), post.free);
    lemma_passes_transfers(pre.transfers, false, transfers_in(effects), post.transfers);
    lemma_passes_jobs(pre.jobs, false, jobs_in(effects), post.jobs);
    lemma_passes_jobs(pre.finished, false, finished_in(effects), post.finished);
    assert(post.jobs =~= pre.jobs);
    assert(post.finished =~= pre.finished);
}

/// Keys that are known behind the mapper stay known when the mapper takes
/// in one more item.
proof fn lemma_keys_grow<K>(rest: Downstream<K>, taken: Seq<MemoryTransfers<K>>, item: MemoryTransfers<K>)
    requires
        rest.keeps_keys(taken),
    ensures
        rest.keeps_keys(taken.push(item)),
{
    let more = taken.push(item);
    assert forall|t: int| 0 <= t < rest.transfers.len() implies all_known(
        more,
        (#[trigger] rest.transfers[t]).2@,
    ) by {
        lemma_all_known_grows(taken, item, rest.transfers[t].2@);
    }
    if rest.loader.current is Some {
        lemma_all_known_grows(taken, item, rest.loader.current.unwrap().1@);
    }
    assert forall|j: int| 0 <= j < rest.jobs.len() implies all_known(more, (#[trigger] rest.jobs[j]).1@) by {
        lemma_all_known_grows(taken, item, rest.jobs[j].1@);
    }
    assert forall|j: int| 0 <= j < rest.tracker.pending@.len() implies all_known(
        more,
        (#[trigger] rest.tracker.pending@[j]).1@,
    ) by {
        lemma_all_known_grows(taken, item, rest.tracker.pending@[j].1@);
    }
    assert forall|j: int| 0 <= j < rest.finished.len() implies all_known(
        more,
        (#[trigger] rest.finished[j]).1@,
    ) by {
        lemma_all_known_grows(taken, item, rest.finished[j].1@);
    }
    if rest.fetcher.current is Some {
        lemma_all_known_grows(taken, item, rest.fetcher.current.unwrap().1@);
    }
    assert forall|i: int| 0 <= i < rest.outputs.len() implies ((#[trigger] rest.outputs[i]) matches Ok(
        result,
    ) ==> known(more, result.0)) by {
        match rest.outputs[i] {
            Ok(result) => {
                lemma_known_grows(taken, item, result.0);
            },
            Err(_) => {},
        }
    }
}

/// A pipeline of the simple model.
pub struct SimplePipeline<K> {
    pub mapper: SimpleMapper<K>,
    /// The work items that the mapper has taken in, oldest first.
    pub taken: Seq<MemoryTransfers<K>>,
    /// What lies behind the mapper.
    pub rest: Downstream<K>,
}

/// A stage of a pipeline of the simple model takes a step.
pub enum SimpleMove<K> {
    Mapper(SimpleReply<K>, Step<K, MapperRequest>),
    Behind(Move<K>),
}

impl<K> SimplePipeline<K> {
    /// Whether the mapper can be given `reply` now: a group only if it is the
    /// oldest of those on their way back, and none only where the mapper does
    /// not wait and none is on its way.
    pub open spec fn mapper_ready(self, reply: SimpleReply<K>) -> bool {
        &&& SimpleMapper::<K>::expects(self.mapper.phase, reply)
        &&& match reply {
            SimpleReply::Group(Some(group)) => self.rest.free.len() > 0 && group == self.rest.free[0],
            SimpleReply::Group(None) => self.rest.free.len() == 0,
            _ => true,
        }
    }

    /// Whether `mv` is a failure: a call of the driver failed, or a DPU is in
    /// fault.
    pub open spec fn fails(self, mv: SimpleMove<K>) -> bool {
        match mv {
            SimpleMove::Mapper(reply, step) => false,
            SimpleMove::Behind(mv) => self.rest.fails(mv),
        }
    }

    /// The pipeline goes from `self` to `post` by the move `mv`.
    pub open spec fn next(self, mv: SimpleMove<K>, post: Self) -> bool {
        match mv {
            SimpleMove::Mapper(reply, step) => {
                &&& self.mapper_ready(reply)
                &&& SimpleMapper::resumes(self.mapper, reply, post.mapper, step)
                &&& post.taken == match reply {
                    SimpleReply::Input(Some(item)) => self.taken.push(item),
                    _ => self.taken,
                }
                &&& self.rest.fed(reply matches SimpleReply::Group(Some(_)), step.effects@, post.rest)
            },
            SimpleMove::Behind(mv) => {
                &&& post.mapper == self.mapper
                &&& post.taken == self.taken
                &&& self.rest.next(mv, self.mapper.phase == MapperPhase::Stopped, post.rest)
            },
        }
    }

    /// The pipeline right after its stages were started on `groups`: the
    /// mapper holds every group, the channels are empty, and nothing has been
    /// taken in or delivered.
    pub open spec fn initial(self, groups: Seq<DpuGroup>) -> bool {
        &&& self.mapper.groups@ == groups
        &&& self.mapper.phase == MapperPhase::AwaitingInput
        &&& self.mapper.current is None
        &&& self.mapper.inputs@.len() == 0
        &&& self.mapper.outputs@.len() == 0
        &&& self.taken.len() == 0
        &&& self.rest.initial()
    }

    /// Every stage is well-formed.
    pub open spec fn wf(self) -> bool {
        self.mapper.wf() && self.rest.wf()
    }

    /// Number of groups in flight: on their way to a stage behind the mapper,
    /// or in the hands of one.
    pub open spec fn groups_in_flight(self) -> nat {
        self.rest.groups_in_flight()
    }

    /// Number of free groups: in the mapper's pool, or on their way back to
    /// it.
    pub open spec fn free_pool(self) -> nat {
        self.mapper.groups@.len() + self.rest.free.len()
    }

    /// Number of groups that the mapper is filling.
    pub open spec fn in_mapper_table(self) -> nat {
        if self.mapper.current is Some {
            1
        } else {
            0
        }
    }

    /// Number of work items in flight: in the open batch of the mapper, on
    /// their way to a stage, or in the hands of one.
    pub open spec fn items_in_flight(self) -> nat {
        self.mapper.outputs@.len() + self.rest.items_in_flight()
    }

    /// Nothing is on its way and no stage has anything at hand.
    pub open spec fn drained(self) -> bool {
        self.mapper.outputs@.len() == 0 && self.rest.drained()
    }

    /// The groups are all accounted for: in flight, free, with the mapper, or
    /// dropped after a failure.
    pub open spec fn conserves_groups(self, nr_of_groups: nat) -> bool {
        &&& self.wf()
        &&& self.groups_in_flight() + self.free_pool() + self.in_mapper_table() + self.rest.torn
            == nr_of_groups
    }

    /// The work items are all accounted for: every item taken in is in flight
    /// or has its result, and every result is a success.
    pub open spec fn conserves_items(self) -> bool {
        &&& self.wf()
        &&& self.taken.len() == self.rest.outputs.len() + self.items_in_flight()
        &&& forall|i: int| 0 <= i < self.rest.outputs.len() ==> (#[trigger] self.rest.outputs[i]) is Ok
    }

    /// Every key in the pipeline, in flight or delivered, is the key of a
    /// work item that the mapper has taken in.
    pub open spec fn keeps_keys(self) -> bool {
        &&& self.wf()
        &&& all_known(self.taken, self.mapper.outputs@)
        &&& self.rest.keeps_keys(self.taken)
    }
}

/// The laws at the start: a pipeline that was just started on `groups`
/// accounts for each of them, has dropped none, and holds neither a work
/// item nor a key.
pub proof fn lemma_simple_pipeline_initially<K>(pipeline: SimplePipeline<K>, groups: Seq<DpuGroup>)
    requires
        pipeline.initial(groups),
    ensures
        pipeline.conserves_groups(groups.len()),
        pipeline.conserves_items(),
        pipeline.keeps_keys(),
        pipeline.rest.torn == 0,
{
    assert(items_in_transfers(pipeline.rest.transfers) == 0);
    assert(items_in_jobs(pipeline.rest.jobs) == 0);
    assert(items_in_jobs(pipeline.rest.finished) == 0);
    assert(items_in_jobs(pipeline.rest.tracker.pending@) == 0);
}

/// Conservation of groups: over every move, the groups in flight, the free
/// groups, the group that the mapper fills and the groups dropped after a
/// failure add up to the number of groups of the pipeline; and a group is
/// dropped only by a move that is a failure.
pub proof fn lemma_conservation_of_groups<K>(
    pre: SimplePipeline<K>,
    mv: SimpleMove<K>,
    post: SimplePipeline<K>,
    nr_of_groups: nat,
)
    requires
        pre.conserves_groups(nr_of_groups),
        pre.next(mv, post),
    ensures
        post.conserves_groups(nr_of_groups),
        !pre.fails(mv) ==> post.rest.torn == pre.rest.torn,
{
    match mv {
        SimpleMove::Mapper(reply, step) => {
            lemma_simple_mapper_flow(pre.mapper, reply, post.mapper, step);
            lemma_fed(pre.rest, reply matches SimpleReply::Group(Some(_)), step.effects@, post.rest);
        },
        SimpleMove::Behind(mv) => {
            lemma_downstream_groups(pre.rest, mv, pre.mapper.phase == MapperPhase::Stopped, post.rest);
        },
    }
}

/// Result cardinality: over every move that is no failure, each work item
/// that the mapper has taken in is either in flight or has exactly one
/// result, and that result is a success.
pub proof fn lemma_result_cardinality<K>(pre: SimplePipeline<K>, mv: SimpleMove<K>, post: SimplePipeline<K>)
    requires
        pre.conserves_items(),
        pre.next(mv, post),
        !pre.fails(mv),
    ensures
        post.conserves_items(),
{
    match mv {
        SimpleMove::Mapper(reply, step) => {
            lemma_simple_mapper_flow(pre.mapper, reply, post.mapper, step);
            lemma_fed(pre.rest, reply matches SimpleReply::Group(Some(_)), step.effects@, post.rest);
            assert(post.rest.outputs =~= pre.rest.outputs);
        },
        SimpleMove::Behind(mv) => {
            lemma_downstream_groups(pre.rest, mv, pre.mapper.phase == MapperPhase::Stopped, post.rest);
            lemma_downstream_items(pre.rest, mv, pre.mapper.phase == MapperPhase::Stopped, post.rest);
        },
    }
}

/// Result cardinality at the end of a run: once nothing is in flight any
/// more, there are as many results as work items were taken in.
pub proof fn lemma_result_cardinality_when_drained<K>(pipeline: SimplePipeline<K>)
    requires
        pipeline.conserves_items(),
        pipeline.drained(),
    ensures
        pipeline.rest.outputs.len() == pipeline.taken.len(),
{
    assert(items_in_transfers(pipeline.rest.transfers) == 0);
    assert(items_in_jobs(pipeline.rest.jobs) == 0);
    assert(items_in_jobs(pipeline.rest.finished) == 0);
    assert(items_in_jobs(pipeline.rest.tracker.pending@) == 0);
}

/// Key fidelity: over every move, every key in the pipeline is the key of a
/// work item that the mapper has taken in. In particular every result that
/// is delivered carries the key of a work item that was taken in.
pub proof fn lemma_key_fidelity<K>(pre: SimplePipeline<K>, mv: SimpleMove<K>, post: SimplePipeline<K>)
    requires
        pre.keeps_keys(),
        pre.next(mv, post),
    ensures
        post.keeps_keys(),
        forall|i: int|
            0 <= i < post.rest.outputs.len() ==> ((#[trigger] post.rest.outputs[i]) matches Ok(result)
                ==> exists|j: int|
                0 <= j < post.taken.len() && (#[trigger] post.taken[j]).key == result.0),
{
    match mv {
        SimpleMove::Mapper(reply, step) => {
            lemma_simple_mapper_flow(pre.mapper, reply, post.mapper, step);
            lemma_fed(pre.rest, reply matches SimpleReply::Group(Some(_)), step.effects@, post.rest);
            let batch = SimpleMapper::batch_with(pre.mapper, reply);
            match reply {
                SimpleReply::Input(Some(item)) => {
                    lemma_all_known_grows(pre.taken, item, pre.mapper.outputs@);
                    lemma_keys_grow(pre.rest, pre.taken, item);
                    assert(post.taken[pre.taken.len() as int].key == item.key);
                },
                _ => {},
            }
            assert(all_known(post.taken, batch));
            assert(post.rest.outputs =~= pre.rest.outputs);
        },
        SimpleMove::Behind(mv) => {
            lemma_downstream_groups(pre.rest, mv, pre.mapper.phase == MapperPhase::Stopped, post.rest);
            lemma_downstream_keys(
                pre.rest,
                mv,
                pre.mapper.phase == MapperPhase::Stopped,
                post.rest,
                pre.taken,
            );
        },
    }
}

/// A pipeline of the persistent model.
pub struct PersistentPipeline<K, D> {
    pub mapper: PersistentMapper<K, D>,
    /// The work items that the mapper has taken in, oldest first, each with
    /// the fragment it is for.
    pub taken: Seq<(D, MemoryTransfers<K>)>,
    /// What lies behind the mapper.
    pub rest: Downstream<K>,
}

/// A stage of a pipeline of the persistent model takes a step.
pub enum PersistentMove<K, D> {
    Mapper(PersistentReply<K, D>, Step<K, PersistentRequest>),
    Behind(Move<K>),
}

impl<K, D: Hash + Eq> PersistentPipeline<K, D> {
    /// Whether the mapper can be given `reply` now: a group only if it is the
    /// oldest of those on their way back, and none only where the mapper does
    /// not wait and none is on its way.
    pub open spec fn mapper_ready(self, reply: PersistentReply<K, D>) -> bool {
        &&& PersistentMapper::<K, D>::expects(self.mapper.phase, reply)
        &&& match reply {
            PersistentReply::Group(Some(group)) => self.rest.free.len() > 0 && group
                == self.rest.free[0],
            PersistentReply::Group(None) => self.rest.free.len() == 0,
            _ => true,
        }
    }

    /// Whether `mv` is a failure: a call of the driver failed, or a DPU is in
    /// fault.
    pub open spec fn fails(self, mv: PersistentMove<K, D>) -> bool {
        match mv {
            PersistentMove::Mapper(reply, step) => PersistentMapper::<K, D>::fails_with(reply),
            PersistentMove::Behind(mv) => self.rest.fails(mv),
        }
    }

    /// Whether `mv` brings a work item whose fragment is not registered.
    pub open spec fn brings_unknown(self, mv: PersistentMove<K, D>) -> bool {
        match mv {
            PersistentMove::Mapper(reply, step) => PersistentMapper::unknown_with(self.mapper, reply),
            PersistentMove::Behind(mv) => false,
        }
    }

    /// The pipeline goes from `self` to `post` by the move `mv`.
    pub open spec fn next(self, mv: PersistentMove<K, D>, post: Self) -> bool {
        match mv {
            PersistentMove::Mapper(reply, step) => {
                &&& self.mapper_ready(reply)
                &&& PersistentMapper::resumes(self.mapper, reply, post.mapper, step)
                &&& post.taken == match reply {
                    PersistentReply::Input(Some(input)) => self.taken.push(input),
                    _ => self.taken,
                }
                &&& self.rest.fed(
                    reply matches PersistentReply::Group(Some(_)),
                    step.effects@,
                    post.rest,
                )
            },
            PersistentMove::Behind(mv) => {
                &&& post.mapper == self.mapper
                &&& post.taken == self.taken
                &&& self.rest.next(mv, self.mapper.phase == PersistentPhase::Stopped, post.rest)
            },
        }
    }

    /// The pipeline right after its stages were started on `groups`: the
    /// mapper is about to pin the fragments and nothing has left it.
    pub open spec fn initial(self, groups: Seq<DpuGroup>) -> bool {
        &&& self.mapper.groups@ == groups
        &&& self.mapper.table@.len() == 0
        &&& self.mapper.strays@.len() == 0
        &&& (self.mapper.phase == PersistentPhase::AwaitingInput || (self.mapper.phase
            == PersistentPhase::Placing && self.mapper.placement.used@.len()
            < self.mapper.placement.candidates@.len() && self.mapper.placement.cursor
            < self.mapper.groups@.len()))
        &&& self.taken.len() == 0
        &&& self.rest.initial()
    }

    /// Every stage is well-formed.
    pub open spec fn wf(self) -> bool {
        self.mapper.wf() && self.rest.wf()
    }

    /// Number of groups in flight: on their way to a stage behind the mapper,
    /// or in the hands of one.
    pub open spec fn groups_in_flight(self) -> nat {
        self.rest.groups_in_flight()
    }

    /// Number of free groups: those that hold no fragment, those on their
    /// way back to the mapper, and those that came back without being
    /// missed.
    pub open spec fn free_pool(self) -> int {
        self.mapper.groups@.len() - self.mapper.table@.len() + self.rest.free.len()
            + self.mapper.strays@.len()
    }

    /// Number of groups in the mapper's table that are in its hands.
    pub open spec fn in_mapper_table(self) -> int {
        self.mapper.table@.len() - away(self.mapper.table@)
    }

    /// Number of work items in flight: waiting in the mapper, on their way
    /// to a stage, or in the hands of one.
    pub open spec fn items_in_flight(self) -> nat {
        self.mapper.held_items() + self.rest.items_in_flight()
    }

    /// Nothing is on its way and no stage has anything at hand.
    pub open spec fn drained(self) -> bool {
        self.mapper.held_items() == 0 && self.rest.drained()
    }

    /// The groups are all accounted for: in flight, free, in the mapper's
    /// table, or dropped after a failure.
    pub open spec fn conserves_groups(self) -> bool {
        &&& self.wf()
        &&& self.groups_in_flight() + self.free_pool() + self.in_mapper_table() + self.rest.torn
            == self.mapper.groups@.len()
    }

    /// The work items are all accounted for: every item taken in is in flight
    /// or has its result.
    pub open spec fn conserves_items(self) -> bool {
        &&& self.wf()
        &&& self.taken.len() == self.rest.outputs.len() + self.items_in_flight()
    }

    /// Every result is a success.
    pub open spec fn succeeds(self) -> bool {
        forall|i: int| 0 <= i < self.rest.outputs.len() ==> (#[trigger] self.rest.outputs[i]) is Ok
    }
}

/// The mapper of the persistent model never changes the groups it was
/// given.
proof fn lemma_groups_stay<K, D: Hash + Eq>(
    pre: PersistentMapper<K, D>,
    reply: PersistentReply<K, D>,
    post: PersistentMapper<K, D>,
    step: Step<K, PersistentRequest>,
)
    requires
        PersistentMapper::resumes(pre, reply, post, step),
    ensures
        post.groups == pre.groups,
{
}

/// The laws at the start: a pipeline that was just started accounts for
/// each of its groups and holds no work item.
pub proof fn lemma_persistent_pipeline_initially<K, D: Hash + Eq>(
    pipeline: PersistentPipeline<K, D>,
    groups: Seq<DpuGroup>,
)
    requires
        pipeline.initial(groups),
    ensures
        pipeline.conserves_groups(),
        pipeline.conserves_items(),
        pipeline.succeeds(),
        pipeline.rest.torn == 0,
{
    assert(items_in_transfers(pipeline.rest.transfers) == 0);
    assert(items_in_jobs(pipeline.rest.jobs) == 0);
    assert(items_in_jobs(pipeline.rest.finished) == 0);
    assert(items_in_jobs(pipeline.rest.tracker.pending@) == 0);
}

/// Conservation of groups in the persistent model: over every move, the
/// groups in flight, the free groups, the groups in the hands of the mapper
/// and the groups dropped after a failure add up to the number of groups of
/// the pipeline; and a group is dropped only by a move that is a failure.
pub proof fn lemma_persistent_conservation_of_groups<K, D: Hash + Eq>(
    pre: PersistentPipeline<K, D>,
    mv: PersistentMove<K, D>,
    post: PersistentPipeline<K, D>,
)
    requires
        pre.conserves_groups(),
        pre.next(mv, post),
    ensures
        post.conserves_groups(),
        post.mapper.groups@.len() == pre.mapper.groups@.len(),
        !pre.rest.fails_behind(mv) ==> post.rest.torn == pre.rest.torn,
{
    match mv {
        PersistentMove::Mapper(reply, step) => {
            lemma_persistent_mapper_flow(pre.mapper, reply, post.mapper, step);
            lemma_fed(
                pre.rest,
                reply matches PersistentReply::Group(Some(_)),
                step.effects@,
                post.rest,
            );
            lemma_groups_stay(pre.mapper, reply, post.mapper, step);
        },
        PersistentMove::Behind(mv) => {
            lemma_downstream_groups(
                pre.rest,
                mv,
                pre.mapper.phase == PersistentPhase::Stopped,
                post.rest,
            );
        },
    }
}

/// Result cardinality in the persistent model: over every move that is no
/// failure, each work item that the mapper has taken in is either in flight
/// or has exactly one result; and unless the move brings an item whose
/// fragment is not registered, the results stay successes.
pub proof fn lemma_persistent_result_cardinality<K, D: Hash + Eq>(
    pre: PersistentPipeline<K, D>,
    mv: PersistentMove<K, D>,
    post: PersistentPipeline<K, D>,
)
    requires
        pre.conserves_items(),
        pre.next(mv, post),
        !pre.fails(mv),
    ensures
        post.conserves_items(),
        pre.succeeds() && !pre.brings_unknown(mv) ==> post.succeeds(),
{
    match mv {
        PersistentMove::Mapper(reply, step) => {
            lemma_persistent_mapper_flow(pre.mapper, reply, post.mapper, step);
            lemma_fed(
                pre.rest,
                reply matches PersistentReply::Group(Some(_)),
                step.effects@,
                post.rest,
            );
            if !pre.brings_unknown(mv) {
                assert(post.rest.outputs =~= pre.rest.outputs);
            }
        },
        PersistentMove::Behind(mv) => {
            lemma_downstream_groups(
                pre.rest,
                mv,
                pre.mapper.phase == PersistentPhase::Stopped,
                post.rest,
            );
            lemma_downstream_items(
                pre.rest,
                mv,
                pre.mapper.phase == PersistentPhase::Stopped,
                post.rest,
            );
        },
    }
}

/// Result cardinality in the persistent model at the end of a run: once
/// nothing is in flight any more, there are as many results as work items
/// were taken in.
pub proof fn lemma_persistent_result_cardinality_when_drained<K, D: Hash + Eq>(
    pipeline: PersistentPipeline<K, D>,
)
    requires
        pipeline.conserves_items(),
        pipeline.drained(),
    ensures
        pipeline.rest.outputs.len() == pipeline.taken.len(),
{
    assert(items_in_transfers(pipeline.rest.transfers) == 0);
    assert(items_in_jobs(pipeline.rest.jobs) == 0);
    assert(items_in_jobs(pipeline.rest.finished) == 0);
    assert(items_in_jobs(pipeline.rest.tracker.pending@) == 0);
}

/// Shutdown at the initializer: an initializer that sees the shutdown flag
/// set pulls no further item; it reports the end of its process and stops.
pub proof fn lemma_shutdown_stops_the_initializer()
    ensures
        initializer_next(InitializerPhase::AwaitingFlag, InitializerReply::Flag(true)) == (
            InitializerPhase::Stopped,
            seq![Event::ProcessEnd],
            InitializerRequest::Exit,
        ),
{
}

/// Shutdown of the simple mapper: a mapper that is told of the end of the
/// input stops, and hands the open batch on before it does.
pub proof fn lemma_end_of_input_stops_the_simple_mapper<K>(
    pre: SimpleMapper<K>,
    post: SimpleMapper<K>,
    step: Step<K, MapperRequest>,
)
    requires
        pre.wf(),
        pre.phase == MapperPhase::AwaitingInput || pre.phase == MapperPhase::Filling,
        SimpleMapper::resumes(pre, SimpleReply::Input(None), post, step),
    ensures
        post.phase == MapperPhase::Stopped,
        step.request == MapperRequest::Exit,
        post.outputs@.len() == 0,
{
}

/// Shutdown behind the mapper: once the stage before it has stopped and
/// nothing is left for it, each stage stops when it is told so: the loader
/// at the end of the batches, the tracker once no job runs and none is to
/// come, the fetcher at the end of the finished jobs.
pub proof fn lemma_shutdown_cascades<K>(pre: Downstream<K>, mv: Move<K>, mapper_stopped: bool, post: Downstream<K>)
    requires
        pre.wf(),
        pre.next(mv, mapper_stopped, post),
    ensures
        mv matches Move::Loader(LoaderReply::Transfer(None), step) ==> mapper_stopped
            && pre.transfers.len() == 0 && post.loader.phase == LoaderPhase::Stopped
            && step.request is Exit,
        mv matches Move::Tracker(TrackerReply::Closed, step) ==> pre.loader.phase
            == LoaderPhase::Stopped && pre.jobs.len() == 0 && (pre.tracker.pending@.len() == 0
            ==> post.tracker.phase == TrackerPhase::Stopped && step.request == TrackerRequest::Exit),
        mv matches Move::Fetcher(FetcherReply::Job(None), step) ==> pre.tracker.phase
            == TrackerPhase::Stopped && pre.finished.len() == 0 && post.fetcher.phase
            == FetcherPhase::Stopped && step.request is Exit,
{
}

/// Shutdown on a broken channel: a stage that is told that whoever should
/// take what it hands on is gone stops at once, whatever it was doing, and
/// asks for nothing more. So does an initializer whose item cannot be
/// forwarded. No stage waits on a channel whose other end is gone.
pub proof fn lemma_broken_channel_stops_every_stage<K, D: Hash + Eq>(
    initializer: InitializerPhase,
    simple: (SimpleMapper<K>, SimpleMapper<K>, Step<K, MapperRequest>),
    persistent: (PersistentMapper<K, D>, PersistentMapper<K, D>, Step<K, PersistentRequest>),
    loader: (InputLoader<K>, InputLoader<K>, Step<K, LoaderRequest>),
    tracker: (ExecutionTracker<K>, ExecutionTracker<K>, Step<K, TrackerRequest>),
    fetcher: (OutputFetcher<K>, OutputFetcher<K>, Step<K, FetcherRequest>),
)
    ensures
        initializer == InitializerPhase::Forwarding ==> {
            let next = initializer_next(initializer, InitializerReply::Forwarded(false));
            next.0 == InitializerPhase::Stopped && next.2 == InitializerRequest::Exit
        },
        SimpleMapper::resumes(simple.0, SimpleReply::Broken, simple.1, simple.2) ==> simple.1.phase
            == MapperPhase::Stopped && simple.2.request == MapperRequest::Exit,
        PersistentMapper::resumes(persistent.0, PersistentReply::Broken, persistent.1, persistent.2)
            ==> persistent.1.phase == PersistentPhase::Stopped && persistent.2.request is Exit,
        InputLoader::resumes(loader.0, LoaderReply::Broken, loader.1, loader.2) ==> loader.1.phase
            == LoaderPhase::Stopped && loader.2.request is Exit,
        ExecutionTracker::resumes(tracker.0, TrackerReply::Broken, tracker.1, tracker.2)
            ==> tracker.1.phase == TrackerPhase::Stopped && tracker.2.request == TrackerRequest::Exit,
        OutputFetcher::resumes(fetcher.0, FetcherReply::Broken, fetcher.1, fetcher.2)
            ==> fetcher.1.phase == FetcherPhase::Stopped && fetcher.2.request is Exit,
{
}

/// A stage that has stopped stays stopped: whatever it is resumed with, it
/// reports nothing, hands nothing on and asks for nothing more.
pub proof fn lemma_stopped_stages_stay_stopped<K, D: Hash + Eq>(
    initializer: InitializerReply,
    simple: (SimpleMapper<K>, SimpleReply<K>, SimpleMapper<K>, Step<K, MapperRequest>),
    persistent: (
        PersistentMapper<K, D>,
        PersistentReply<K, D>,
        PersistentMapper<K, D>,
        Step<K, PersistentRequest>,
    ),
    loader: (InputLoader<K>, LoaderReply<K>, InputLoader<K>, Step<K, LoaderRequest>),
    tracker: (ExecutionTracker<K>, TrackerReply<K>, ExecutionTracker<K>, Step<K, TrackerRequest>),
    fetcher: (OutputFetcher<K>, FetcherReply<K>, OutputFetcher<K>, Step<K, FetcherRequest>),
)
    ensures
        initializer_next(InitializerPhase::Stopped, initializer) == (
            InitializerPhase::Stopped,
            Seq::<Event>::empty(),
            InitializerRequest::Exit,
        ),
        simple.0.phase == MapperPhase::Stopped && SimpleMapper::resumes(
            simple.0,
            simple.1,
            simple.2,
            simple.3,
        ) ==> simple.2.phase == MapperPhase::Stopped && simple.3.request == MapperRequest::Exit
            && simple.3.effects@.len() == 0,
        persistent.0.phase == PersistentPhase::Stopped && PersistentMapper::resumes(
            persistent.0,
            persistent.1,
            persistent.2,
            persistent.3,
        ) ==> persistent.2.phase == PersistentPhase::Stopped && persistent.3.request is Exit
            && persistent.3.effects@.len() == 0,
        loader.0.phase == LoaderPhase::Stopped && InputLoader::resumes(
            loader.0,
            loader.1,
            loader.2,
            loader.3,
        ) ==> loader.2.phase == LoaderPhase::Stopped && loader.3.request is Exit
            && loader.3.effects@.len() == 0,
        tracker.0.phase == TrackerPhase::Stopped && ExecutionTracker::resumes(
            tracker.0,
            tracker.1,
            tracker.2,
            tracker.3,
        ) ==> tracker.2.phase == TrackerPhase::Stopped && tracker.3.request == TrackerRequest::Exit
            && tracker.3.effects@.len() == 0,
        fetcher.0.phase == FetcherPhase::Stopped && OutputFetcher::resumes(
            fetcher.0,
            fetcher.1,
            fetcher.2,
            fetcher.3,
        ) ==> fetcher.2.phase == FetcherPhase::Stopped && fetcher.3.request is Exit
            && fetcher.3.effects@.len() == 0,
{
}

/// The work items of `taken` without the fragments they are for.
pub open spec fn items_of<K, D>(taken: Seq<(D, MemoryTransfers<K>)>) -> Seq<MemoryTransfers<K>> {
    Seq::new(taken.len(), |i: int| taken[i].1)
}

impl<K, D: Hash + Eq> PersistentPipeline<K, D> {
    /// Every key in the pipeline, waiting in the mapper, in flight or
    /// delivered, is the key of a work item that the mapper has taken in.
    pub open spec fn keeps_keys(self) -> bool {
        &&& self.wf()
        &&& table_known(self.taken, self.mapper.table@)
        &&& self.rest.keeps_keys(items_of(self.taken))
    }
}

/// A key of an item taken in is a key of the items without their fragments,
/// and the other way round.
proof fn lemma_items_of_keys<K, D>(taken: Seq<(D, MemoryTransfers<K>)>, key: K)
    ensures
        taken_key(taken, key) == known(items_of(taken), key),
{
    if taken_key(taken, key) {
        let j = choose|j: int| 0 <= j < taken.len() && (#[trigger] taken[j]).1.key == key;
        assert(items_of(taken)[j].key == key);
    }
    if known(items_of(taken), key) {
        let j = choose|j: int|
            0 <= j < items_of(taken).len() && (#[trigger] items_of(taken)[j]).key == key;
        assert(taken[j].1.key == key);
    }
}

/// Key fidelity in the persistent model at the start: a pipeline that was
/// just started holds no key.
pub proof fn lemma_persistent_key_fidelity_initially<K, D: Hash + Eq>(
    pipeline: PersistentPipeline<K, D>,
    groups: Seq<DpuGroup>,
)
    requires
        pipeline.initial(groups),
    ensures
        pipeline.keeps_keys(),
{
}

/// Key fidelity in the persistent model: over every move, every key in the
/// pipeline is the key of a work item that the mapper has taken in. In
/// particular every result that is delivered carries the key of a work item
/// that was taken in.
pub proof fn lemma_persistent_key_fidelity<K, D: Hash + Eq>(
    pre: PersistentPipeline<K, D>,
    mv: PersistentMove<K, D>,
    post: PersistentPipeline<K, D>,
)
    requires
        pre.keeps_keys(),
        pre.next(mv, post),
    ensures
        post.keeps_keys(),
        forall|i: int|
            0 <= i < post.rest.outputs.len() ==> ((#[trigger] post.rest.outputs[i]) matches Ok(result)
                ==> exists|j: int|
                0 <= j < post.taken.len() && (#[trigger] post.taken[j]).1.key == result.0),
{
    match mv {
        PersistentMove::Mapper(reply, step) => {
            lemma_persistent_mapper_flow(pre.mapper, reply, post.mapper, step);
            lemma_persistent_mapper_keys(pre.mapper, reply, post.mapper, step, pre.taken);
            lemma_fed(
                pre.rest,
                reply matches PersistentReply::Group(Some(_)),
                step.effects@,
                post.rest,
            );
            match reply {
                PersistentReply::Input(Some(input)) => {
                    assert(items_of(post.taken) =~= items_of(pre.taken).push(input.1));
                    lemma_keys_grow(pre.rest, items_of(pre.taken), input.1);
                },
                _ => {
                    assert(items_of(post.taken) =~= items_of(pre.taken));
                },
            }
            let known_items = items_of(post.taken);
            assert forall|t: int| 0 <= t < post.rest.transfers.len() implies all_known(
                known_items,
                (#[trigger] post.rest.transfers[t]).2@,
            ) by {
                if t >= pre.rest.transfers.len() {
                    let sent = transfers_in(step.effects@)[t - pre.rest.transfers.len()];
                    assert(batch_known(post.taken, sent));
                    assert forall|p: int| 0 <= p < sent.2@.len() implies known(
                        known_items,
                        (#[trigger] sent.2@[p]).0,
                    ) by {
                        lemma_items_of_keys(post.taken, sent.2@[p].0);
                    }
                } else {
                    assert(post.rest.transfers[t] == pre.rest.transfers[t]);
                }
            }
            assert forall|i: int| 0 <= i < post.rest.outputs.len() implies ((
            #[trigger] post.rest.outputs[i]) matches Ok(result) ==> known(known_items, result.0)) by {
                if i >= pre.rest.outputs.len() {
                    assert(post.rest.outputs[i] == outputs_in(step.effects@)[i
                        - pre.rest.outputs.len()]);
                } else {
                    assert(post.rest.outputs[i] == pre.rest.outputs[i]);
                }
            }
        },
        PersistentMove::Behind(mv) => {
            lemma_downstream_groups(
                pre.rest,
                mv,
                pre.mapper.phase == PersistentPhase::Stopped,
                post.rest,
            );
            lemma_downstream_keys(
                pre.rest,
                mv,
                pre.mapper.phase == PersistentPhase::Stopped,
                post.rest,
                items_of(pre.taken),
            );
        },
    }
    assert forall|i: int| 0 <= i < post.rest.outputs.len() implies ((
    #[trigger] post.rest.outputs[i]) matches Ok(result) ==> exists|j: int|
        0 <= j < post.taken.len() && (#[trigger] post.taken[j]).1.key == result.0) by {
        match post.rest.outputs[i] {
            Ok(result) => {
                lemma_items_of_keys(post.taken, result.0);
            },
            Err(_) => {},
        }
    }
}

impl<K> Downstream<K> {
    /// The identifiers of the groups that have left the mapper and are not
    /// back: on their way, in the hands of a stage, or on their way back.
    pub open spec fn out_ids(self) -> Multiset<int> {
        ids_of_groups(groups_of_transfers(self.transfers)).add(id_of(self.loader.group_at_hand())).add(
            ids_of_groups(groups_of_jobs(self.jobs)),
        ).add(ids_of_groups(groups_of_jobs(self.tracker.pending@))).add(
            ids_of_groups(groups_of_jobs(self.finished)),
        ).add(id_of(self.fetcher.group_at_hand())).add(ids_of_groups(self.free))
    }

    /// The group that `mv` drops, if it is a failure.
    pub open spec fn dropped(self, mv: Move<K>) -> Option<DpuGroup> {
        match mv {
            Move::Loader(reply, step) => InputLoader::dropped_with(self.loader, reply),
            Move::Tracker(reply, step) => ExecutionTracker::dropped_with(self.tracker, reply),
            Move::Fetcher(reply, step) => OutputFetcher::dropped_with(self.fetcher, reply),
        }
    }
}

/// How often a value occurs in two multisets taken together.
pub proof fn lemma_count_add(a: Multiset<int>, b: Multiset<int>, v: int)
    ensures
        a.add(b).count(v) == a.count(v) + b.count(v),
{
    broadcast use vstd::multiset::group_multiset_axioms;

    let both = a.add(b);
    assert(both.count(v) == a.count(v) + b.count(v));
}

/// How often an identifier occurs among the groups that are out.
pub proof fn lemma_out_ids_count<K>(rest: Downstream<K>, v: int)
    ensures
        rest.out_ids().count(v) == ids_of_groups(groups_of_transfers(rest.transfers)).count(v)
            + id_of(rest.loader.group_at_hand()).count(v) + ids_of_groups(
            groups_of_jobs(rest.jobs),
        ).count(v) + ids_of_groups(groups_of_jobs(rest.tracker.pending@)).count(v) + ids_of_groups(
            groups_of_jobs(rest.finished),
        ).count(v) + id_of(rest.fetcher.group_at_hand()).count(v) + ids_of_groups(rest.free).count(
            v,
        ),
{
    let t = ids_of_groups(groups_of_transfers(rest.transfers));
    let l = id_of(rest.loader.group_at_hand());
    let j = ids_of_groups(groups_of_jobs(rest.jobs));
    let p = ids_of_groups(groups_of_jobs(rest.tracker.pending@));
    let f = ids_of_groups(groups_of_jobs(rest.finished));
    let e = id_of(rest.fetcher.group_at_hand());
    let r = ids_of_groups(rest.free);
    lemma_count_add(t, l, v);
    lemma_count_add(t.add(l), j, v);
    lemma_count_add(t.add(l).add(j), p, v);
    lemma_count_add(t.add(l).add(j).add(p), f, v);
    lemma_count_add(t.add(l).add(j).add(p).add(f), e, v);
    lemma_count_add(t.add(l).add(j).add(p).add(f).add(e), r, v);
}

/// The identifiers that a channel of groups holds after a move, one by one.
proof fn lemma_passes_ids(
    channel: Seq<DpuGroup>,
    taken: bool,
    added: Seq<DpuGroup>,
    rest: Seq<DpuGroup>,
    v: int,
)
    requires
        passes(channel, taken, added, rest),
        taken ==> channel.len() > 0,
    ensures
        ids_of_groups(rest).count(v) + (if taken {
            id_of(Some(channel[0])).count(v)
        } else {
            0
        }) == ids_of_groups(channel).count(v) + ids_of_groups(added).count(v),
{
    broadcast use vstd::multiset::group_multiset_axioms;

    if taken {
        lemma_ids_remove(channel, 0);
        assert(channel.remove(0) =~= channel.skip(1));
        lemma_ids_concat(channel.skip(1), added);
        lemma_count_add(ids_of_groups(channel.skip(1)), ids_of_groups(added), v);
        let whole = ids_of_groups(channel.remove(0)).insert(channel[0].id as int);
        assert(whole.count(v) == ids_of_groups(channel.skip(1)).count(v) + id_of(
            Some(channel[0]),
        ).count(v));
    } else {
        lemma_ids_concat(channel, added);
        lemma_count_add(ids_of_groups(channel), ids_of_groups(added), v);
    }
}

/// A move behind the mapper moves groups and makes none: the groups that
/// are out afterwards and the group that the move drops are the groups that
/// were out before.
pub proof fn lemma_downstream_ids<K>(pre: Downstream<K>, mv: Move<K>, mapper_stopped: bool, post: Downstream<K>)
    requires
        pre.wf(),
        pre.next(mv, mapper_stopped, post),
    ensures
        post.out_ids().add(id_of(pre.dropped(mv))) == pre.out_ids(),
{
    let no_groups = Seq::<DpuGroup>::empty();
    let nothing = Multiset::<int>::empty();
    let whole = post.out_ids().add(id_of(pre.dropped(mv)));
    assert(ids_of_groups(no_groups) == nothing);
    assert forall|v: int| whole.count(v) == pre.out_ids().count(v) by {
        lemma_count_add(post.out_ids(), id_of(pre.dropped(mv)), v);
        lemma_out_ids_count(pre, v);
        lemma_out_ids_count(post, v);
        assert(nothing.count(v) == 0);
        match mv {
            Move::Loader(reply, step) => {
                let effects = step.effects@;
                lemma_loader_flow(pre.loader, reply, post.loader, step);
                lemma_loader_groups(pre.loader, reply, post.loader, step);
                let takes = reply matches LoaderReply::Transfer(Some(_));
                assert(groups_of_transfers(transfers_in(effects)) =~= no_groups);
                assert(passes(
                    groups_of_transfers(pre.transfers),
                    takes,
                    groups_of_transfers(transfers_in(effects)),
                    groups_of_transfers(post.transfers),
                ));
                lemma_passes_ids(
                    groups_of_transfers(pre.transfers),
                    takes,
                    groups_of_transfers(transfers_in(effects)),
                    groups_of_transfers(post.transfers),
                    v,
                );
                assert(passes(
                    groups_of_jobs(pre.jobs),
                    false,
                    groups_of_jobs(jobs_in(effects)),
                    groups_of_jobs(post.jobs),
                ));
                lemma_passes_ids(
                    groups_of_jobs(pre.jobs),
                    false,
                    groups_of_jobs(jobs_in(effects)),
                    groups_of_jobs(post.jobs),
                    v,
                );
                assert(post.finished =~= pre.finished);
                assert(post.free =~= pre.free);
                let held = id_of(post.loader.group_at_hand());
                let handed = ids_of_groups(groups_of_jobs(jobs_in(effects)));
                let dropped = id_of(InputLoader::dropped_with(pre.loader, reply));
                let before = id_of(pre.loader.group_at_hand());
                let came = id_of(InputLoader::<K>::group_with(reply));
                lemma_count_add(held, handed, v);
                lemma_count_add(held.add(handed), dropped, v);
                lemma_count_add(before, came, v);
            },
            Move::Tracker(reply, step) => {
                let effects = step.effects@;
                lemma_tracker_flow(pre.tracker, reply, post.tracker, step);
                lemma_tracker_groups(pre.tracker, reply, post.tracker, step);
                let takes = reply matches TrackerReply::Job(Some(_));
                assert(post.transfers =~= pre.transfers);
                assert(groups_of_jobs(jobs_in(effects)) =~= no_groups);
                assert(passes(
                    groups_of_jobs(pre.jobs),
                    takes,
                    groups_of_jobs(jobs_in(effects)),
                    groups_of_jobs(post.jobs),
                ));
                lemma_passes_ids(
                    groups_of_jobs(pre.jobs),
                    takes,
                    groups_of_jobs(jobs_in(effects)),
                    groups_of_jobs(post.jobs),
                    v,
                );
                assert(passes(
                    groups_of_jobs(pre.finished),
                    false,
                    groups_of_jobs(finished_in(effects)),
                    groups_of_jobs(post.finished),
                ));
                lemma_passes_ids(
                    groups_of_jobs(pre.finished),
                    false,
                    groups_of_jobs(finished_in(effects)),
                    groups_of_jobs(post.finished),
                    v,
                );
                assert(post.free =~= pre.free);
                let held = ids_of_groups(groups_of_jobs(post.tracker.pending@));
                let handed = ids_of_groups(groups_of_jobs(finished_in(effects)));
                let dropped = id_of(ExecutionTracker::dropped_with(pre.tracker, reply));
                let before = ids_of_groups(groups_of_jobs(pre.tracker.pending@));
                let came = id_of(ExecutionTracker::<K>::group_with(reply));
                lemma_count_add(held, handed, v);
                lemma_count_add(held.add(handed), dropped, v);
                lemma_count_add(before, came, v);
            },
            Move::Fetcher(reply, step) => {
                let effects = step.effects@;
                lemma_fetcher_flow(pre.fetcher, reply, post.fetcher, step);
                lemma_fetcher_groups(pre.fetcher, reply, post.fetcher, step);
                let takes = reply matches FetcherReply::Job(Some(_));
                assert(post.transfers =~= pre.transfers);
                assert(post.jobs =~= pre.jobs);
                assert(groups_of_jobs(finished_in(effects)) =~= no_groups);
                assert(passes(
                    groups_of_jobs(pre.finished),
                    takes,
                    groups_of_jobs(finished_in(effects)),
                    groups_of_jobs(post.finished),
                ));
                lemma_passes_ids(
                    groups_of_jobs(pre.finished),
                    takes,
                    groups_of_jobs(finished_in(effects)),
                    groups_of_jobs(post.finished),
                    v,
                );
                lemma_passes_ids(pre.free, false, releases_in(effects), post.free, v);
                let held = id_of(post.fetcher.group_at_hand());
                let given = ids_of_groups(releases_in(effects));
                let dropped = id_of(OutputFetcher::dropped_with(pre.fetcher, reply));
                let before = id_of(pre.fetcher.group_at_hand());
                let came = id_of(OutputFetcher::<K>::group_with(reply));
                lemma_count_add(held, given, v);
                lemma_count_add(held.add(given), dropped, v);
                lemma_count_add(before, came, v);
            },
        }
    }
    assert(whole =~= pre.out_ids());
}

/// What a move of the mapper does to the groups that are out: the group it
/// takes back is out no more, and the groups of the batches it hands on are.
pub proof fn lemma_fed_ids<K>(pre: Downstream<K>, takes_group: bool, effects: Seq<Effect<K>>, post: Downstream<K>)
    requires
        pre.fed(takes_group, effects, post),
        takes_group ==> pre.free.len() > 0,
        jobs_in(effects).len() == 0,
        finished_in(effects).len() == 0,
        releases_in(effects).len() == 0,
    ensures
        post.out_ids().add(
            if takes_group {
                id_of(Some(pre.free[0]))
            } else {
                id_of(None)
            },
        ) == pre.out_ids().add(ids_of_groups(groups_of_transfers(transfers_in(effects)))),
        takes_group ==> pre.out_ids().count(pre.free[0].id as int) > 0,
{
    broadcast use vstd::multiset::group_multiset_axioms;

    let no_groups = Seq::<DpuGroup>::empty();
    let nothing = Multiset::<int>::empty();
    let back = if takes_group {
        id_of(Some(pre.free[0]))
    } else {
        id_of(None)
    };
    let sent = ids_of_groups(groups_of_transfers(transfers_in(effects)));
    let left = post.out_ids().add(back);
    let right = pre.out_ids().add(sent);
    assert(ids_of_groups(no_groups) == nothing);
    assert(releases_in(effects) =~= no_groups);
    assert(post.jobs =~= pre.jobs);
    assert(post.finished =~= pre.finished);
    assert(passes(
        groups_of_transfers(pre.transfers),
        false,
        groups_of_transfers(transfers_in(effects)),
        groups_of_transfers(post.transfers),
    ));
    assert forall|v: int| left.count(v) == right.count(v) by {
        lemma_count_add(post.out_ids(), back, v);
        lemma_count_add(pre.out_ids(), sent, v);
        lemma_out_ids_count(pre, v);
        lemma_out_ids_count(post, v);
        assert(nothing.count(v) == 0);
        lemma_passes_ids(
            groups_of_transfers(pre.transfers),
            false,
            groups_of_transfers(transfers_in(effects)),
            groups_of_transfers(post.transfers),
            v,
        );
        lemma_passes_ids(pre.free, takes_group, releases_in(effects), post.free, v);
    }
    assert(left =~= right);
    if takes_group {
        let id = pre.free[0].id as int;
        lemma_out_ids_count(pre, id);
        lemma_ids_remove(pre.free, 0);
        let whole = ids_of_groups(pre.free.remove(0)).insert(id);
        assert(whole.count(id) > 0);
    }
}

impl<K, D: Hash + Eq> PersistentPipeline<K, D> {
    /// Every group is in one place: the groups that are out, together with
    /// the groups `lost` after failures, are exactly the groups that the
    /// mapper's table misses, each once.
    pub open spec fn in_one_place(self, lost: Multiset<int>) -> bool {
        &&& self.wf()
        &&& self.mapper.tidy()
        &&& self.rest.out_ids().add(lost) == away_ids(self.mapper.table@)
    }

    /// The group that `mv` drops, if it is a failure behind the mapper.
    pub open spec fn dropped(self, mv: PersistentMove<K, D>) -> Option<DpuGroup> {
        match mv {
            PersistentMove::Mapper(reply, step) => None,
            PersistentMove::Behind(mv) => self.rest.dropped(mv),
        }
    }
}

/// An entry that is away is away once.
pub proof fn lemma_away_once<K>(table: Seq<GroupSlots<K>>, id: int)
    requires
        distinct_entries(table),
    ensures
        away_ids(table).count(id) <= 1,
    decreases table.len(),
{
    if table.len() > 0 {
        assert forall|i: int, j: int| 0 <= i < j < table.drop_last().len() implies table.drop_last()[i].id
            != table.drop_last()[j].id by {
            assert(table.drop_last()[i] == table[i]);
            assert(table.drop_last()[j] == table[j]);
        }
        lemma_away_once(table.drop_last(), id);
        if !table.last().present && table.last().id == id {
            lemma_away_ids_of(table.drop_last(), id);
            if away_ids(table.drop_last()).count(id) > 0 {
                let g = choose|g: int|
                    0 <= g < table.drop_last().len() && (#[trigger] table.drop_last()[g]).id == id
                        && !table.drop_last()[g].present;
                assert(table[g] == table.drop_last()[g]);
                assert(table[g].id != table[table.len() - 1].id);
            }
        }
    }
}

/// A group is never in two places, at the start: where the mapper's groups
/// have identifiers of their own, a pipeline that was just started has every
/// group in the mapper's hands.
pub proof fn lemma_groups_are_in_one_place_initially<K, D: Hash + Eq>(
    pipeline: PersistentPipeline<K, D>,
    groups: Seq<DpuGroup>,
)
    requires
        pipeline.initial(groups),
        distinct_groups(groups),
    ensures
        pipeline.in_one_place(Multiset::empty()),
{
    let rest = pipeline.rest;
    let no_groups = Seq::<DpuGroup>::empty();
    assert(groups_of_transfers(rest.transfers) =~= no_groups);
    assert(groups_of_jobs(rest.jobs) =~= no_groups);
    assert(groups_of_jobs(rest.tracker.pending@) =~= no_groups);
    assert(groups_of_jobs(rest.finished) =~= no_groups);
    assert(rest.free =~= no_groups);
    assert(ids_of_groups(no_groups) == Multiset::<int>::empty());
    assert(rest.out_ids().add(Multiset::empty()) =~= away_ids(pipeline.mapper.table@));
}

/// A group is never in two places: over every move, the groups that are out
/// and the groups lost after failures are exactly the groups that the
/// mapper's table misses. Every identifier is out at most once, every group
/// that comes back is taken back into the table entry that misses it, and
/// none is set aside.
pub proof fn lemma_groups_are_in_one_place<K, D: Hash + Eq>(
    pre: PersistentPipeline<K, D>,
    mv: PersistentMove<K, D>,
    post: PersistentPipeline<K, D>,
    lost: Multiset<int>,
)
    requires
        pre.in_one_place(lost),
        pre.next(mv, post),
    ensures
        post.in_one_place(lost.add(id_of(pre.dropped(mv)))),
        post.mapper.strays@.len() == 0,
        forall|id: int| post.rest.out_ids().count(id) <= 1,
{
    broadcast use vstd::multiset::group_multiset_axioms;

    let more = lost.add(id_of(pre.dropped(mv)));
    match mv {
        PersistentMove::Mapper(reply, step) => {
            let takes = reply matches PersistentReply::Group(Some(_));
            lemma_persistent_mapper_flow(pre.mapper, reply, post.mapper, step);
            lemma_fed(pre.rest, takes, step.effects@, post.rest);
            lemma_fed_ids(pre.rest, takes, step.effects@, post.rest);
            match reply {
                PersistentReply::Group(Some(group)) => {
                    let before = pre.rest.out_ids();
                    let both = before.add(lost);
                    assert(both.count(group.id as int) == before.count(group.id as int) + lost.count(
                        group.id as int,
                    ));
                },
                _ => {},
            }
            lemma_persistent_mapper_ids(pre.mapper, reply, post.mapper, step);
            let sent = ids_of_groups(groups_of_transfers(transfers_in(step.effects@)));
            let back = id_of(PersistentMapper::<K, D>::group_with(reply));
            let out_after = post.rest.out_ids();
            let out_before = pre.rest.out_ids();
            let away_after = away_ids(post.mapper.table@);
            let away_before = away_ids(pre.mapper.table@);
            assert(out_after.add(back) == out_before.add(sent));
            assert(away_after.add(back) == away_before.add(sent));
            assert(out_before.add(lost) == away_before);
            let left = out_after.add(more).add(back);
            let right = away_after.add(back);
            assert forall|v: int| left.count(v) == right.count(v) by {
                let a = out_after.add(back);
                let b = out_before.add(sent);
                assert(a.count(v) == b.count(v));
                let c = away_after.add(back);
                let d = away_before.add(sent);
                assert(c.count(v) == d.count(v));
                let e = out_before.add(lost);
                assert(e.count(v) == away_before.count(v));
                let f = out_after.add(more);
                assert(left.count(v) == f.count(v) + back.count(v));
                assert(f.count(v) == out_after.count(v) + more.count(v));
                assert(more.count(v) == lost.count(v) + id_of(pre.dropped(mv)).count(v));
                assert(a.count(v) == out_after.count(v) + back.count(v));
                assert(b.count(v) == out_before.count(v) + sent.count(v));
                assert(c.count(v) == away_after.count(v) + back.count(v));
                assert(d.count(v) == away_before.count(v) + sent.count(v));
                assert(e.count(v) == out_before.count(v) + lost.count(v));
            }
            assert(left =~= right);
            lemma_cancel_ids(out_after.add(more), away_after, back);
        },
        PersistentMove::Behind(behind) => {
            let stopped = pre.mapper.phase == PersistentPhase::Stopped;
            lemma_downstream_groups(pre.rest, behind, stopped, post.rest);
            lemma_downstream_ids(pre.rest, behind, stopped, post.rest);
            let dropped = id_of(pre.rest.dropped(behind));
            let out_after = post.rest.out_ids();
            let out_before = pre.rest.out_ids();
            let a = out_after.add(dropped);
            assert(a == out_before);
            let left = out_after.add(more);
            let right = out_before.add(lost);
            assert forall|v: int| left.count(v) == right.count(v) by {
                assert(a.count(v) == out_after.count(v) + dropped.count(v));
                assert(more.count(v) == lost.count(v) + dropped.count(v));
                assert(left.count(v) == out_after.count(v) + more.count(v));
                assert(right.count(v) == out_before.count(v) + lost.count(v));
            }
            assert(left =~= right);
        },
    }
    assert forall|id: int| post.rest.out_ids().count(id) <= 1 by {
        lemma_away_once(post.mapper.table@, id);
        let out = post.rest.out_ids();
        let both = out.add(more);
        assert(both.count(id) == out.count(id) + more.count(id));
    }
}

} // verus!
