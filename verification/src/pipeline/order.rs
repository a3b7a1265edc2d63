//! The order in which the work items of one DPU leave the pipeline of the
//! persistent model.
//!
//! The items that come in for a DPU wait in the mapper, travel through the
//! stages with a batch of the DPU's group, and leave the pipeline when their
//! results are delivered or when their batch is dropped after a failure. The
//! law at the end says that they leave in the order in which they came in.

use crate::dpu::DpuId;
use crate::pipeline::flow::finished_in;
use crate::pipeline::flow::groups_of_jobs;
use crate::pipeline::flow::id_of;
use crate::pipeline::flow::ids_of_groups;
use crate::pipeline::flow::jobs_in;
use crate::pipeline::flow::lemma_project_all;
use crate::pipeline::flow::lemma_project_cut;
use crate::pipeline::flow::lemma_project_none;
use crate::pipeline::flow::outputs_in;
use crate::pipeline::flow::transfer_of;
use crate::pipeline::flow::transfers_in;
use crate::pipeline::model::Downstream;
use crate::pipeline::model::Move;
use crate::pipeline::model::PersistentMove;
use crate::pipeline::model::PersistentPipeline;
use crate::pipeline::model::lemma_away_once;
use crate::pipeline::model::lemma_count_add;
use crate::pipeline::model::lemma_fed;
use crate::pipeline::model::lemma_fed_ids;
use crate::pipeline::model::lemma_out_ids_count;
use crate::pipeline::stages::DpuGroup;
use crate::pipeline::stages::Effect;
use crate::pipeline::stages::GroupJob;
use crate::pipeline::stages::GroupTransfer;
use crate::pipeline::stages::Step;
use crate::pipeline::stages::active_of;
use crate::pipeline::stages::fetcher::FetcherPhase;
use crate::pipeline::stages::fetcher::FetcherReply;
use crate::pipeline::stages::fetcher::OutputFetcher;
use crate::pipeline::stages::fetcher::lemma_fetcher_flow;
use crate::pipeline::stages::loader::InputLoader;
use crate::pipeline::stages::loader::LoaderReply;
use crate::pipeline::stages::loader::lemma_loader_flow;
use crate::pipeline::stages::persistent::DpuSlot;
use crate::pipeline::stages::persistent::GroupSlots;
use crate::pipeline::stages::persistent::PersistentMapper;
use crate::pipeline::stages::persistent::PersistentPhase;
use crate::pipeline::stages::persistent::PersistentReply;
use crate::pipeline::stages::persistent::PersistentRequest;
use crate::pipeline::stages::persistent::batch_outputs;
use crate::pipeline::stages::persistent::flush_indices;
use crate::pipeline::stages::persistent::flushable;
use crate::pipeline::stages::routing::away_ids;
use crate::pipeline::stages::routing::distinct_entries;
use crate::pipeline::stages::routing::lemma_comes_back;
use crate::pipeline::stages::routing::lemma_deposited;
use crate::pipeline::stages::routing::lemma_flush_indices_bound;
use crate::pipeline::stages::routing::lemma_persistent_mapper_flow;
use crate::pipeline::stages::routing::lemma_refilled;
use crate::pipeline::stages::routing::line;
use crate::pipeline::stages::tracker::ExecutionTracker;
use crate::pipeline::stages::tracker::TrackerReply;
use crate::pipeline::stages::tracker::lemma_tracker_moves;
use crate::pipeline::transfer::MemoryTransfers;
use std::hash::Hash;
use vstd::multiset::Multiset;
use vstd::prelude::*;

verus! {

/// The keys of `items`, in order.
pub open spec fn keys_of<K>(items: Seq<MemoryTransfers<K>>) -> Seq<K> {
    Seq::new(items.len(), |i: int| items[i].key)
}

/// The position in a batch of the item of DPU number `d` of the group: the
/// number of active DPUs before it.
pub open spec fn rank(dpus: Seq<(DpuId, bool)>, d: int) -> int {
    active_of(dpus.subrange(0, d)).len() as int
}

/// The key that `job` carries for DPU number `d` of the group `id`: none
/// where the job is of another group or the DPU takes no part in it.
pub open spec fn carried<K>(job: GroupJob<K>, id: int, d: int) -> Seq<K> {
    if job.0.id == id && 0 <= d < job.0.dpus@.len() && job.0.dpus@[d].1 && rank(job.0.dpus@, d)
        < job.1@.len() {
        seq![job.1@[rank(job.0.dpus@, d)].0]
    } else {
        Seq::empty()
    }
}

/// The keys that `jobs` carry for DPU number `d` of the group `id`, oldest
/// job first.
pub open spec fn carried_by<K>(jobs: Seq<GroupJob<K>>, id: int, d: int) -> Seq<K>
    decreases jobs.len(),
{
    if jobs.len() == 0 {
        Seq::empty()
    } else {
        carried_by(jobs.drop_last(), id, d) + carried(jobs.last(), id, d)
    }
}

/// The key that the job at hand carries for DPU number `d` of the group
/// `id`.
pub open spec fn carried_at_hand<K>(current: Option<GroupJob<K>>, id: int, d: int) -> Seq<K> {
    match current {
        Some(job) => carried(job, id, d),
        None => Seq::empty(),
    }
}

/// The batches `transfers` as the jobs they become.
pub open spec fn jobs_of_transfers<K>(transfers: Seq<GroupTransfer<K>>) -> Seq<GroupJob<K>> {
    Seq::new(transfers.len(), |i: int| (transfers[i].0, transfers[i].2))
}

/// The keys of two sequences of jobs, one after the other.
pub proof fn lemma_carried_concat<K>(a: Seq<GroupJob<K>>, b: Seq<GroupJob<K>>, id: int, d: int)
    ensures
        carried_by(a + b, id, d) == carried_by(a, id, d) + carried_by(b, id, d),
    decreases b.len(),
{
    if b.len() == 0 {
        assert(a + b =~= a);
        assert(carried_by(a, id, d) + carried_by(b, id, d) =~= carried_by(a, id, d));
    } else {
        assert((a + b).drop_last() =~= a + b.drop_last());
        lemma_carried_concat(a, b.drop_last(), id, d);
        assert(carried_by(a + b, id, d) =~= carried_by(a, id, d) + carried_by(b, id, d));
    }
}

/// The key of a single job.
pub proof fn lemma_carried_one<K>(jobs: Seq<GroupJob<K>>, id: int, d: int)
    requires
        jobs.len() == 1,
    ensures
        carried_by(jobs, id, d) == carried(jobs[0], id, d),
{
    assert(jobs.drop_last() =~= Seq::<GroupJob<K>>::empty());
    assert(carried_by(jobs.drop_last(), id, d) =~= Seq::<K>::empty());
    assert(carried_by(jobs, id, d) =~= carried(jobs[0], id, d));
}

/// The keys of jobs with the oldest taken out in front.
pub proof fn lemma_carried_skip<K>(jobs: Seq<GroupJob<K>>, id: int, d: int)
    requires
        jobs.len() > 0,
    ensures
        carried_by(jobs, id, d) == carried(jobs[0], id, d) + carried_by(jobs.skip(1), id, d),
{
    assert(jobs =~= seq![jobs[0]] + jobs.skip(1));
    lemma_carried_concat(seq![jobs[0]], jobs.skip(1), id, d);
    lemma_carried_one(seq![jobs[0]], id, d);
}

/// The keys of jobs around the one at `at`.
pub proof fn lemma_carried_remove<K>(jobs: Seq<GroupJob<K>>, at: int, id: int, d: int)
    requires
        0 <= at < jobs.len(),
    ensures
        carried_by(jobs, id, d) == carried_by(jobs.subrange(0, at), id, d) + carried(jobs[at], id, d)
            + carried_by(jobs.subrange(at + 1, jobs.len() as int), id, d),
        carried_by(jobs.remove(at), id, d) == carried_by(jobs.subrange(0, at), id, d) + carried_by(
            jobs.subrange(at + 1, jobs.len() as int),
            id,
            d,
        ),
{
    let front = jobs.subrange(0, at);
    let back = jobs.subrange(at + 1, jobs.len() as int);
    let one = seq![jobs[at]];
    assert(jobs =~= front + one + back);
    assert(jobs.remove(at) =~= front + back);
    lemma_carried_concat(front + one, back, id, d);
    lemma_carried_concat(front, one, id, d);
    lemma_carried_concat(front, back, id, d);
    lemma_carried_one(one, id, d);
}

/// Jobs of other groups carry no key of the group `id`.
pub proof fn lemma_carried_none<K>(jobs: Seq<GroupJob<K>>, id: int, d: int)
    requires
        ids_of_groups(groups_of_jobs(jobs)).count(id) == 0,
    ensures
        carried_by(jobs, id, d) == Seq::<K>::empty(),
    decreases jobs.len(),
{
    if jobs.len() > 0 {
        let groups = groups_of_jobs(jobs);
        assert(groups.drop_last() =~= groups_of_jobs(jobs.drop_last()));
        assert(groups.last() == jobs.last().0);
        lemma_carried_none(jobs.drop_last(), id, d);
        assert(carried_by(jobs, id, d) =~= Seq::<K>::empty());
    }
}

/// A job that carries a key of the group `id` is of that group.
pub proof fn lemma_carried_counts<K>(jobs: Seq<GroupJob<K>>, at: int, id: int, d: int)
    requires
        0 <= at < jobs.len(),
        jobs[at].0.id == id,
    ensures
        ids_of_groups(groups_of_jobs(jobs)).count(id) >= 1 + ids_of_groups(
            groups_of_jobs(jobs.subrange(0, at)),
        ).count(id) + ids_of_groups(groups_of_jobs(jobs.subrange(at + 1, jobs.len() as int))).count(
            id,
        ),
{
    broadcast use vstd::multiset::group_multiset_axioms;

    let groups = groups_of_jobs(jobs);
    let front = groups_of_jobs(jobs.subrange(0, at));
    let back = groups_of_jobs(jobs.subrange(at + 1, jobs.len() as int));
    crate::pipeline::flow::lemma_ids_remove(groups, at);
    assert(groups.remove(at) =~= front + back);
    crate::pipeline::flow::lemma_ids_concat(front, back);
    let rest = ids_of_groups(front).add(ids_of_groups(back));
    assert(rest.count(id) == ids_of_groups(front).count(id) + ids_of_groups(back).count(id));
    let whole = ids_of_groups(groups.remove(at)).insert(id);
    assert(whole.count(id) == rest.count(id) + 1);
}

/// The number of items of the first `d` slots that a batch holds is the
/// number of active DPUs among the first `d` DPUs of its group.
proof fn lemma_rank<K>(slots: Seq<DpuSlot<K>>, dpus: Seq<(DpuId, bool)>, d: int)
    requires
        0 <= d <= slots.len(),
        dpus =~= Seq::new(slots.len(), |o: int| (slots[o].dpu, slots[o].item is Some)),
    ensures
        rank(dpus, d) == batch_outputs(slots.subrange(0, d)).len(),
    decreases d,
{
    if d > 0 {
        lemma_rank(slots, dpus, d - 1);
        assert(dpus.subrange(0, d).drop_last() =~= dpus.subrange(0, d - 1));
        assert(slots.subrange(0, d).drop_last() =~= slots.subrange(0, d - 1));
        assert(dpus.subrange(0, d).last() == dpus[d - 1]);
        assert(slots.subrange(0, d).last() == slots[d - 1]);
    } else {
        assert(dpus.subrange(0, 0) =~= Seq::<(DpuId, bool)>::empty());
        assert(slots.subrange(0, 0) =~= Seq::<DpuSlot<K>>::empty());
    }
}

/// A batch holds the item of a filled slot at the place that the items of
/// the slots before it leave free.
proof fn lemma_batch_at<K>(slots: Seq<DpuSlot<K>>, d: int)
    requires
        0 <= d < slots.len(),
        slots[d].item is Some,
    ensures
        batch_outputs(slots.subrange(0, d)).len() < batch_outputs(slots).len(),
        batch_outputs(slots)[batch_outputs(slots.subrange(0, d)).len() as int] == (
            slots[d].item.unwrap().key,
            slots[d].item.unwrap().output,
        ),
    decreases slots.len(),
{
    if d == slots.len() - 1 {
        assert(slots.subrange(0, d) =~= slots.drop_last());
    } else {
        lemma_batch_at(slots.drop_last(), d);
        assert(slots.drop_last().subrange(0, d) =~= slots.subrange(0, d));
    }
}

/// What a batch that leaves carries for one DPU of its group: the key of the
/// item that was first in the DPU's line, if the DPU had an item in the
/// batch; and what stays in line is what was behind it.
pub proof fn lemma_ship_order<K>(mid: GroupSlots<K>, transfer: GroupTransfer<K>, post: GroupSlots<K>, d: int)
    requires
        0 <= d < mid.dpus@.len(),
        mid.ships(transfer),
        mid.shipped(post),
    ensures
        keys_of(line(mid.dpus@[d])) == carried((transfer.0, transfer.2), mid.id as int, d) + keys_of(
            line(post.dpus@[d]),
        ),
{
    let job = (transfer.0, transfer.2);
    let cell = mid.dpus@[d];
    assert(cell.freed(post.dpus@[d]));
    lemma_rank(mid.dpus@, transfer.0.dpus@, d);
    if cell.item is Some {
        lemma_batch_at(mid.dpus@, d);
        assert(line(post.dpus@[d]) =~= line(cell).skip(1));
        assert(keys_of(line(cell)) =~= carried(job, mid.id as int, d) + keys_of(
            line(post.dpus@[d]),
        ));
    } else {
        assert(line(post.dpus@[d]) =~= line(cell));
        assert(carried(job, mid.id as int, d) =~= Seq::<K>::empty());
        assert(keys_of(line(cell)) =~= carried(job, mid.id as int, d) + keys_of(
            line(post.dpus@[d]),
        ));
    }
}

/// What a group that was just filled sends, for one of its DPUs.
proof fn lemma_sends_order<K, D: Hash + Eq>(
    mid: GroupSlots<K>,
    leaves: bool,
    post: GroupSlots<K>,
    effects: Seq<Effect<K>>,
    d: int,
)
    requires
        0 <= d < mid.dpus@.len(),
        PersistentMapper::<K, D>::sends(mid, leaves, post, effects),
    ensures
        post.id == mid.id,
        post.dpus@.len() == mid.dpus@.len(),
        keys_of(line(mid.dpus@[d])) == carried_by(
            jobs_of_transfers(transfers_in(effects)),
            mid.id as int,
            d,
        ) + keys_of(line(post.dpus@[d])),
{
    lemma_project_all(effects, |e: Effect<K>| transfer_of(e));
    let jobs = jobs_of_transfers(transfers_in(effects));
    if leaves {
        let transfer = effects[0]->Transfer_0;
        lemma_ship_order(mid, transfer, post, d);
        assert(jobs[0] == (transfer.0, transfer.2));
        lemma_carried_one(jobs, mid.id as int, d);
    } else {
        assert(jobs =~= Seq::<GroupJob<K>>::empty());
        assert(keys_of(line(mid.dpus@[d])) =~= carried_by(jobs, mid.id as int, d) + keys_of(
            line(post.dpus@[d]),
        ));
    }
}

/// What a group that was just filled sends carries nothing of another
/// group's.
proof fn lemma_sends_other<K, D: Hash + Eq>(
    mid: GroupSlots<K>,
    leaves: bool,
    post: GroupSlots<K>,
    effects: Seq<Effect<K>>,
    other: int,
    d: int,
)
    requires
        PersistentMapper::<K, D>::sends(mid, leaves, post, effects),
        other != mid.id,
    ensures
        post.id == mid.id,
        carried_by(jobs_of_transfers(transfers_in(effects)), other, d) == Seq::<K>::empty(),
{
    lemma_project_all(effects, |e: Effect<K>| transfer_of(e));
    let jobs = jobs_of_transfers(transfers_in(effects));
    if leaves {
        let transfer = effects[0]->Transfer_0;
        assert(jobs[0] == (transfer.0, transfer.2));
        lemma_carried_one(jobs, other, d);
    } else {
        assert(jobs =~= Seq::<GroupJob<K>>::empty());
    }
}

/// When the input ends, the batches that leave carry, for one DPU of one
/// group, the key of the item that was first in its line, and nothing of
/// any other group's.
proof fn lemma_flushed_order<K>(
    pre: Seq<GroupSlots<K>>,
    post: Seq<GroupSlots<K>>,
    sent: Seq<Effect<K>>,
    id: int,
    d: int,
)
    requires
        post.len() == pre.len(),
        distinct_entries(pre),
        forall|g: int|
            0 <= g < pre.len() ==> if flushable(#[trigger] pre[g]) {
                pre[g].shipped(post[g])
            } else {
                post[g] == pre[g]
            },
        sent.len() == flush_indices(pre).len(),
        forall|k: int|
            0 <= k < sent.len() ==> {
                &&& (#[trigger] sent[k]) matches Effect::Transfer(transfer)
                &&& pre[flush_indices(pre)[k]].ships(transfer)
            },
    ensures
        forall|g: int|
            0 <= g < pre.len() && (#[trigger] pre[g]).id == id && 0 <= d < pre[g].dpus@.len()
                ==> keys_of(line(pre[g].dpus@[d])) == carried_by(
                jobs_of_transfers(transfers_in(sent)),
                id,
                d,
            ) + keys_of(line(post[g].dpus@[d])),
        (forall|g: int| 0 <= g < pre.len() ==> (#[trigger] pre[g]).id != id) ==> carried_by(
            jobs_of_transfers(transfers_in(sent)),
            id,
            d,
        ) == Seq::<K>::empty(),
    decreases pre.len(),
{
    lemma_project_all(sent, |e: Effect<K>| transfer_of(e));
    let jobs = jobs_of_transfers(transfers_in(sent));
    let nothing = Seq::<K>::empty();
    if pre.len() == 0 {
        assert(jobs =~= Seq::<GroupJob<K>>::empty());
    } else {
        let last = pre.len() - 1;
        let shorter = pre.drop_last();
        lemma_flush_indices_bound(shorter);
        assert(post.last() == post[last]);
        assert(pre.last() == pre[last]);
        assert forall|g: int| 0 <= g < shorter.len() implies if flushable(#[trigger] shorter[g]) {
            shorter[g].shipped(post.drop_last()[g])
        } else {
            post.drop_last()[g] == shorter[g]
        } by {
            assert(shorter[g] == pre[g]);
            assert(post.drop_last()[g] == post[g]);
        }
        assert forall|i: int, j: int| 0 <= i < j < shorter.len() implies shorter[i].id
            != shorter[j].id by {
            assert(shorter[i] == pre[i]);
            assert(shorter[j] == pre[j]);
        }
        let rest = if flushable(pre.last()) {
            sent.drop_last()
        } else {
            sent
        };
        assert forall|k: int| 0 <= k < rest.len() implies {
            &&& (#[trigger] rest[k]) matches Effect::Transfer(transfer)
            &&& shorter[flush_indices(shorter)[k]].ships(transfer)
        } by {
            assert(rest[k] == sent[k]);
            assert(flush_indices(pre)[k] == flush_indices(shorter)[k]);
            assert(shorter[flush_indices(shorter)[k]] == pre[flush_indices(shorter)[k]]);
        }
        lemma_flushed_order(shorter, post.drop_last(), rest, id, d);
        lemma_project_all(rest, |e: Effect<K>| transfer_of(e));
        let before = jobs_of_transfers(transfers_in(rest));
        // What the last entry adds to the keys that are carried.
        let added = if flushable(pre.last()) {
            carried((sent.last()->Transfer_0.0, sent.last()->Transfer_0.2), id, d)
        } else {
            nothing
        };
        if flushable(pre.last()) {
            let transfer = sent.last()->Transfer_0;
            assert(flush_indices(pre)[sent.len() - 1] == last);
            assert(pre[last].ships(transfer));
            assert(jobs.drop_last() =~= before);
            assert(jobs.last() == (transfer.0, transfer.2));
            assert(carried_by(jobs, id, d) =~= carried_by(before, id, d) + added);
        } else {
            assert(carried_by(jobs, id, d) =~= carried_by(before, id, d) + added);
        }
        if pre[last].id != id {
            assert(added =~= nothing);
        }
        assert forall|g: int|
            0 <= g < pre.len() && (#[trigger] pre[g]).id == id && 0 <= d
                < pre[g].dpus@.len() implies keys_of(line(pre[g].dpus@[d])) == carried_by(jobs, id, d)
            + keys_of(line(post[g].dpus@[d])) by {
            if g == last {
                // No entry before the last has this identifier.
                assert forall|o: int| 0 <= o < shorter.len() implies (#[trigger] shorter[o]).id != id by {
                    assert(shorter[o] == pre[o]);
                }
                assert(carried_by(before, id, d) == nothing);
                if flushable(pre.last()) {
                    lemma_ship_order(pre[last], sent.last()->Transfer_0, post[last], d);
                }
                assert(keys_of(line(pre[g].dpus@[d])) =~= carried_by(jobs, id, d) + keys_of(
                    line(post[g].dpus@[d]),
                ));
            } else {
                assert(shorter[g] == pre[g]);
                assert(post.drop_last()[g] == post[g]);
                assert(pre[last].id != id);
                assert(keys_of(line(pre[g].dpus@[d])) =~= carried_by(jobs, id, d) + keys_of(
                    line(post[g].dpus@[d]),
                ));
            }
        }
        if forall|g: int| 0 <= g < pre.len() ==> (#[trigger] pre[g]).id != id {
            assert forall|o: int| 0 <= o < shorter.len() implies (#[trigger] shorter[o]).id != id by {
                assert(shorter[o] == pre[o]);
            }
            assert(carried_by(jobs, id, d) =~= nothing);
        }
    }
}

/// Per-DPU order at the mapper, by keys: over every step of a mapper whose
/// books are in order, the keys of the items that were in line for a DPU and
/// of the item that has come in for it are the key that leaves with a batch
/// of the DPU's group followed by the keys of the items that stay in line.
pub proof fn lemma_mapper_order<K, D: Hash + Eq>(
    pre: PersistentMapper<K, D>,
    reply: PersistentReply<K, D>,
    post: PersistentMapper<K, D>,
    step: Step<K, PersistentRequest>,
    g: int,
    d: int,
)
    requires
        pre.wf(),
        pre.tidy(),
        PersistentMapper::<K, D>::expects(pre.phase, reply),
        PersistentMapper::resumes(pre, reply, post, step),
        reply matches PersistentReply::Group(Some(group)) ==> away_ids(pre.table@).count(
            group.id as int,
        ) > 0,
        0 <= g < pre.table@.len(),
        0 <= d < pre.table@[g].dpus@.len(),
    ensures
        g < post.table@.len(),
        d < post.table@[g].dpus@.len(),
        post.table@[g].id == pre.table@[g].id,
        keys_of(line(pre.table@[g].dpus@[d]) + PersistentMapper::arriving(pre, reply, g, d))
            == carried_by(
            jobs_of_transfers(transfers_in(step.effects@)),
            pre.table@[g].id as int,
            d,
        ) + keys_of(line(post.table@[g].dpus@[d])),
{
    let effects = step.effects@;
    let id = pre.table@[g].id as int;
    let cell = pre.table@[g].dpus@[d];
    let arriving = PersistentMapper::arriving(pre, reply, g, d);
    let jobs = jobs_of_transfers(transfers_in(effects));
    let no_jobs = Seq::<GroupJob<K>>::empty();
    let nothing = Seq::<K>::empty();
    let pick = |e: Effect<K>| transfer_of(e);
    lemma_persistent_mapper_flow(pre, reply, post, step);
    match (pre.phase, reply) {
        (PersistentPhase::Loading, PersistentReply::Copied(Ok(_))) => {
            lemma_project_none(effects, pick);
            assert(jobs =~= no_jobs);
            assert(post.table@[g] == post.table@.drop_last()[g]);
            assert(keys_of(line(cell) + arriving) =~= carried_by(jobs, id, d) + keys_of(
                line(post.table@[g].dpus@[d]),
            ));
        },
        (PersistentPhase::AwaitingInput, PersistentReply::Input(Some(input))) => {
            match PersistentMapper::route(pre, input.0) {
                Some((target, slot)) => {
                    let mid = choose|mid: GroupSlots<K>|
                        {
                            &&& #[trigger] pre.table@[target].deposited(slot, input.1, mid)
                            &&& PersistentMapper::<K, D>::sends(
                                mid,
                                mid.present && mid.complete(),
                                post.table@[target],
                                effects,
                            )
                        };
                    lemma_deposited(pre.table@[target], slot, input.1, mid);
                    if target == g {
                        lemma_sends_order::<K, D>(
                            mid,
                            mid.present && mid.complete(),
                            post.table@[g],
                            effects,
                            d,
                        );
                        if slot == d {
                            assert(line(cell) + arriving =~= line(mid.dpus@[d]));
                        } else {
                            assert(mid.dpus@[d] == cell);
                            assert(line(cell) + arriving =~= line(mid.dpus@[d]));
                        }
                    } else {
                        if target < g {
                            assert(pre.table@[target].id != pre.table@[g].id);
                        } else {
                            assert(pre.table@[g].id != pre.table@[target].id);
                        }
                        lemma_sends_other::<K, D>(
                            mid,
                            mid.present && mid.complete(),
                            post.table@[target],
                            effects,
                            id,
                            d,
                        );
                        assert(post.table@[g] == pre.table@[g]);
                        assert(line(cell) + arriving =~= line(cell));
                        assert(keys_of(line(cell) + arriving) =~= carried_by(jobs, id, d) + keys_of(
                            line(post.table@[g].dpus@[d]),
                        ));
                    }
                },
                None => {
                    lemma_project_none(effects, pick);
                    assert(jobs =~= no_jobs);
                    assert(line(cell) + arriving =~= line(cell));
                    assert(keys_of(line(cell) + arriving) =~= carried_by(jobs, id, d) + keys_of(
                        line(post.table@[g].dpus@[d]),
                    ));
                },
            }
        },
        (PersistentPhase::AwaitingInput, PersistentReply::Input(None)) => {
            let leaving = flush_indices(pre.table@);
            let first = effects.subrange(0, leaving.len() as int);
            assert forall|k: int| 0 <= k < first.len() implies {
                &&& (#[trigger] first[k]) matches Effect::Transfer(transfer)
                &&& pre.table@[leaving[k]].ships(transfer)
            } by {
                assert(first[k] == effects[k]);
            }
            lemma_flushed_order(pre.table@, post.table@, first, id, d);
            lemma_project_cut(effects, leaving.len() as int, pick);
            assert(line(cell) + arriving =~= line(cell));
            if flushable(pre.table@[g]) {
            } else {
                assert(post.table@[g] == pre.table@[g]);
            }
        },
        (PersistentPhase::Polling, PersistentReply::Group(Some(group))) => {
            let target = lemma_comes_back(pre, group);
            let mid = choose|mid: GroupSlots<K>|
                {
                    &&& #[trigger] pre.table@[target].refilled(mid)
                    &&& PersistentMapper::<K, D>::sends(mid, mid.complete(), post.table@[target], effects)
                };
            lemma_refilled(pre.table@[target], mid);
            assert(line(cell) + arriving =~= line(cell));
            if target == g {
                lemma_sends_order::<K, D>(mid, mid.complete(), post.table@[g], effects, d);
            } else {
                if target < g {
                    assert(pre.table@[target].id != pre.table@[g].id);
                } else {
                    assert(pre.table@[g].id != pre.table@[target].id);
                }
                lemma_sends_other::<K, D>(mid, mid.complete(), post.table@[target], effects, id, d);
                assert(post.table@[g] == pre.table@[g]);
                assert(keys_of(line(cell) + arriving) =~= carried_by(jobs, id, d) + keys_of(
                    line(post.table@[g].dpus@[d]),
                ));
            }
        },
        (PersistentPhase::Flushing, PersistentReply::Group(Some(group))) => {
            let target = lemma_comes_back(pre, group);
            let n = PersistentMapper::sent_back(pre, post, target);
            let first = effects.subrange(0, n);
            let mid = choose|mid: GroupSlots<K>|
                {
                    &&& #[trigger] pre.table@[target].refilled(mid)
                    &&& PersistentMapper::<K, D>::sends(mid, mid.started(), post.table@[target], first)
                };
            lemma_refilled(pre.table@[target], mid);
            lemma_project_cut(effects, n, pick);
            assert(line(cell) + arriving =~= line(cell));
            if target == g {
                lemma_sends_order::<K, D>(mid, mid.started(), post.table@[g], first, d);
            } else {
                if target < g {
                    assert(pre.table@[target].id != pre.table@[g].id);
                } else {
                    assert(pre.table@[g].id != pre.table@[target].id);
                }
                lemma_sends_other::<K, D>(mid, mid.started(), post.table@[target], first, id, d);
                assert(post.table@[g] == pre.table@[g]);
                assert(keys_of(line(cell) + arriving) =~= carried_by(jobs, id, d) + keys_of(
                    line(post.table@[g].dpus@[d]),
                ));
            }
        },
        _ => {
            lemma_project_none(effects, pick);
            assert(jobs =~= no_jobs);
            assert(line(cell) + arriving =~= line(cell));
            assert(keys_of(line(cell) + arriving) =~= carried_by(jobs, id, d) + keys_of(
                line(post.table@[g].dpus@[d]),
            ));
        },
    }
}

/// The keys that are in flight behind the mapper for DPU number `d` of the
/// group `id`, the one furthest along first.
pub open spec fn flying<K>(rest: Downstream<K>, id: int, d: int) -> Seq<K> {
    carried_at_hand(rest.fetcher.current, id, d) + carried_by(rest.finished, id, d) + carried_by(
        rest.tracker.pending@,
        id,
        d,
    ) + carried_by(rest.jobs, id, d) + carried_at_hand(rest.loader.current, id, d) + carried_by(
        jobs_of_transfers(rest.transfers),
        id,
        d,
    )
}

/// The key that leaves the pipeline with the move `mv` for DPU number `d` of
/// the group `id`: the key of a result that the fetcher delivers, or of an
/// item whose batch is dropped after a failure.
pub open spec fn leaving<K>(rest: Downstream<K>, mv: Move<K>, id: int, d: int) -> Seq<K> {
    match mv {
        Move::Fetcher(FetcherReply::Copied(_), step) => carried_at_hand(rest.fetcher.current, id, d),
        Move::Loader(LoaderReply::Done(Err(_)), step) => carried_at_hand(rest.loader.current, id, d),
        Move::Tracker(reply, step) => if ExecutionTracker::drops_with(rest.tracker, reply) {
            carried(rest.tracker.pending@[rest.tracker.cursor as int], id, d)
        } else {
            Seq::empty()
        },
        _ => Seq::empty(),
    }
}

/// A group without an active DPU has no DPU that takes part in a job.
proof fn lemma_no_active(dpus: Seq<(DpuId, bool)>, d: int)
    requires
        active_of(dpus).len() == 0,
        0 <= d < dpus.len(),
    ensures
        !dpus[d].1,
    decreases dpus.len(),
{
    if d < dpus.len() - 1 {
        lemma_no_active(dpus.drop_last(), d);
    }
}

/// A job at hand of another group carries no key of the group `id`.
proof fn lemma_at_hand_none<K>(current: Option<GroupJob<K>>, group: Option<DpuGroup>, id: int, d: int)
    requires
        group == match current {
            Some(job) => Some(job.0),
            None => None,
        },
        id_of(group).count(id) == 0,
    ensures
        carried_at_hand(current, id, d) == Seq::<K>::empty(),
{
    broadcast use vstd::multiset::group_multiset_axioms;

    match current {
        Some(job) => {
            let one = Multiset::<int>::empty().insert(job.0.id as int);
            assert(one.count(job.0.id as int) > 0);
        },
        None => {},
    }
}

/// A job at hand of the group `id` counts among the groups that are out.
proof fn lemma_at_hand_counts<K>(current: Option<GroupJob<K>>, group: Option<DpuGroup>, id: int, d: int)
    requires
        group == match current {
            Some(job) => Some(job.0),
            None => None,
        },
        carried_at_hand(current, id, d).len() > 0,
    ensures
        id_of(group).count(id) >= 1,
{
    broadcast use vstd::multiset::group_multiset_axioms;

    let one = Multiset::<int>::empty().insert(id);
    assert(one.count(id) > 0);
}

/// Over a move of the loader, the keys that the loader's side of the
/// pipeline carries for a DPU keep their order, but for the key of a batch
/// that the loader drops.
proof fn lemma_loader_order<K>(
    pre: Downstream<K>,
    reply: LoaderReply<K>,
    step: Step<K, crate::pipeline::stages::loader::LoaderRequest>,
    mapper_stopped: bool,
    post: Downstream<K>,
    id: int,
    d: int,
)
    requires
        pre.wf(),
        pre.next(Move::Loader(reply, step), mapper_stopped, post),
    ensures
        post.fetcher == pre.fetcher,
        post.tracker == pre.tracker,
        post.finished == pre.finished,
        carried_by(post.jobs, id, d) + carried_at_hand(post.loader.current, id, d) + carried_by(
            jobs_of_transfers(post.transfers),
            id,
            d,
        ) == carried_by(pre.jobs, id, d) + (if InputLoader::<K>::fails_with(reply) {
            Seq::<K>::empty()
        } else {
            carried_at_hand(pre.loader.current, id, d)
        }) + carried_by(jobs_of_transfers(pre.transfers), id, d),
{
    let no_jobs = Seq::<GroupJob<K>>::empty();
    let nothing = Seq::<K>::empty();
    let effects = step.effects@;
    lemma_loader_flow(pre.loader, reply, post.loader, step);
    assert(post.finished =~= pre.finished);
    assert(transfers_in(effects) =~= Seq::<GroupTransfer<K>>::empty());
    let handed = jobs_in(effects);
    assert(post.jobs =~= pre.jobs + handed);
    lemma_carried_concat(pre.jobs, handed, id, d);
    assert(carried_by(no_jobs, id, d) == nothing);
    if handed.len() == 0 {
        assert(handed =~= no_jobs);
    } else {
        lemma_carried_one(handed, id, d);
    }
    let in_jobs = carried_by(pre.jobs, id, d);
    let at_loader = carried_at_hand(pre.loader.current, id, d);
    let in_transfers = carried_by(jobs_of_transfers(pre.transfers), id, d);
    let goal_left = carried_by(post.jobs, id, d) + carried_at_hand(post.loader.current, id, d)
        + carried_by(jobs_of_transfers(post.transfers), id, d);
    match reply {
        LoaderReply::Transfer(Some(transfer)) => {
            let job = (transfer.0, transfer.2);
            let waiting = jobs_of_transfers(pre.transfers);
            assert(waiting[0] == job);
            assert(jobs_of_transfers(post.transfers) =~= waiting.skip(1));
            lemma_carried_skip(waiting, id, d);
            assert(InputLoader::job_with(pre.loader, reply) == Some(job));
            assert(at_loader == nothing);
            assert(goal_left =~= in_jobs + at_loader + in_transfers);
        },
        LoaderReply::Done(Err(_)) => {
            assert(post.transfers =~= pre.transfers);
            assert(goal_left =~= in_jobs + nothing + in_transfers);
        },
        _ => {
            assert(post.transfers =~= pre.transfers);
            assert(goal_left =~= in_jobs + at_loader + in_transfers);
        },
    }
}

/// Over a move of the tracker that drops no job and settles none that
/// carries a key for the DPU behind another that does, the keys that the
/// tracker's side of the pipeline carries for the DPU keep their order.
proof fn lemma_tracker_order<K>(
    pre: Downstream<K>,
    reply: TrackerReply<K>,
    step: Step<K, crate::pipeline::stages::tracker::TrackerRequest>,
    mapper_stopped: bool,
    post: Downstream<K>,
    id: int,
    d: int,
)
    requires
        pre.wf(),
        pre.next(Move::Tracker(reply, step), mapper_stopped, post),
        ExecutionTracker::settles_with(pre.tracker, reply) && carried(
            pre.tracker.pending@[pre.tracker.cursor as int],
            id,
            d,
        ).len() > 0 ==> carried_by(pre.tracker.pending@.subrange(0, pre.tracker.cursor as int), id, d)
            == Seq::<K>::empty(),
    ensures
        post.fetcher == pre.fetcher,
        post.loader == pre.loader,
        post.transfers == pre.transfers,
        carried_by(post.finished, id, d) + carried_by(post.tracker.pending@, id, d) + carried_by(
            post.jobs,
            id,
            d,
        ) == carried_by(pre.finished, id, d) + (if ExecutionTracker::drops_with(pre.tracker, reply) {
            carried_by(pre.tracker.pending@.remove(pre.tracker.cursor as int), id, d)
        } else {
            carried_by(pre.tracker.pending@, id, d)
        }) + carried_by(pre.jobs, id, d),
{
    let no_jobs = Seq::<GroupJob<K>>::empty();
    let nothing = Seq::<K>::empty();
    let effects = step.effects@;
    lemma_tracker_moves(pre.tracker, reply, post.tracker, step);
    crate::pipeline::stages::tracker::lemma_tracker_flow(pre.tracker, reply, post.tracker, step);
    assert(post.transfers =~= pre.transfers);
    let handed = finished_in(effects);
    assert(post.finished =~= pre.finished + handed);
    lemma_carried_concat(pre.finished, handed, id, d);
    assert(carried_by(no_jobs, id, d) == nothing);
    if handed.len() == 0 {
        assert(handed =~= no_jobs);
    } else {
        lemma_carried_one(handed, id, d);
    }
    let in_finished = carried_by(pre.finished, id, d);
    let in_pending = carried_by(pre.tracker.pending@, id, d);
    let in_jobs = carried_by(pre.jobs, id, d);
    let goal_left = carried_by(post.finished, id, d) + carried_by(post.tracker.pending@, id, d)
        + carried_by(post.jobs, id, d);
    match reply {
        TrackerReply::Job(Some(job)) => {
            assert(pre.jobs[0] == job);
            assert(post.jobs =~= pre.jobs.skip(1));
            lemma_carried_skip(pre.jobs, id, d);
            if job.0.active().len() > 0 {
                assert(post.tracker.pending@ =~= pre.tracker.pending@ + seq![job]);
                lemma_carried_concat(pre.tracker.pending@, seq![job], id, d);
                lemma_carried_one(seq![job], id, d);
            } else {
                if 0 <= d < job.0.dpus@.len() {
                    lemma_no_active(job.0.dpus@, d);
                }
                assert(carried(job, id, d) =~= nothing);
            }
            assert(goal_left =~= in_finished + in_pending + in_jobs);
        },
        _ => {
            assert(post.jobs =~= pre.jobs);
            if ExecutionTracker::settles_with(pre.tracker, reply) {
                let c = pre.tracker.cursor as int;
                lemma_carried_remove(pre.tracker.pending@, c, id, d);
                if ExecutionTracker::drops_with(pre.tracker, reply) {
                    assert(goal_left =~= in_finished + carried_by(
                        pre.tracker.pending@.remove(c),
                        id,
                        d,
                    ) + in_jobs);
                } else {
                    assert(goal_left =~= in_finished + in_pending + in_jobs);
                }
            } else {
                assert(goal_left =~= in_finished + in_pending + in_jobs);
            }
        },
    }
}

/// Over a move of the fetcher, the keys that the fetcher's side of the
/// pipeline carries for a DPU keep their order, but for the key of the job
/// that the fetcher is done with.
proof fn lemma_fetcher_order<K>(
    pre: Downstream<K>,
    reply: FetcherReply<K>,
    step: Step<K, crate::pipeline::stages::fetcher::FetcherRequest>,
    mapper_stopped: bool,
    post: Downstream<K>,
    id: int,
    d: int,
)
    requires
        pre.wf(),
        pre.next(Move::Fetcher(reply, step), mapper_stopped, post),
    ensures
        post.tracker == pre.tracker,
        post.loader == pre.loader,
        post.transfers == pre.transfers,
        post.jobs == pre.jobs,
        leaving(pre, Move::Fetcher(reply, step), id, d) + (carried_at_hand(
            post.fetcher.current,
            id,
            d,
        ) + carried_by(post.finished, id, d)) == carried_at_hand(pre.fetcher.current, id, d)
            + carried_by(pre.finished, id, d),
{
    let no_jobs = Seq::<GroupJob<K>>::empty();
    let nothing = Seq::<K>::empty();
    let effects = step.effects@;
    let left = leaving(pre, Move::Fetcher(reply, step), id, d);
    lemma_fetcher_flow(pre.fetcher, reply, post.fetcher, step);
    assert(post.transfers =~= pre.transfers);
    assert(post.jobs =~= pre.jobs);
    assert(finished_in(effects) =~= no_jobs);
    let at_fetcher = carried_at_hand(pre.fetcher.current, id, d);
    let in_finished = carried_by(pre.finished, id, d);
    let goal_left = left + (carried_at_hand(post.fetcher.current, id, d) + carried_by(
        post.finished,
        id,
        d,
    ));
    match reply {
        FetcherReply::Job(Some(job)) => {
            assert(pre.finished[0] == job);
            assert(post.finished =~= pre.finished.skip(1));
            lemma_carried_skip(pre.finished, id, d);
            assert(goal_left =~= at_fetcher + in_finished);
        },
        _ => {
            assert(post.finished =~= pre.finished);
            assert(goal_left =~= at_fetcher + in_finished);
        },
    }
}

/// Runs of keys taken together do not depend on how they are grouped.
proof fn lemma_regroup<K>(a: Seq<K>, b: Seq<K>, c: Seq<K>, e: Seq<K>, f: Seq<K>, h: Seq<K>)
    ensures
        a + b + c + e + f + h == (a + b) + c + (e + f + h),
        a + b + c + e + f + h == a + (b + c + e) + (f + h),
{
    assert(a + b + c + e + f + h =~= (a + b) + c + (e + f + h));
    assert(a + b + c + e + f + h =~= a + (b + c + e) + (f + h));
}

/// The keys in flight, part by part.
proof fn lemma_flying_parts<K>(rest: Downstream<K>, id: int, d: int)
    ensures
        flying(rest, id, d) == (carried_at_hand(rest.fetcher.current, id, d) + carried_by(
            rest.finished,
            id,
            d,
        )) + carried_by(rest.tracker.pending@, id, d) + (carried_by(rest.jobs, id, d)
            + carried_at_hand(rest.loader.current, id, d) + carried_by(
            jobs_of_transfers(rest.transfers),
            id,
            d,
        )),
        flying(rest, id, d) == carried_at_hand(rest.fetcher.current, id, d) + (carried_by(
            rest.finished,
            id,
            d,
        ) + carried_by(rest.tracker.pending@, id, d) + carried_by(rest.jobs, id, d)) + (
        carried_at_hand(rest.loader.current, id, d) + carried_by(
            jobs_of_transfers(rest.transfers),
            id,
            d,
        )),
{
    lemma_regroup(
        carried_at_hand(rest.fetcher.current, id, d),
        carried_by(rest.finished, id, d),
        carried_by(rest.tracker.pending@, id, d),
        carried_by(rest.jobs, id, d),
        carried_at_hand(rest.loader.current, id, d),
        carried_by(jobs_of_transfers(rest.transfers), id, d),
    );
}

/// A key that leaves from the middle of the keys in flight leaves from the
/// front where nothing is in flight ahead of it.
proof fn lemma_leaves_first<K>(ahead: Seq<K>, gone: Seq<K>, behind: Seq<K>)
    requires
        gone.len() > 0 ==> ahead.len() == 0,
    ensures
        gone + (ahead + behind) == ahead + gone + behind,
{
    assert(gone + (ahead + behind) =~= ahead + gone + behind);
}

/// Per-DPU order over a move of the loader.
proof fn lemma_order_at_loader<K>(
    pre: Downstream<K>,
    reply: LoaderReply<K>,
    step: Step<K, crate::pipeline::stages::loader::LoaderRequest>,
    mapper_stopped: bool,
    post: Downstream<K>,
    id: int,
    d: int,
)
    requires
        pre.wf(),
        pre.next(Move::Loader(reply, step), mapper_stopped, post),
        pre.out_ids().count(id) <= 1,
    ensures
        leaving(pre, Move::Loader(reply, step), id, d) + flying(post, id, d) == flying(pre, id, d),
{
    let ahead = carried_at_hand(pre.fetcher.current, id, d) + carried_by(pre.finished, id, d);
    let in_pending = carried_by(pre.tracker.pending@, id, d);
    let in_jobs = carried_by(pre.jobs, id, d);
    let at_loader = carried_at_hand(pre.loader.current, id, d);
    let in_transfers = carried_by(jobs_of_transfers(pre.transfers), id, d);
    let gone = leaving(pre, Move::Loader(reply, step), id, d);
    lemma_loader_order(pre, reply, step, mapper_stopped, post, id, d);
    lemma_flying_parts(pre, id, d);
    lemma_flying_parts(post, id, d);
    if InputLoader::<K>::fails_with(reply) {
        if at_loader.len() > 0 {
            lemma_out_ids_count(pre, id);
            lemma_at_hand_counts(pre.loader.current, pre.loader.group_at_hand(), id, d);
            lemma_at_hand_none(pre.fetcher.current, pre.fetcher.group_at_hand(), id, d);
            lemma_carried_none(pre.finished, id, d);
            lemma_carried_none(pre.tracker.pending@, id, d);
            lemma_carried_none(pre.jobs, id, d);
        }
        let before = ahead + in_pending + in_jobs;
        lemma_leaves_first(before, at_loader, in_transfers);
        assert(flying(post, id, d) =~= before + in_transfers);
        assert(flying(pre, id, d) =~= before + at_loader + in_transfers);
    } else {
        assert(gone =~= Seq::<K>::empty());
        assert(gone + flying(post, id, d) =~= flying(pre, id, d));
    }
}

/// A running job that carries a key for a DPU has nothing ahead of it that
/// carries a key for the same DPU, where no group is out twice.
proof fn lemma_job_alone<K>(pre: Downstream<K>, c: int, id: int, d: int)
    requires
        pre.out_ids().count(id) <= 1,
        0 <= c < pre.tracker.pending@.len(),
        carried(pre.tracker.pending@[c], id, d).len() > 0,
    ensures
        carried_at_hand(pre.fetcher.current, id, d) == Seq::<K>::empty(),
        carried_by(pre.finished, id, d) == Seq::<K>::empty(),
        carried_by(pre.tracker.pending@.subrange(0, c), id, d) == Seq::<K>::empty(),
{
    lemma_out_ids_count(pre, id);
    lemma_carried_counts(pre.tracker.pending@, c, id, d);
    lemma_at_hand_none(pre.fetcher.current, pre.fetcher.group_at_hand(), id, d);
    lemma_carried_none(pre.finished, id, d);
    lemma_carried_none(pre.tracker.pending@.subrange(0, c), id, d);
}

/// Runs of keys taken together do not depend on how they are grouped.
proof fn lemma_regroup_around<K>(
    a: Seq<K>,
    b: Seq<K>,
    front: Seq<K>,
    job: Seq<K>,
    back: Seq<K>,
    e: Seq<K>,
    f: Seq<K>,
    h: Seq<K>,
)
    ensures
        a + b + (front + job + back) + e + f + h == (a + b + front) + job + (back + e + (f + h)),
        a + (b + (front + back) + e) + (f + h) == (a + b + front) + (back + e + (f + h)),
{
    assert(a + b + (front + job + back) + e + f + h =~= (a + b + front) + job + (back + e + (f
        + h)));
    assert(a + (b + (front + back) + e) + (f + h) =~= (a + b + front) + (back + e + (f + h)));
}

/// The keys in flight around the job that the tracker polls.
proof fn lemma_flying_around<K>(pre: Downstream<K>, c: int, id: int, d: int)
    requires
        0 <= c < pre.tracker.pending@.len(),
    ensures
        flying(pre, id, d) == (carried_at_hand(pre.fetcher.current, id, d) + carried_by(
            pre.finished,
            id,
            d,
        ) + carried_by(pre.tracker.pending@.subrange(0, c), id, d)) + carried(
            pre.tracker.pending@[c],
            id,
            d,
        ) + (carried_by(
            pre.tracker.pending@.subrange(c + 1, pre.tracker.pending@.len() as int),
            id,
            d,
        ) + carried_by(pre.jobs, id, d) + (carried_at_hand(pre.loader.current, id, d) + carried_by(
            jobs_of_transfers(pre.transfers),
            id,
            d,
        ))),
{
    lemma_carried_remove(pre.tracker.pending@, c, id, d);
    lemma_regroup_around(
        carried_at_hand(pre.fetcher.current, id, d),
        carried_by(pre.finished, id, d),
        carried_by(pre.tracker.pending@.subrange(0, c), id, d),
        carried(pre.tracker.pending@[c], id, d),
        carried_by(pre.tracker.pending@.subrange(c + 1, pre.tracker.pending@.len() as int), id, d),
        carried_by(pre.jobs, id, d),
        carried_at_hand(pre.loader.current, id, d),
        carried_by(jobs_of_transfers(pre.transfers), id, d),
    );
}

/// The keys in flight once the job that the tracker polled is dropped.
proof fn lemma_flying_without<K>(
    pre: Downstream<K>,
    post: Downstream<K>,
    c: int,
    id: int,
    d: int,
)
    requires
        0 <= c < pre.tracker.pending@.len(),
        post.fetcher == pre.fetcher,
        post.loader == pre.loader,
        post.transfers == pre.transfers,
        carried_by(post.finished, id, d) + carried_by(post.tracker.pending@, id, d) + carried_by(
            post.jobs,
            id,
            d,
        ) == carried_by(pre.finished, id, d) + carried_by(pre.tracker.pending@.remove(c), id, d)
            + carried_by(pre.jobs, id, d),
    ensures
        flying(post, id, d) == (carried_at_hand(pre.fetcher.current, id, d) + carried_by(
            pre.finished,
            id,
            d,
        ) + carried_by(pre.tracker.pending@.subrange(0, c), id, d)) + (carried_by(
            pre.tracker.pending@.subrange(c + 1, pre.tracker.pending@.len() as int),
            id,
            d,
        ) + carried_by(pre.jobs, id, d) + (carried_at_hand(pre.loader.current, id, d) + carried_by(
            jobs_of_transfers(pre.transfers),
            id,
            d,
        ))),
{
    lemma_carried_remove(pre.tracker.pending@, c, id, d);
    lemma_flying_parts(post, id, d);
    lemma_regroup_around(
        carried_at_hand(pre.fetcher.current, id, d),
        carried_by(pre.finished, id, d),
        carried_by(pre.tracker.pending@.subrange(0, c), id, d),
        carried(pre.tracker.pending@[c], id, d),
        carried_by(pre.tracker.pending@.subrange(c + 1, pre.tracker.pending@.len() as int), id, d),
        carried_by(pre.jobs, id, d),
        carried_at_hand(pre.loader.current, id, d),
        carried_by(jobs_of_transfers(pre.transfers), id, d),
    );
}

/// Per-DPU order over a move of the tracker.
proof fn lemma_order_at_tracker<K>(
    pre: Downstream<K>,
    reply: TrackerReply<K>,
    step: Step<K, crate::pipeline::stages::tracker::TrackerRequest>,
    mapper_stopped: bool,
    post: Downstream<K>,
    id: int,
    d: int,
)
    requires
        pre.wf(),
        pre.next(Move::Tracker(reply, step), mapper_stopped, post),
        pre.out_ids().count(id) <= 1,
    ensures
        leaving(pre, Move::Tracker(reply, step), id, d) + flying(post, id, d) == flying(pre, id, d),
{
    let c = pre.tracker.cursor as int;
    let gone = leaving(pre, Move::Tracker(reply, step), id, d);
    let settles = ExecutionTracker::settles_with(pre.tracker, reply);
    if settles && carried(pre.tracker.pending@[c], id, d).len() > 0 {
        lemma_job_alone(pre, c, id, d);
    }
    lemma_tracker_order(pre, reply, step, mapper_stopped, post, id, d);
    if ExecutionTracker::drops_with(pre.tracker, reply) {
        lemma_flying_around(pre, c, id, d);
        lemma_flying_without(pre, post, c, id, d);
        let before = carried_at_hand(pre.fetcher.current, id, d) + carried_by(pre.finished, id, d)
            + carried_by(pre.tracker.pending@.subrange(0, c), id, d);
        let after = carried_by(
            pre.tracker.pending@.subrange(c + 1, pre.tracker.pending@.len() as int),
            id,
            d,
        ) + carried_by(pre.jobs, id, d) + (carried_at_hand(pre.loader.current, id, d) + carried_by(
            jobs_of_transfers(pre.transfers),
            id,
            d,
        ));
        lemma_leaves_first(before, gone, after);
    } else {
        lemma_flying_parts(pre, id, d);
        lemma_flying_parts(post, id, d);
        assert(gone =~= Seq::<K>::empty());
        assert(gone + flying(post, id, d) =~= flying(pre, id, d));
    }
}

/// Per-DPU order over a move of the fetcher.
proof fn lemma_order_at_fetcher<K>(
    pre: Downstream<K>,
    reply: FetcherReply<K>,
    step: Step<K, crate::pipeline::stages::fetcher::FetcherRequest>,
    mapper_stopped: bool,
    post: Downstream<K>,
    id: int,
    d: int,
)
    requires
        pre.wf(),
        pre.next(Move::Fetcher(reply, step), mapper_stopped, post),
    ensures
        leaving(pre, Move::Fetcher(reply, step), id, d) + flying(post, id, d) == flying(pre, id, d),
{
    let gone = leaving(pre, Move::Fetcher(reply, step), id, d);
    let side = carried_at_hand(post.fetcher.current, id, d) + carried_by(post.finished, id, d);
    let in_pending = carried_by(pre.tracker.pending@, id, d);
    let behind = carried_by(pre.jobs, id, d) + carried_at_hand(pre.loader.current, id, d)
        + carried_by(jobs_of_transfers(pre.transfers), id, d);
    lemma_fetcher_order(pre, reply, step, mapper_stopped, post, id, d);
    lemma_flying_parts(pre, id, d);
    lemma_flying_parts(post, id, d);
    assert(gone + flying(post, id, d) =~= (gone + side) + in_pending + behind);
}

/// Over a move behind the mapper, the keys in flight for a DPU keep their
/// order: they are the key that leaves with the move, if any, followed by
/// the keys that are in flight afterwards.
pub proof fn lemma_downstream_order<K>(
    pre: Downstream<K>,
    mv: Move<K>,
    mapper_stopped: bool,
    post: Downstream<K>,
    id: int,
    d: int,
)
    requires
        pre.wf(),
        pre.next(mv, mapper_stopped, post),
        forall|v: int| pre.out_ids().count(v) <= 1,
    ensures
        leaving(pre, mv, id, d) + flying(post, id, d) == flying(pre, id, d),
{
    assert(pre.out_ids().count(id) <= 1);
    match mv {
        Move::Loader(reply, step) => {
            lemma_order_at_loader(pre, reply, step, mapper_stopped, post, id, d);
        },
        Move::Tracker(reply, step) => {
            lemma_order_at_tracker(pre, reply, step, mapper_stopped, post, id, d);
        },
        Move::Fetcher(reply, step) => {
            lemma_order_at_fetcher(pre, reply, step, mapper_stopped, post, id, d);
        },
    }
}

impl<K, D: Hash + Eq> PersistentPipeline<K, D> {
    /// The items that come in with the move `mv` for DPU number `d` of table
    /// entry `g`.
    pub open spec fn arriving(self, mv: PersistentMove<K, D>, g: int, d: int) -> Seq<MemoryTransfers<K>> {
        match mv {
            PersistentMove::Mapper(reply, step) => PersistentMapper::arriving(self.mapper, reply, g, d),
            PersistentMove::Behind(mv) => Seq::empty(),
        }
    }

    /// The key that leaves the pipeline with the move `mv` for DPU number
    /// `d` of table entry `g`.
    pub open spec fn leaving(self, mv: PersistentMove<K, D>, g: int, d: int) -> Seq<K> {
        match mv {
            PersistentMove::Mapper(reply, step) => Seq::empty(),
            PersistentMove::Behind(mv) => leaving(self.rest, mv, self.mapper.table@[g].id as int, d),
        }
    }

    /// The items of DPU number `d` of table entry `g` are in order: the keys
    /// of the items `arrived` for it so far are the keys `left` that have
    /// left the pipeline, then the keys in flight, then the keys of the
    /// items that wait in the mapper.
    pub open spec fn in_order(self, g: int, d: int, arrived: Seq<MemoryTransfers<K>>, left: Seq<K>) -> bool {
        &&& 0 <= g < self.mapper.table@.len()
        &&& 0 <= d < self.mapper.table@[g].dpus@.len()
        &&& keys_of(arrived) == left + flying(self.rest, self.mapper.table@[g].id as int, d) + keys_of(
            line(self.mapper.table@[g].dpus@[d]),
        )
    }
}

/// Per-DPU order over a move of the mapper.
proof fn lemma_per_dpu_fifo_at_mapper<K, D: Hash + Eq>(
    pre: PersistentPipeline<K, D>,
    reply: PersistentReply<K, D>,
    step: Step<K, PersistentRequest>,
    post: PersistentPipeline<K, D>,
    lost: Multiset<int>,
    g: int,
    d: int,
)
    requires
        pre.in_one_place(lost),
        0 <= g < pre.mapper.table@.len(),
        0 <= d < pre.mapper.table@[g].dpus@.len(),
        pre.next(PersistentMove::Mapper(reply, step), post),
    ensures
        g < post.mapper.table@.len(),
        d < post.mapper.table@[g].dpus@.len(),
        post.mapper.table@[g].id == pre.mapper.table@[g].id,
        flying(pre.rest, pre.mapper.table@[g].id as int, d) + keys_of(
            line(pre.mapper.table@[g].dpus@[d]) + PersistentMapper::arriving(pre.mapper, reply, g, d),
        ) == flying(post.rest, pre.mapper.table@[g].id as int, d) + keys_of(
            line(post.mapper.table@[g].dpus@[d]),
        ),
{
    let id = pre.mapper.table@[g].id as int;
    let effects = step.effects@;
    let takes = reply matches PersistentReply::Group(Some(_));
    lemma_persistent_mapper_flow(pre.mapper, reply, post.mapper, step);
    lemma_fed(pre.rest, takes, effects, post.rest);
    lemma_fed_ids(pre.rest, takes, effects, post.rest);
    match reply {
        PersistentReply::Group(Some(group)) => {
            lemma_count_add(pre.rest.out_ids(), lost, group.id as int);
        },
        _ => {},
    }
    lemma_mapper_order(pre.mapper, reply, post.mapper, step, g, d);
    let sent = jobs_of_transfers(transfers_in(effects));
    assert(post.rest.transfers =~= pre.rest.transfers + transfers_in(effects));
    assert(jobs_of_transfers(post.rest.transfers) =~= jobs_of_transfers(pre.rest.transfers) + sent);
    lemma_carried_concat(jobs_of_transfers(pre.rest.transfers), sent, id, d);
    assert(post.rest.fetcher == pre.rest.fetcher);
    assert(post.rest.loader == pre.rest.loader);
    assert(post.rest.tracker == pre.rest.tracker);
    let gone = carried_by(sent, id, d);
    assert(flying(post.rest, id, d) =~= flying(pre.rest, id, d) + gone);
    let before = keys_of(
        line(pre.mapper.table@[g].dpus@[d]) + PersistentMapper::arriving(pre.mapper, reply, g, d),
    );
    let after = keys_of(line(post.mapper.table@[g].dpus@[d]));
    assert(before == gone + after);
    assert(flying(pre.rest, id, d) + before =~= (flying(pre.rest, id, d) + gone) + after);
}

/// Per-DPU order: over every move of a pipeline in which every group is in
/// one place, the work items of a DPU stay in the order in which they came
/// in. The keys that have left the pipeline for the DPU, with a result or
/// with a batch that was dropped, are the first of the keys that came in for
/// it, in the same order; behind them come the keys in flight and then those
/// of the items that wait in the mapper.
pub proof fn lemma_per_dpu_fifo<K, D: Hash + Eq>(
    pre: PersistentPipeline<K, D>,
    mv: PersistentMove<K, D>,
    post: PersistentPipeline<K, D>,
    lost: Multiset<int>,
    g: int,
    d: int,
    arrived: Seq<MemoryTransfers<K>>,
    left: Seq<K>,
)
    requires
        pre.in_one_place(lost),
        pre.in_order(g, d, arrived, left),
        pre.next(mv, post),
    ensures
        post.in_order(g, d, arrived + pre.arriving(mv, g, d), left + pre.leaving(mv, g, d)),
        post.mapper.table@[g].id == pre.mapper.table@[g].id,
        (left + pre.leaving(mv, g, d)).is_prefix_of(keys_of(arrived + pre.arriving(mv, g, d))),
{
    let id = pre.mapper.table@[g].id as int;
    let cell = pre.mapper.table@[g].dpus@[d];
    let came = pre.arriving(mv, g, d);
    let gone = pre.leaving(mv, g, d);
    let waiting = keys_of(line(cell));
    let waiting_after = keys_of(line(post.mapper.table@[g].dpus@[d]));
    let all = keys_of(arrived + came);
    let first = left + gone;
    assert(all =~= keys_of(arrived) + keys_of(came));
    match mv {
        PersistentMove::Mapper(reply, step) => {
            lemma_per_dpu_fifo_at_mapper(pre, reply, step, post, lost, g, d);
            assert(keys_of(line(cell) + came) =~= waiting + keys_of(came));
            let in_flight = flying(pre.rest, id, d);
            assert(all =~= left + (in_flight + keys_of(line(cell) + came)));
            assert(all =~= first + flying(post.rest, id, d) + waiting_after);
        },
        PersistentMove::Behind(behind) => {
            assert forall|v: int| pre.rest.out_ids().count(v) <= 1 by {
                lemma_away_once(pre.mapper.table@, v);
                lemma_count_add(pre.rest.out_ids(), lost, v);
            }
            lemma_downstream_order(
                pre.rest,
                behind,
                pre.mapper.phase == PersistentPhase::Stopped,
                post.rest,
                id,
                d,
            );
            assert(keys_of(came) =~= Seq::<K>::empty());
            assert(all =~= left + (gone + flying(post.rest, id, d)) + waiting);
            assert(all =~= first + flying(post.rest, id, d) + waiting_after);
        },
    }
    assert(all.subrange(0, first.len() as int) =~= first);
}

/// The key that leaves the pipeline for a DPU when the fetcher delivers is
/// the key of the result that is delivered for the DPU: of the results of
/// the job at hand, the one at the DPU's place in the batch.
pub proof fn lemma_delivered_key<K>(
    pre: OutputFetcher<K>,
    filled: crate::memory::MemoryTransfer,
    post: OutputFetcher<K>,
    step: Step<K, crate::pipeline::stages::fetcher::FetcherRequest>,
    id: int,
    d: int,
)
    requires
        pre.wf(),
        pre.phase == FetcherPhase::Copying,
        OutputFetcher::resumes(pre, FetcherReply::Copied(Ok(filled)), post, step),
        carried_at_hand(pre.current, id, d).len() > 0,
    ensures
        ({
            let job = pre.current.unwrap();
            let place = rank(job.0.dpus@, d);
            &&& 0 <= place < outputs_in(step.effects@).len()
            &&& outputs_in(step.effects@)[place] matches Ok(result)
            &&& seq![result.0] == carried_at_hand(pre.current, id, d)
        }),
{
    lemma_fetcher_flow(pre, FetcherReply::Copied(Ok(filled)), post, step);
    let job = pre.current.unwrap();
    let place = rank(job.0.dpus@, d);
    let results = outputs_in(step.effects@);
    assert(results.len() == job.1@.len());
    match results[place] {
        Ok(result) => {
            assert(seq![result.0] =~= carried_at_hand(pre.current, id, d));
        },
        Err(_) => {},
    }
}

/// Per-DPU order at the start: nothing has come in for a DPU of a pipeline
/// that was just started, and nothing has left.
pub proof fn lemma_per_dpu_fifo_initially<K, D: Hash + Eq>(pipeline: PersistentPipeline<K, D>, g: int, d: int)
    requires
        pipeline.rest.initial(),
        0 <= g < pipeline.mapper.table@.len(),
        0 <= d < pipeline.mapper.table@[g].dpus@.len(),
        line(pipeline.mapper.table@[g].dpus@[d]).len() == 0,
    ensures
        pipeline.in_order(g, d, Seq::empty(), Seq::empty()),
{
    let id = pipeline.mapper.table@[g].id as int;
    let rest = pipeline.rest;
    let no_jobs = Seq::<GroupJob<K>>::empty();
    assert(rest.finished =~= no_jobs);
    assert(rest.tracker.pending@ =~= no_jobs);
    assert(rest.jobs =~= no_jobs);
    assert(jobs_of_transfers(rest.transfers) =~= no_jobs);
    assert(carried_by(no_jobs, id, d) =~= Seq::<K>::empty());
    assert(keys_of(Seq::<MemoryTransfers<K>>::empty()) =~= Seq::<K>::empty() + flying(
        rest,
        id,
        d,
    ) + keys_of(line(pipeline.mapper.table@[g].dpus@[d])));
}

} // verus!
