//! What the effects of a step put onto the channels between the stages.

use crate::pipeline::stages::DpuGroup;
use crate::pipeline::stages::Effect;
use crate::pipeline::stages::GroupJob;
use crate::pipeline::stages::GroupTransfer;
use crate::pipeline::OutputResult;
use vstd::multiset::Multiset;
use vstd::prelude::*;

verus! {

/// The values that `pick` selects from `effects`, in order.
pub open spec fn project<K, B>(effects: Seq<Effect<K>>, pick: spec_fn(Effect<K>) -> Option<B>) -> Seq<B>
    decreases effects.len(),
{
    if effects.len() == 0 {
        Seq::empty()
    } else {
        match pick(effects.last()) {
            Some(b) => project(effects.drop_last(), pick).push(b),
            None => project(effects.drop_last(), pick),
        }
    }
}

/// The batch that an effect hands to the loader.
pub open spec fn transfer_of<K>(effect: Effect<K>) -> Option<GroupTransfer<K>> {
    match effect {
        Effect::Transfer(transfer) => Some(transfer),
        _ => None,
    }
}

/// The job that an effect hands to the tracker.
pub open spec fn job_of<K>(effect: Effect<K>) -> Option<GroupJob<K>> {
    match effect {
        Effect::Job(job) => Some(job),
        _ => None,
    }
}

/// The job that an effect hands to the fetcher.
pub open spec fn finished_of<K>(effect: Effect<K>) -> Option<GroupJob<K>> {
    match effect {
        Effect::Finished(job) => Some(job),
        _ => None,
    }
}

/// The group that an effect gives back to the mapper.
pub open spec fn release_of<K>(effect: Effect<K>) -> Option<DpuGroup> {
    match effect {
        Effect::Release(group) => Some(group),
        _ => None,
    }
}

/// The result that an effect delivers to the caller.
pub open spec fn output_of<K>(effect: Effect<K>) -> Option<OutputResult<K>> {
    match effect {
        Effect::Output(result) => Some(result),
        _ => None,
    }
}

/// The batches that `effects` hand to the loader.
pub open spec fn transfers_in<K>(effects: Seq<Effect<K>>) -> Seq<GroupTransfer<K>> {
    project(effects, |e: Effect<K>| transfer_of(e))
}

/// The jobs that `effects` hand to the tracker.
pub open spec fn jobs_in<K>(effects: Seq<Effect<K>>) -> Seq<GroupJob<K>> {
    project(effects, |e: Effect<K>| job_of(e))
}

/// The jobs that `effects` hand to the fetcher.
pub open spec fn finished_in<K>(effects: Seq<Effect<K>>) -> Seq<GroupJob<K>> {
    project(effects, |e: Effect<K>| finished_of(e))
}

/// The groups that `effects` give back to the mapper.
pub open spec fn releases_in<K>(effects: Seq<Effect<K>>) -> Seq<DpuGroup> {
    project(effects, |e: Effect<K>| release_of(e))
}

/// The results that `effects` deliver to the caller.
pub open spec fn outputs_in<K>(effects: Seq<Effect<K>>) -> Seq<OutputResult<K>> {
    project(effects, |e: Effect<K>| output_of(e))
}

/// Selecting from two sequences one after the other selects from each.
pub proof fn lemma_project_concat<K, B>(
    a: Seq<Effect<K>>,
    b: Seq<Effect<K>>,
    pick: spec_fn(Effect<K>) -> Option<B>,
)
    ensures
        project(a + b, pick) == project(a, pick) + project(b, pick),
    decreases b.len(),
{
    if b.len() == 0 {
        assert(a + b =~= a);
        assert(project(a, pick) + project(b, pick) =~= project(a, pick));
    } else {
        assert((a + b).drop_last() =~= a + b.drop_last());
        assert((a + b).last() == b.last());
        lemma_project_concat(a, b.drop_last(), pick);
        assert(project(a + b, pick) =~= project(a, pick) + project(b, pick));
    }
}

/// Selecting from a sequence selects from the part before `at` and from the
/// part from `at` on.
pub proof fn lemma_project_split<K, B>(
    effects: Seq<Effect<K>>,
    at: int,
    pick: spec_fn(Effect<K>) -> Option<B>,
)
    requires
        0 <= at <= effects.len(),
    ensures
        project(effects, pick) == project(effects.subrange(0, at), pick) + project(
            effects.subrange(at, effects.len() as int),
            pick,
        ),
{
    assert(effects =~= effects.subrange(0, at) + effects.subrange(at, effects.len() as int));
    lemma_project_concat(effects.subrange(0, at), effects.subrange(at, effects.len() as int), pick);
}

/// Where nothing is selected, nothing comes out.
pub proof fn lemma_project_none<K, B>(effects: Seq<Effect<K>>, pick: spec_fn(Effect<K>) -> Option<B>)
    requires
        forall|i: int| 0 <= i < effects.len() ==> pick(#[trigger] effects[i]) is None,
    ensures
        project(effects, pick) == Seq::<B>::empty(),
    decreases effects.len(),
{
    if effects.len() > 0 {
        lemma_project_none(effects.drop_last(), pick);
    }
}

/// Where everything is selected, everything comes out, place by place.
pub proof fn lemma_project_all<K, B>(effects: Seq<Effect<K>>, pick: spec_fn(Effect<K>) -> Option<B>)
    requires
        forall|i: int| 0 <= i < effects.len() ==> pick(#[trigger] effects[i]) is Some,
    ensures
        project(effects, pick).len() == effects.len(),
        forall|i: int|
            0 <= i < effects.len() ==> (#[trigger] project(effects, pick)[i]) == pick(
                effects[i],
            ).unwrap(),
    decreases effects.len(),
{
    if effects.len() > 0 {
        lemma_project_all(effects.drop_last(), pick);
    }
}

/// What is selected from a single effect.
pub proof fn lemma_project_one<K, B>(effects: Seq<Effect<K>>, pick: spec_fn(Effect<K>) -> Option<B>)
    requires
        effects.len() == 1,
    ensures
        project(effects, pick) == match pick(effects[0]) {
            Some(b) => seq![b],
            None => Seq::<B>::empty(),
        },
{
    assert(project(effects.drop_last(), pick) == Seq::<B>::empty());
    match pick(effects[0]) {
        Some(b) => {
            assert(project(effects, pick) =~= seq![b]);
        },
        None => {},
    }
}

/// Effects from which nothing is selected can be left out at the front.
pub proof fn lemma_project_skip<K, B>(
    effects: Seq<Effect<K>>,
    at: int,
    pick: spec_fn(Effect<K>) -> Option<B>,
)
    requires
        0 <= at <= effects.len(),
        forall|i: int| 0 <= i < at ==> pick(#[trigger] effects[i]) is None,
    ensures
        project(effects, pick) == project(effects.subrange(at, effects.len() as int), pick),
{
    lemma_project_split(effects, at, pick);
    lemma_project_none(effects.subrange(0, at), pick);
    assert(Seq::<B>::empty() + project(effects.subrange(at, effects.len() as int), pick)
        =~= project(effects.subrange(at, effects.len() as int), pick));
}

/// Effects from which nothing is selected can be left out at the end.
pub proof fn lemma_project_cut<K, B>(
    effects: Seq<Effect<K>>,
    at: int,
    pick: spec_fn(Effect<K>) -> Option<B>,
)
    requires
        0 <= at <= effects.len(),
        forall|i: int| at <= i < effects.len() ==> pick(#[trigger] effects[i]) is None,
    ensures
        project(effects, pick) == project(effects.subrange(0, at), pick),
{
    lemma_project_split(effects, at, pick);
    lemma_project_none(effects.subrange(at, effects.len() as int), pick);
    assert(project(effects.subrange(0, at), pick) + Seq::<B>::empty() =~= project(
        effects.subrange(0, at),
        pick,
    ));
}

/// Number of work items in the batches `transfers`.
pub open spec fn items_in_transfers<K>(transfers: Seq<GroupTransfer<K>>) -> nat
    decreases transfers.len(),
{
    if transfers.len() == 0 {
        0
    } else {
        items_in_transfers(transfers.drop_last()) + transfers.last().2@.len()
    }
}

/// Number of work items in the jobs `jobs`.
pub open spec fn items_in_jobs<K>(jobs: Seq<GroupJob<K>>) -> nat
    decreases jobs.len(),
{
    if jobs.len() == 0 {
        0
    } else {
        items_in_jobs(jobs.drop_last()) + jobs.last().1@.len()
    }
}

/// The items of two sequences of batches add up.
pub proof fn lemma_items_in_transfers_concat<K>(a: Seq<GroupTransfer<K>>, b: Seq<GroupTransfer<K>>)
    ensures
        items_in_transfers(a + b) == items_in_transfers(a) + items_in_transfers(b),
    decreases b.len(),
{
    if b.len() == 0 {
        assert(a + b =~= a);
    } else {
        assert((a + b).drop_last() =~= a + b.drop_last());
        lemma_items_in_transfers_concat(a, b.drop_last());
    }
}

/// The items of two sequences of jobs add up.
pub proof fn lemma_items_in_jobs_concat<K>(a: Seq<GroupJob<K>>, b: Seq<GroupJob<K>>)
    ensures
        items_in_jobs(a + b) == items_in_jobs(a) + items_in_jobs(b),
    decreases b.len(),
{
    if b.len() == 0 {
        assert(a + b =~= a);
    } else {
        assert((a + b).drop_last() =~= a + b.drop_last());
        lemma_items_in_jobs_concat(a, b.drop_last());
    }
}

/// Taking the first batch away takes its items away.
pub proof fn lemma_items_in_transfers_skip<K>(a: Seq<GroupTransfer<K>>)
    requires
        a.len() > 0,
    ensures
        items_in_transfers(a) == a[0].2@.len() + items_in_transfers(a.skip(1)),
{
    assert(a =~= seq![a[0]] + a.skip(1));
    lemma_items_in_transfers_concat(seq![a[0]], a.skip(1));
    assert(seq![a[0]].drop_last() =~= Seq::<GroupTransfer<K>>::empty());
    assert(items_in_transfers(seq![a[0]].drop_last()) == 0);
}

/// Taking a job away takes its items away.
pub proof fn lemma_items_in_jobs_remove<K>(a: Seq<GroupJob<K>>, at: int)
    requires
        0 <= at < a.len(),
    ensures
        items_in_jobs(a) == a[at].1@.len() + items_in_jobs(a.remove(at)),
{
    let front = a.subrange(0, at);
    let back = a.subrange(at + 1, a.len() as int);
    assert(a =~= front + seq![a[at]] + back);
    assert(a.remove(at) =~= front + back);
    lemma_items_in_jobs_concat(front + seq![a[at]], back);
    lemma_items_in_jobs_concat(front, seq![a[at]]);
    lemma_items_in_jobs_concat(front, back);
    assert(seq![a[at]].drop_last() =~= Seq::<GroupJob<K>>::empty());
    assert(items_in_jobs(seq![a[at]].drop_last()) == 0);
}

/// Effects that only report hand nothing on.
pub proof fn lemma_reports_only<K>(effects: Seq<Effect<K>>)
    requires
        forall|i: int| 0 <= i < effects.len() ==> (#[trigger] effects[i]) is Record,
    ensures
        transfers_in(effects).len() == 0,
        jobs_in(effects).len() == 0,
        finished_in(effects).len() == 0,
        releases_in(effects).len() == 0,
        outputs_in(effects).len() == 0,
{
    lemma_project_none(effects, |e: Effect<K>| transfer_of(e));
    lemma_project_none(effects, |e: Effect<K>| job_of(e));
    lemma_project_none(effects, |e: Effect<K>| finished_of(e));
    lemma_project_none(effects, |e: Effect<K>| release_of(e));
    lemma_project_none(effects, |e: Effect<K>| output_of(e));
}

/// Where only the last effect may be selected, it alone comes out.
pub proof fn lemma_project_last<K, B>(effects: Seq<Effect<K>>, pick: spec_fn(Effect<K>) -> Option<B>)
    requires
        effects.len() > 0,
        forall|i: int| 0 <= i < effects.len() - 1 ==> pick(#[trigger] effects[i]) is None,
    ensures
        project(effects, pick) == match pick(effects.last()) {
            Some(b) => seq![b],
            None => Seq::<B>::empty(),
        },
{
    let tail = effects.subrange(effects.len() - 1, effects.len() as int);
    assert(tail[0] == effects.last());
    lemma_project_skip(effects, effects.len() - 1, pick);
    lemma_project_one(tail, pick);
}

/// The items of a single job.
pub proof fn lemma_items_in_one_job<K>(jobs: Seq<GroupJob<K>>)
    requires
        jobs.len() == 1,
    ensures
        items_in_jobs(jobs) == jobs[0].1@.len(),
{
    assert(jobs.drop_last() =~= Seq::<GroupJob<K>>::empty());
    assert(items_in_jobs(jobs.drop_last()) == 0);
}

/// The identifiers of the groups `groups`, each as often as it occurs.
pub open spec fn ids_of_groups(groups: Seq<DpuGroup>) -> Multiset<int>
    decreases groups.len(),
{
    if groups.len() == 0 {
        Multiset::empty()
    } else {
        ids_of_groups(groups.drop_last()).insert(groups.last().id as int)
    }
}

/// The groups of the batches `transfers`.
pub open spec fn groups_of_transfers<K>(transfers: Seq<GroupTransfer<K>>) -> Seq<DpuGroup> {
    Seq::new(transfers.len(), |i: int| transfers[i].0)
}

/// The groups of the jobs `jobs`.
pub open spec fn groups_of_jobs<K>(jobs: Seq<GroupJob<K>>) -> Seq<DpuGroup> {
    Seq::new(jobs.len(), |i: int| jobs[i].0)
}

/// The identifier of the group `group`, if there is one.
pub open spec fn id_of(group: Option<DpuGroup>) -> Multiset<int> {
    match group {
        Some(group) => Multiset::empty().insert(group.id as int),
        None => Multiset::empty(),
    }
}

/// The identifiers of two sequences of groups taken together.
pub proof fn lemma_ids_concat(a: Seq<DpuGroup>, b: Seq<DpuGroup>)
    ensures
        ids_of_groups(a + b) == ids_of_groups(a).add(ids_of_groups(b)),
    decreases b.len(),
{
    if b.len() == 0 {
        assert(a + b =~= a);
        assert(ids_of_groups(a).add(ids_of_groups(b)) =~= ids_of_groups(a));
    } else {
        assert((a + b).drop_last() =~= a + b.drop_last());
        lemma_ids_concat(a, b.drop_last());
        assert(ids_of_groups(a + b) =~= ids_of_groups(a).add(ids_of_groups(b)));
    }
}

/// Taking a group away takes its identifier away.
pub proof fn lemma_ids_remove(a: Seq<DpuGroup>, at: int)
    requires
        0 <= at < a.len(),
    ensures
        ids_of_groups(a) == ids_of_groups(a.remove(at)).insert(a[at].id as int),
{
    let front = a.subrange(0, at);
    let back = a.subrange(at + 1, a.len() as int);
    let one = seq![a[at]];
    assert(a =~= front + one + back);
    assert(a.remove(at) =~= front + back);
    lemma_ids_concat(front + one, back);
    lemma_ids_concat(front, one);
    lemma_ids_concat(front, back);
    lemma_ids_one(one);
    assert(ids_of_groups(a) =~= ids_of_groups(a.remove(at)).insert(a[at].id as int));
}

/// The identifier of a single group.
pub proof fn lemma_ids_one(a: Seq<DpuGroup>)
    requires
        a.len() == 1,
    ensures
        ids_of_groups(a) == Multiset::<int>::empty().insert(a[0].id as int),
{
    assert(a.drop_last() =~= Seq::<DpuGroup>::empty());
    assert(ids_of_groups(a.drop_last()) == Multiset::<int>::empty());
    assert(a.last() == a[0]);
}

} // verus!
