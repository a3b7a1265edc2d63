//! What holds of every step of the persistent mapper: no work item is lost,
//! and the items of one DPU leave in the order in which they came.

use crate::pipeline::flow::finished_in;
use crate::pipeline::flow::groups_of_transfers;
use crate::pipeline::flow::id_of;
use crate::pipeline::flow::ids_of_groups;
use crate::pipeline::flow::lemma_ids_one;
use crate::pipeline::flow::finished_of;
use crate::pipeline::flow::items_in_transfers;
use crate::pipeline::flow::job_of;
use crate::pipeline::flow::jobs_in;
use crate::pipeline::flow::lemma_project_all;
use crate::pipeline::flow::lemma_project_cut;
use crate::pipeline::flow::lemma_project_last;
use crate::pipeline::flow::lemma_project_none;
use crate::pipeline::flow::lemma_reports_only;
use crate::pipeline::flow::output_of;
use crate::pipeline::flow::outputs_in;
use crate::pipeline::flow::release_of;
use crate::pipeline::flow::releases_in;
use crate::pipeline::flow::transfer_of;
use crate::pipeline::flow::transfers_in;
use crate::pipeline::stages::persistent::batch_inputs;
use crate::pipeline::stages::persistent::batch_outputs;
use crate::pipeline::stages::persistent::flush_indices;
use crate::pipeline::stages::persistent::flushable;
use crate::pipeline::stages::persistent::same_but;
use crate::pipeline::stages::persistent::entry_of_group;
use crate::pipeline::stages::persistent::next_usable;
use crate::pipeline::stages::DpuGroup;
use crate::pipeline::stages::persistent::DpuSlot;
use crate::pipeline::stages::persistent::GroupSlots;
use crate::pipeline::stages::persistent::PersistentMapper;
use crate::pipeline::stages::persistent::PersistentPhase;
use crate::pipeline::stages::persistent::PersistentReply;
use crate::pipeline::stages::persistent::PersistentRequest;
use crate::pipeline::stages::Effect;
use crate::pipeline::stages::GroupTransfer;
use crate::pipeline::stages::Step;
use crate::pipeline::transfer::MemoryTransfers;
use std::hash::Hash;
use vstd::multiset::Multiset;
use vstd::prelude::*;

verus! {

/// The items of one DPU in the order in which they will leave: the item of
/// the batch under construction, then the waiting items, oldest first.
pub open spec fn line<K>(cell: DpuSlot<K>) -> Seq<MemoryTransfers<K>> {
    match cell.item {
        Some(item) => seq![item] + cell.waiting@,
        None => cell.waiting@,
    }
}

/// Number of items that the DPUs `cells` hold.
pub open spec fn items_of_cells<K>(cells: Seq<DpuSlot<K>>) -> nat
    decreases cells.len(),
{
    if cells.len() == 0 {
        0
    } else {
        items_of_cells(cells.drop_last()) + line(cells.last()).len()
    }
}

/// Number of items that the groups of `table` hold.
pub open spec fn items_of_table<K>(table: Seq<GroupSlots<K>>) -> nat
    decreases table.len(),
{
    if table.len() == 0 {
        0
    } else {
        items_of_table(table.drop_last()) + items_of_cells(table.last().dpus@)
    }
}

/// Number of groups of `table` that are away.
pub open spec fn away<K>(table: Seq<GroupSlots<K>>) -> nat
    decreases table.len(),
{
    if table.len() == 0 {
        0
    } else {
        away(table.drop_last()) + if table.last().present {
            0nat
        } else {
            1nat
        }
    }
}

/// One for an entry that is away, none for one that is present.
pub open spec fn is_away<K>(entry: GroupSlots<K>) -> nat {
    if entry.present {
        0
    } else {
        1
    }
}

/// A present group has no item waiting behind a free slot.
pub open spec fn entry_wf<K>(entry: GroupSlots<K>) -> bool {
    entry.present ==> forall|d: int|
        0 <= d < entry.dpus@.len() && (#[trigger] entry.dpus@[d]).item is None
            ==> entry.dpus@[d].waiting@.len() == 0
}

/// Cells that hold as many items each hold as many items together.
proof fn lemma_cells_same<K>(pre: Seq<DpuSlot<K>>, post: Seq<DpuSlot<K>>)
    requires
        post.len() == pre.len(),
        forall|d: int| 0 <= d < pre.len() ==> line(#[trigger] post[d]).len() == line(pre[d]).len(),
    ensures
        items_of_cells(post) == items_of_cells(pre),
    decreases pre.len(),
{
    if pre.len() > 0 {
        assert(post.last() == post[pre.len() - 1]);
        lemma_cells_same(pre.drop_last(), post.drop_last());
    }
}

/// One more item in one cell is one more item in all.
proof fn lemma_cells_one_more<K>(pre: Seq<DpuSlot<K>>, post: Seq<DpuSlot<K>>, at: int)
    requires
        post.len() == pre.len(),
        0 <= at < pre.len(),
        line(post[at]).len() == line(pre[at]).len() + 1,
        forall|d: int| 0 <= d < pre.len() && d != at ==> (#[trigger] post[d]) == pre[d],
    ensures
        items_of_cells(post) == items_of_cells(pre) + 1,
    decreases pre.len(),
{
    if at == pre.len() - 1 {
        assert(post.last() == post[at]);
        lemma_cells_same(pre.drop_last(), post.drop_last());
    } else {
        assert(post.last() == post[pre.len() - 1]);
        lemma_cells_one_more(pre.drop_last(), post.drop_last(), at);
    }
}

/// When the batch leaves, the cells lose exactly the items of the batch.
proof fn lemma_cells_freed<K>(pre: Seq<DpuSlot<K>>, post: Seq<DpuSlot<K>>)
    requires
        post.len() == pre.len(),
        forall|d: int| 0 <= d < pre.len() ==> (#[trigger] pre[d]).freed(post[d]),
    ensures
        items_of_cells(post) + batch_outputs(pre).len() == items_of_cells(pre),
    decreases pre.len(),
{
    if pre.len() > 0 {
        assert(pre.last().freed(post[pre.len() - 1]));
        assert(post.last() == post[pre.len() - 1]);
        lemma_cells_freed(pre.drop_last(), post.drop_last());
    }
}

/// A change of one entry changes the items of the table by as much.
proof fn lemma_table_same_but<K>(pre: Seq<GroupSlots<K>>, post: Seq<GroupSlots<K>>, g: int)
    requires
        0 <= g < pre.len(),
        same_but(pre, post, g),
    ensures
        items_of_table(post) + items_of_cells(pre[g].dpus@) == items_of_table(pre) + items_of_cells(
            post[g].dpus@,
        ),
        away(post) + is_away(pre[g]) == away(pre) + is_away(post[g]),
    decreases pre.len(),
{
    if g == pre.len() - 1 {
        assert(post.drop_last() =~= pre.drop_last());
    } else {
        assert(post.last() == pre.last());
        lemma_table_same_but(pre.drop_last(), post.drop_last(), g);
    }
}

/// An entry that is put where it belongs holds one more item and stays
/// well-formed.
pub proof fn lemma_deposited<K>(pre: GroupSlots<K>, d: int, item: MemoryTransfers<K>, mid: GroupSlots<K>)
    requires
        0 <= d < pre.dpus@.len(),
        entry_wf(pre),
        pre.deposited(d, item, mid),
    ensures
        entry_wf(mid),
        items_of_cells(mid.dpus@) == items_of_cells(pre.dpus@) + 1,
        line(mid.dpus@[d]) == line(pre.dpus@[d]).push(item),
{
    assert(line(mid.dpus@[d]) =~= line(pre.dpus@[d]).push(item));
    lemma_cells_one_more(pre.dpus@, mid.dpus@, d);
    assert forall|o: int|
        0 <= o < mid.dpus@.len() && (#[trigger] mid.dpus@[o]).item is None && mid.present implies mid.dpus@[o].waiting@.len()
        == 0 by {
        if o != d {
            assert(mid.dpus@[o] == pre.dpus@[o]);
        }
    }
}

/// An entry that has come back holds the same items, each DPU's in the same
/// order, and is well-formed.
pub proof fn lemma_refilled<K>(pre: GroupSlots<K>, mid: GroupSlots<K>)
    requires
        pre.refilled(mid),
    ensures
        entry_wf(mid),
        items_of_cells(mid.dpus@) == items_of_cells(pre.dpus@),
        forall|d: int| 0 <= d < pre.dpus@.len() ==> line(#[trigger] mid.dpus@[d]) == line(pre.dpus@[d]),
{
    assert forall|d: int| 0 <= d < pre.dpus@.len() implies line(#[trigger] mid.dpus@[d]) == line(
        pre.dpus@[d],
    ) by {
        assert(pre.dpus@[d].refilled(mid.dpus@[d]));
        if pre.dpus@[d].takes() {
            assert(line(mid.dpus@[d]) =~= line(pre.dpus@[d]));
        } else {
            assert(line(mid.dpus@[d]) =~= line(pre.dpus@[d]));
        }
    }
    lemma_cells_same(pre.dpus@, mid.dpus@);
    assert forall|d: int|
        0 <= d < mid.dpus@.len() && (#[trigger] mid.dpus@[d]).item is None implies mid.dpus@[d].waiting@.len()
        == 0 by {
        assert(pre.dpus@[d].refilled(mid.dpus@[d]));
    }
}

/// An entry whose batch has left holds the items it held but for those of
/// the batch, each DPU the first in its line, and is well-formed.
proof fn lemma_shipped<K>(mid: GroupSlots<K>, transfer: GroupTransfer<K>, post: GroupSlots<K>)
    requires
        mid.ships(transfer),
        mid.shipped(post),
    ensures
        entry_wf(post),
        items_of_cells(post.dpus@) + transfer.2@.len() == items_of_cells(mid.dpus@),
        forall|d: int|
            0 <= d < mid.dpus@.len() ==> line(#[trigger] post.dpus@[d]) == if mid.dpus@[d].item is Some {
                line(mid.dpus@[d]).skip(1)
            } else {
                line(mid.dpus@[d])
            },
{
    lemma_cells_freed(mid.dpus@, post.dpus@);
    assert forall|d: int| 0 <= d < mid.dpus@.len() implies line(#[trigger] post.dpus@[d]) == if mid.dpus@[d].item is Some {
        line(mid.dpus@[d]).skip(1)
    } else {
        line(mid.dpus@[d])
    } by {
        assert(mid.dpus@[d].freed(post.dpus@[d]));
        if mid.dpus@[d].item is Some {
            assert(line(post.dpus@[d]) =~= line(mid.dpus@[d]).skip(1));
        }
    }
}

/// The entry found for a group lies within the table and has the group's
/// identifier.
pub proof fn lemma_entry_of_group<K>(table: Seq<GroupSlots<K>>, id: u32)
    ensures
        match entry_of_group(table, id) {
            Some(g) => 0 <= g < table.len() && table[g].id == id,
            None => forall|g: int| 0 <= g < table.len() ==> (#[trigger] table[g]).id != id,
        },
    decreases table.len(),
{
    if table.len() > 0 && table.last().id != id {
        lemma_entry_of_group(table.drop_last(), id);
        match entry_of_group(table.drop_last(), id) {
            Some(g) => {
                assert(table.drop_last()[g] == table[g]);
            },
            None => {
                assert forall|g: int| 0 <= g < table.len() implies (#[trigger] table[g]).id != id by {
                    if g < table.len() - 1 {
                        assert(table.drop_last()[g] == table[g]);
                    }
                }
            },
        }
    }
}

/// The group that the mapper turns to has an active DPU.
pub proof fn lemma_next_usable(groups: Seq<DpuGroup>, from: int)
    requires
        0 <= from,
    ensures
        from <= next_usable(groups, from),
        next_usable(groups, from) < groups.len() ==> groups[next_usable(groups, from)].active().len()
            > 0,
    decreases groups.len() - from,
{
    if from < groups.len() && groups[from].active().len() == 0 {
        lemma_next_usable(groups, from + 1);
    }
}

/// Cells without items hold no item together.
proof fn lemma_cells_empty<K>(cells: Seq<DpuSlot<K>>)
    requires
        forall|d: int| 0 <= d < cells.len() ==> line(#[trigger] cells[d]).len() == 0,
    ensures
        items_of_cells(cells) == 0,
    decreases cells.len(),
{
    if cells.len() > 0 {
        lemma_cells_empty(cells.drop_last());
    }
}

/// The entries that leave when the input ends lie within the table.
pub proof fn lemma_flush_indices_bound<K>(table: Seq<GroupSlots<K>>)
    ensures
        flush_indices(table).len() <= table.len(),
        forall|k: int|
            0 <= k < flush_indices(table).len() ==> 0 <= (#[trigger] flush_indices(table)[k])
                < table.len() && flushable(table[flush_indices(table)[k]]),
    decreases table.len(),
{
    if table.len() > 0 {
        lemma_flush_indices_bound(table.drop_last());
        assert forall|k: int| 0 <= k < flush_indices(table).len() implies 0 <= (
        #[trigger] flush_indices(table)[k]) < table.len() && flushable(
            table[flush_indices(table)[k]],
        ) by {
            if k < flush_indices(table.drop_last()).len() {
                let i = flush_indices(table.drop_last())[k];
                assert(flush_indices(table)[k] == i);
                assert(table.drop_last()[i] == table[i]);
            }
        }
    }
}

/// When the input ends, the table loses exactly the items of the batches
/// that leave.
proof fn lemma_flushed<K>(pre: Seq<GroupSlots<K>>, post: Seq<GroupSlots<K>>, sent: Seq<Effect<K>>)
    requires
        post.len() == pre.len(),
        forall|g: int| 0 <= g < pre.len() ==> entry_wf(#[trigger] pre[g]),
        forall|g: int|
            0 <= g < pre.len() ==> if flushable(#[trigger] pre[g]) {
                pre[g].shipped(post[g])
            } else {
                post[g] == pre[g]
            },
        sent.len() == flush_indices(pre).len(),
        forall|k: int|
            0 <= k < sent.len() ==> {
                &&& (#[trigger] sent[k]) matches Effect::Transfer(transfer)
                &&& pre[flush_indices(pre)[k]].ships(transfer)
            },
    ensures
        items_of_table(post) + items_in_transfers(transfers_in(sent)) == items_of_table(pre),
        away(post) == away(pre) + sent.len(),
        forall|g: int| 0 <= g < post.len() ==> entry_wf(#[trigger] post[g]),
        transfers_in(sent).len() == sent.len(),
        jobs_in(sent).len() == 0,
        finished_in(sent).len() == 0,
        releases_in(sent).len() == 0,
        outputs_in(sent).len() == 0,
    decreases pre.len(),
{
    lemma_project_none(sent, |e: Effect<K>| job_of(e));
    lemma_project_none(sent, |e: Effect<K>| finished_of(e));
    lemma_project_none(sent, |e: Effect<K>| release_of(e));
    lemma_project_none(sent, |e: Effect<K>| output_of(e));
    lemma_project_all(sent, |e: Effect<K>| transfer_of(e));
    if pre.len() == 0 {
        assert(items_in_transfers(transfers_in(sent)) == 0);
    } else {
        let last = pre.len() - 1;
        let shorter = pre.drop_last();
        lemma_flush_indices_bound(shorter);
        assert(post.last() == post[last]);
        assert(pre.last() == pre[last]);
        if flushable(pre.last()) {
            let rest = sent.drop_last();
            assert forall|k: int| 0 <= k < rest.len() implies {
                &&& (#[trigger] rest[k]) matches Effect::Transfer(transfer)
                &&& shorter[flush_indices(shorter)[k]].ships(transfer)
            } by {
                assert(rest[k] == sent[k]);
                assert(flush_indices(pre)[k] == flush_indices(shorter)[k]);
                assert(shorter[flush_indices(shorter)[k]] == pre[flush_indices(shorter)[k]]);
            }
            assert forall|g: int| 0 <= g < shorter.len() implies if flushable(#[trigger] shorter[g]) {
                shorter[g].shipped(post.drop_last()[g])
            } else {
                post.drop_last()[g] == shorter[g]
            } by {
                assert(shorter[g] == pre[g]);
                assert(post.drop_last()[g] == post[g]);
            }
            assert forall|g: int| 0 <= g < shorter.len() implies entry_wf(#[trigger] shorter[g]) by {
                assert(shorter[g] == pre[g]);
            }
            lemma_flushed(shorter, post.drop_last(), rest);
            let transfer = sent.last()->Transfer_0;
            assert(flush_indices(pre)[sent.len() - 1] == last);
            assert(pre[last].ships(transfer));
            lemma_shipped(pre[last], transfer, post[last]);
            assert(transfers_in(sent) =~= transfers_in(rest).push(transfer));
            assert(transfers_in(sent).drop_last() =~= transfers_in(rest));
        } else {
            assert forall|k: int| 0 <= k < sent.len() implies {
                &&& (#[trigger] sent[k]) matches Effect::Transfer(transfer)
                &&& shorter[flush_indices(shorter)[k]].ships(transfer)
            } by {
                assert(shorter[flush_indices(shorter)[k]] == pre[flush_indices(shorter)[k]]);
            }
            assert forall|g: int| 0 <= g < shorter.len() implies if flushable(#[trigger] shorter[g]) {
                shorter[g].shipped(post.drop_last()[g])
            } else {
                post.drop_last()[g] == shorter[g]
            } by {
                assert(shorter[g] == pre[g]);
                assert(post.drop_last()[g] == post[g]);
            }
            assert forall|g: int| 0 <= g < shorter.len() implies entry_wf(#[trigger] shorter[g]) by {
                assert(shorter[g] == pre[g]);
            }
            lemma_flushed(shorter, post.drop_last(), sent);
        }
        assert forall|g: int| 0 <= g < post.len() implies entry_wf(#[trigger] post[g]) by {
            if g < last {
                assert(post.drop_last()[g] == post[g]);
            }
        }
    }
}

impl<K, D: Hash + Eq> PersistentMapper<K, D> {
    /// No present group has an item waiting behind a free slot, and while
    /// fragments are placed or written, a group is at hand for them.
    pub open spec fn wf(self) -> bool {
        &&& forall|g: int| 0 <= g < self.table@.len() ==> entry_wf(#[trigger] self.table@[g])
        &&& self.phase == PersistentPhase::Placing ==> self.placement.used@.len()
            < self.placement.candidates@.len() && self.placement.cursor < self.groups@.len()
        &&& self.phase == PersistentPhase::Loading ==> self.placement.cursor < self.groups@.len()
    }

    /// Whether `reply` answers what a mapper in `phase` has asked for.
    pub open spec fn expects(phase: PersistentPhase, reply: PersistentReply<K, D>) -> bool {
        match (phase, reply) {
            (PersistentPhase::Placing, PersistentReply::Fragment(_)) => true,
            (PersistentPhase::Loading, PersistentReply::Copied(_)) => true,
            (PersistentPhase::AwaitingInput, PersistentReply::Input(_)) => true,
            (PersistentPhase::Polling, PersistentReply::Group(_)) => true,
            (PersistentPhase::Flushing, PersistentReply::Group(Some(_))) => true,
            _ => false,
        }
    }

    /// Number of work items that wait in the mapper.
    pub open spec fn held_items(self) -> nat {
        items_of_table(self.table@)
    }

    /// Number of groups that have left the mapper and are not back: those
    /// that are away, less those that came back without being missed.
    pub open spec fn missing_groups(self) -> int {
        away(self.table@) - self.strays@.len()
    }

    /// Number of groups that come with `reply`.
    pub open spec fn groups_with(reply: PersistentReply<K, D>) -> nat {
        if reply matches PersistentReply::Group(Some(_)) {
            1
        } else {
            0
        }
    }

    /// Number of work items that come with `reply`.
    pub open spec fn items_with(reply: PersistentReply<K, D>) -> nat {
        if reply matches PersistentReply::Input(Some(_)) {
            1
        } else {
            0
        }
    }

    /// Whether `reply` brings a work item whose fragment is not registered.
    pub open spec fn unknown_with(pre: Self, reply: PersistentReply<K, D>) -> bool {
        &&& reply matches PersistentReply::Input(Some(input))
        &&& Self::route(pre, input.0) is None
    }

    /// Whether `reply` reports a failed call of the driver.
    pub open spec fn fails_with(reply: PersistentReply<K, D>) -> bool {
        reply matches PersistentReply::Copied(Err(_))
    }
}

/// What a group that was just filled sends, and what it holds afterwards.
proof fn lemma_sends<K, D: Hash + Eq>(mid: GroupSlots<K>, leaves: bool, post: GroupSlots<K>, effects: Seq<Effect<K>>)
    requires
        entry_wf(mid),
        PersistentMapper::<K, D>::sends(mid, leaves, post, effects),
    ensures
        entry_wf(post),
        items_of_cells(post.dpus@) + items_in_transfers(transfers_in(effects)) == items_of_cells(
            mid.dpus@,
        ),
        transfers_in(effects).len() == effects.len(),
        jobs_in(effects).len() == 0,
        finished_in(effects).len() == 0,
        releases_in(effects).len() == 0,
        outputs_in(effects).len() == 0,
{
    lemma_project_none(effects, |e: Effect<K>| job_of(e));
    lemma_project_none(effects, |e: Effect<K>| finished_of(e));
    lemma_project_none(effects, |e: Effect<K>| release_of(e));
    lemma_project_none(effects, |e: Effect<K>| output_of(e));
    lemma_project_all(effects, |e: Effect<K>| transfer_of(e));
    if leaves {
        let transfer = effects[0]->Transfer_0;
        lemma_shipped(mid, transfer, post);
        let sent = transfers_in(effects);
        assert(sent[0] == transfer);
        assert(sent.drop_last() =~= Seq::<GroupTransfer<K>>::empty());
        assert(items_in_transfers(sent.drop_last()) == 0);
    } else {
        assert(items_in_transfers(transfers_in(effects)) == 0);
    }
}

/// A step of the persistent mapper keeps the mapper well-formed and loses no
/// work item: every item that comes in waits in the table, leaves with a
/// batch, or, where its fragment is not registered, is answered with exactly
/// one error. Nothing else is delivered to the caller unless writing the
/// fragments failed, which delivers exactly one error.
pub proof fn lemma_persistent_mapper_flow<K, D: Hash + Eq>(
    pre: PersistentMapper<K, D>,
    reply: PersistentReply<K, D>,
    post: PersistentMapper<K, D>,
    step: Step<K, PersistentRequest>,
)
    requires
        pre.wf(),
        PersistentMapper::<K, D>::expects(pre.phase, reply),
        PersistentMapper::resumes(pre, reply, post, step),
    ensures
        post.wf(),
        post.table@.len() >= pre.table@.len(),
        post.missing_groups() + PersistentMapper::<K, D>::groups_with(reply) == pre.missing_groups()
            + transfers_in(step.effects@).len(),
        jobs_in(step.effects@).len() == 0,
        finished_in(step.effects@).len() == 0,
        releases_in(step.effects@).len() == 0,
        post.held_items() + items_in_transfers(transfers_in(step.effects@)) + (if PersistentMapper::unknown_with(
            pre,
            reply,
        ) {
            1nat
        } else {
            0nat
        }) == pre.held_items() + PersistentMapper::<K, D>::items_with(reply),
        outputs_in(step.effects@).len() == if PersistentMapper::unknown_with(pre, reply)
            || PersistentMapper::<K, D>::fails_with(reply) {
            1nat
        } else {
            0nat
        },
        forall|i: int|
            0 <= i < outputs_in(step.effects@).len() ==> (#[trigger] outputs_in(step.effects@)[i]) is Err,
{
    let effects = step.effects@;
    let no_transfers = Seq::<GroupTransfer<K>>::empty();
    assert(items_in_transfers(no_transfers) == 0);
    match (pre.phase, reply) {
        (PersistentPhase::Placing, PersistentReply::Fragment(_)) => {
            lemma_reports_only(effects);
            assert(transfers_in(effects) =~= no_transfers);
        },
        (PersistentPhase::Loading, PersistentReply::Copied(Ok(_))) => {
            lemma_next_usable(pre.groups@, pre.placement.cursor + 1);
            lemma_reports_only(effects);
            assert(transfers_in(effects) =~= no_transfers);
            let fresh = post.table@.last();
            lemma_cells_empty(fresh.dpus@);
            assert forall|g: int| 0 <= g < post.table@.len() implies entry_wf(
                #[trigger] post.table@[g],
            ) by {
                if g < pre.table@.len() {
                    assert(post.table@[g] == post.table@.drop_last()[g]);
                }
            }
        },
        (PersistentPhase::Loading, PersistentReply::Copied(Err(err))) => {
            lemma_project_none(effects, |e: Effect<K>| transfer_of(e));
            lemma_project_none(effects, |e: Effect<K>| job_of(e));
            lemma_project_none(effects, |e: Effect<K>| finished_of(e));
            lemma_project_none(effects, |e: Effect<K>| release_of(e));
            lemma_project_cut(effects, 1, |e: Effect<K>| output_of(e));
            lemma_project_last(effects.subrange(0, 1), |e: Effect<K>| output_of(e));
            assert(transfers_in(effects) =~= no_transfers);
        },
        (PersistentPhase::AwaitingInput, PersistentReply::Input(Some(input))) => {
            match PersistentMapper::route(pre, input.0) {
                Some((g, d)) => {
                    let mid = choose|mid: GroupSlots<K>|
                        {
                            &&& #[trigger] pre.table@[g].deposited(d, input.1, mid)
                            &&& PersistentMapper::<K, D>::sends(
                                mid,
                                mid.present && mid.complete(),
                                post.table@[g],
                                effects,
                            )
                        };
                    lemma_deposited(pre.table@[g], d, input.1, mid);
                    lemma_sends::<K, D>(mid, mid.present && mid.complete(), post.table@[g], effects);
                    lemma_table_same_but(pre.table@, post.table@, g);
                    assert forall|o: int| 0 <= o < post.table@.len() implies entry_wf(
                        #[trigger] post.table@[o],
                    ) by {
                        if o != g {
                            assert(post.table@[o] == pre.table@[o]);
                        }
                    }
                },
                None => {
                    lemma_project_none(effects, |e: Effect<K>| transfer_of(e));
                    lemma_project_none(effects, |e: Effect<K>| job_of(e));
                    lemma_project_none(effects, |e: Effect<K>| finished_of(e));
                    lemma_project_none(effects, |e: Effect<K>| release_of(e));
                    lemma_project_last(effects, |e: Effect<K>| output_of(e));
                    assert(transfers_in(effects) =~= no_transfers);
                },
            }
        },
        (PersistentPhase::AwaitingInput, PersistentReply::Input(None)) => {
            let leaving = flush_indices(pre.table@);
            let sent = effects.subrange(0, leaving.len() as int);
            assert forall|k: int| 0 <= k < sent.len() implies {
                &&& (#[trigger] sent[k]) matches Effect::Transfer(transfer)
                &&& pre.table@[leaving[k]].ships(transfer)
            } by {
                assert(sent[k] == effects[k]);
            }
            lemma_flushed(pre.table@, post.table@, sent);
            lemma_project_cut(effects, leaving.len() as int, |e: Effect<K>| transfer_of(e));
            lemma_project_cut(effects, leaving.len() as int, |e: Effect<K>| job_of(e));
            lemma_project_cut(effects, leaving.len() as int, |e: Effect<K>| finished_of(e));
            lemma_project_cut(effects, leaving.len() as int, |e: Effect<K>| release_of(e));
            lemma_project_cut(effects, leaving.len() as int, |e: Effect<K>| output_of(e));
        },
        (PersistentPhase::Polling, PersistentReply::Group(Some(group))) => {
            lemma_entry_of_group(pre.table@, group.id);
            match PersistentMapper::returning(pre, group) {
                Some(g) => {
                    let mid = choose|mid: GroupSlots<K>|
                        {
                            &&& #[trigger] pre.table@[g].refilled(mid)
                            &&& PersistentMapper::<K, D>::sends(
                                mid,
                                mid.complete(),
                                post.table@[g],
                                effects,
                            )
                        };
                    lemma_refilled(pre.table@[g], mid);
                    lemma_sends::<K, D>(mid, mid.complete(), post.table@[g], effects);
                    lemma_table_same_but(pre.table@, post.table@, g);
                    assert forall|o: int| 0 <= o < post.table@.len() implies entry_wf(
                        #[trigger] post.table@[o],
                    ) by {
                        if o != g {
                            assert(post.table@[o] == pre.table@[o]);
                        }
                    }
                },
                None => {
                    lemma_reports_only(effects);
                    assert(transfers_in(effects) =~= no_transfers);
                },
            }
        },
        (PersistentPhase::Polling, PersistentReply::Group(None)) => {
            lemma_reports_only(effects);
            assert(transfers_in(effects) =~= no_transfers);
        },
        (PersistentPhase::Flushing, PersistentReply::Group(Some(group))) => {
            lemma_entry_of_group(pre.table@, group.id);
            match PersistentMapper::returning(pre, group) {
                Some(g) => {
                    let n = PersistentMapper::sent_back(pre, post, g);
                    let sent = effects.subrange(0, n);
                    let mid = choose|mid: GroupSlots<K>|
                        {
                            &&& #[trigger] pre.table@[g].refilled(mid)
                            &&& PersistentMapper::<K, D>::sends(
                                mid,
                                mid.started(),
                                post.table@[g],
                                sent,
                            )
                        };
                    lemma_refilled(pre.table@[g], mid);
                    lemma_sends::<K, D>(mid, mid.started(), post.table@[g], sent);
                    lemma_table_same_but(pre.table@, post.table@, g);
                    assert forall|o: int| 0 <= o < post.table@.len() implies entry_wf(
                        #[trigger] post.table@[o],
                    ) by {
                        if o != g {
                            assert(post.table@[o] == pre.table@[o]);
                        }
                    }
                    lemma_project_cut(effects, n, |e: Effect<K>| transfer_of(e));
                    lemma_project_cut(effects, n, |e: Effect<K>| job_of(e));
                    lemma_project_cut(effects, n, |e: Effect<K>| finished_of(e));
                    lemma_project_cut(effects, n, |e: Effect<K>| release_of(e));
                    lemma_project_cut(effects, n, |e: Effect<K>| output_of(e));
                },
                None => {
                    lemma_reports_only(effects);
                    assert(transfers_in(effects) =~= no_transfers);
                },
            }
        },
        _ => {},
    }
}

/// Whether `item` is part of `transfer`: some position of the batch holds its
/// regions to write, its key and its region to read back.
pub open spec fn carries<K>(transfer: GroupTransfer<K>, item: MemoryTransfers<K>) -> bool {
    exists|p: int|
        0 <= p < transfer.2@.len() && p < transfer.1@.len() && #[trigger] transfer.2@[p] == (
            item.key,
            item.output,
        ) && transfer.1@[p] == item.inputs
}

/// Whether `item` leaves with a batch of group `id` in `effects`.
pub open spec fn leaves_with<K>(effects: Seq<Effect<K>>, id: u32, item: MemoryTransfers<K>) -> bool {
    exists|k: int|
        0 <= k < effects.len() && (#[trigger] effects[k]) is Transfer && effects[k]->Transfer_0.0.id
            == id && carries(effects[k]->Transfer_0, item)
}

/// The item in a slot is part of the batch built from the slots.
proof fn lemma_batch_holds<K>(slots: Seq<DpuSlot<K>>, d: int) -> (p: int)
    requires
        0 <= d < slots.len(),
        slots[d].item is Some,
    ensures
        batch_inputs(slots).len() == batch_outputs(slots).len(),
        0 <= p < batch_outputs(slots).len(),
        batch_outputs(slots)[p] == (slots[d].item.unwrap().key, slots[d].item.unwrap().output),
        batch_inputs(slots)[p] == slots[d].item.unwrap().inputs,
    decreases slots.len(),
{
    lemma_batch_lengths(slots);
    lemma_batch_lengths(slots.drop_last());
    if d == slots.len() - 1 {
        batch_outputs(slots.drop_last()).len() as int
    } else {
        lemma_batch_holds(slots.drop_last(), d)
    }
}

/// A batch has as many lists of regions to write as keys.
proof fn lemma_batch_lengths<K>(slots: Seq<DpuSlot<K>>)
    ensures
        batch_inputs(slots).len() == batch_outputs(slots).len(),
    decreases slots.len(),
{
    if slots.len() > 0 {
        lemma_batch_lengths(slots.drop_last());
    }
}

/// An entry that leaves when the input ends is among those listed.
proof fn lemma_flush_indices_hold<K>(table: Seq<GroupSlots<K>>, g: int) -> (k: int)
    requires
        0 <= g < table.len(),
        flushable(table[g]),
    ensures
        0 <= k < flush_indices(table).len(),
        flush_indices(table)[k] == g,
    decreases table.len(),
{
    if g == table.len() - 1 {
        flush_indices(table.drop_last()).len() as int
    } else {
        assert(table.drop_last()[g] == table[g]);
        lemma_flush_indices_hold(table.drop_last(), g)
    }
}

impl<K, D: Hash + Eq> PersistentMapper<K, D> {
    /// The items that come with `reply` for DPU `d` of table entry `g`.
    pub open spec fn arriving(pre: Self, reply: PersistentReply<K, D>, g: int, d: int) -> Seq<
        MemoryTransfers<K>,
    > {
        match reply {
            PersistentReply::Input(Some(input)) => if Self::route(pre, input.0) == Some((g, d)) {
                seq![input.1]
            } else {
                Seq::empty()
            },
            _ => Seq::empty(),
        }
    }
}

/// What a group that was just filled does to the line of one of its DPUs.
proof fn lemma_sends_line<K, D: Hash + Eq>(
    mid: GroupSlots<K>,
    leaves: bool,
    post: GroupSlots<K>,
    effects: Seq<Effect<K>>,
    d: int,
)
    requires
        0 <= d < mid.dpus@.len(),
        PersistentMapper::<K, D>::sends(mid, leaves, post, effects),
    ensures
        post.id == mid.id,
        d < post.dpus@.len(),
        post.dpus@[d].dpu == mid.dpus@[d].dpu,
        line(post.dpus@[d]) == line(mid.dpus@[d]) || (line(mid.dpus@[d]).len() > 0 && line(
            post.dpus@[d],
        ) == line(mid.dpus@[d]).skip(1) && leaves_with(effects, mid.id, line(mid.dpus@[d])[0])),
{
    if leaves {
        let transfer = effects[0]->Transfer_0;
        lemma_shipped(mid, transfer, post);
        assert(mid.dpus@[d].freed(post.dpus@[d]));
        if mid.dpus@[d].item is Some {
            let p = lemma_batch_holds(mid.dpus@, d);
            let item = line(mid.dpus@[d])[0];
            assert(item == mid.dpus@[d].item.unwrap());
            assert(transfer.2@[p] == (item.key, item.output) && transfer.1@[p] == item.inputs);
            assert(carries(transfer, item));
            assert(effects[0] is Transfer && effects[0]->Transfer_0.0.id == mid.id);
        }
    }
}

/// Per-DPU order at the mapper: over every step, the items of one DPU, the
/// one in the batch under construction first and then the waiting ones, stay
/// in the order in which they came. An item that comes in joins at the end;
/// at most one item leaves, it is the first in line, and it leaves with a
/// batch of the DPU's group.
pub proof fn lemma_per_dpu_order<K, D: Hash + Eq>(
    pre: PersistentMapper<K, D>,
    reply: PersistentReply<K, D>,
    post: PersistentMapper<K, D>,
    step: Step<K, PersistentRequest>,
    g: int,
    d: int,
)
    requires
        pre.wf(),
        PersistentMapper::<K, D>::expects(pre.phase, reply),
        PersistentMapper::resumes(pre, reply, post, step),
        0 <= g < pre.table@.len(),
        0 <= d < pre.table@[g].dpus@.len(),
    ensures
        g < post.table@.len(),
        d < post.table@[g].dpus@.len(),
        post.table@[g].id == pre.table@[g].id,
        post.table@[g].dpus@[d].dpu == pre.table@[g].dpus@[d].dpu,
        ({
            let queue = line(pre.table@[g].dpus@[d]) + PersistentMapper::arriving(pre, reply, g, d);
            let after = line(post.table@[g].dpus@[d]);
            after == queue || (queue.len() > 0 && after == queue.skip(1) && leaves_with(
                step.effects@,
                pre.table@[g].id,
                queue[0],
            ))
        }),
{
    let effects = step.effects@;
    let cell = pre.table@[g].dpus@[d];
    let queue = line(cell) + PersistentMapper::arriving(pre, reply, g, d);
    match (pre.phase, reply) {
        (PersistentPhase::Loading, PersistentReply::Copied(Ok(_))) => {
            assert(post.table@[g] == post.table@.drop_last()[g]);
            assert(queue =~= line(cell));
        },
        (PersistentPhase::AwaitingInput, PersistentReply::Input(Some(input))) => {
            match PersistentMapper::route(pre, input.0) {
                Some((target, slot)) => {
                    if target == g {
                        let mid = choose|mid: GroupSlots<K>|
                            {
                                &&& #[trigger] pre.table@[g].deposited(slot, input.1, mid)
                                &&& PersistentMapper::<K, D>::sends(
                                    mid,
                                    mid.present && mid.complete(),
                                    post.table@[g],
                                    effects,
                                )
                            };
                        lemma_deposited(pre.table@[g], slot, input.1, mid);
                        lemma_sends_line::<K, D>(
                            mid,
                            mid.present && mid.complete(),
                            post.table@[g],
                            effects,
                            d,
                        );
                        if slot == d {
                            assert(queue =~= line(mid.dpus@[d]));
                        } else {
                            assert(mid.dpus@[d] == cell);
                            assert(queue =~= line(mid.dpus@[d]));
                        }
                    } else {
                        assert(post.table@[g] == pre.table@[g]);
                        assert(queue =~= line(cell));
                    }
                },
                None => {
                    assert(queue =~= line(cell));
                },
            }
        },
        (PersistentPhase::AwaitingInput, PersistentReply::Input(None)) => {
            assert(queue =~= line(cell));
            if flushable(pre.table@[g]) {
                let k = lemma_flush_indices_hold(pre.table@, g);
                let transfer = effects[k]->Transfer_0;
                lemma_shipped(pre.table@[g], transfer, post.table@[g]);
                assert(cell.freed(post.table@[g].dpus@[d]));
                if cell.item is Some {
                    let p = lemma_batch_holds(pre.table@[g].dpus@, d);
                    let item = queue[0];
                    assert(item == cell.item.unwrap());
                    assert(transfer.2@[p] == (item.key, item.output) && transfer.1@[p]
                        == item.inputs);
                    assert(carries(transfer, item));
                    assert(effects[k] is Transfer && effects[k]->Transfer_0.0.id == pre.table@[g].id);
                }
            } else {
                assert(post.table@[g] == pre.table@[g]);
            }
        },
        (PersistentPhase::Polling, PersistentReply::Group(Some(group))) => {
            assert(queue =~= line(cell));
            lemma_entry_of_group(pre.table@, group.id);
            match PersistentMapper::returning(pre, group) {
                Some(target) => {
                    if target == g {
                        let mid = choose|mid: GroupSlots<K>|
                            {
                                &&& #[trigger] pre.table@[g].refilled(mid)
                                &&& PersistentMapper::<K, D>::sends(
                                    mid,
                                    mid.complete(),
                                    post.table@[g],
                                    effects,
                                )
                            };
                        lemma_refilled(pre.table@[g], mid);
                        assert(cell.refilled(mid.dpus@[d]));
                        lemma_sends_line::<K, D>(mid, mid.complete(), post.table@[g], effects, d);
                    } else {
                        assert(post.table@[g] == pre.table@[g]);
                    }
                },
                None => {},
            }
        },
        (PersistentPhase::Flushing, PersistentReply::Group(Some(group))) => {
            assert(queue =~= line(cell));
            lemma_entry_of_group(pre.table@, group.id);
            match PersistentMapper::returning(pre, group) {
                Some(target) => {
                    if target == g {
                        let n = PersistentMapper::sent_back(pre, post, g);
                        let sent = effects.subrange(0, n);
                        let mid = choose|mid: GroupSlots<K>|
                            {
                                &&& #[trigger] pre.table@[g].refilled(mid)
                                &&& PersistentMapper::<K, D>::sends(
                                    mid,
                                    mid.started(),
                                    post.table@[g],
                                    sent,
                                )
                            };
                        lemma_refilled(pre.table@[g], mid);
                        assert(cell.refilled(mid.dpus@[d]));
                        lemma_sends_line::<K, D>(mid, mid.started(), post.table@[g], sent, d);
                        if leaves_with(sent, mid.id, line(mid.dpus@[d])[0]) {
                            let k = choose|k: int|
                                0 <= k < sent.len() && (#[trigger] sent[k]) is Transfer
                                    && sent[k]->Transfer_0.0.id == mid.id && carries(
                                    sent[k]->Transfer_0,
                                    line(mid.dpus@[d])[0],
                                );
                            assert(effects[k] == sent[k]);
                        }
                    } else {
                        assert(post.table@[g] == pre.table@[g]);
                    }
                },
                None => {},
            }
        },
        _ => {
            assert(queue =~= line(cell));
        },
    }
}

/// Whether `key` is the key of one of the work items `taken`.
pub open spec fn taken_key<K, D>(taken: Seq<(D, MemoryTransfers<K>)>, key: K) -> bool {
    exists|j: int| 0 <= j < taken.len() && (#[trigger] taken[j]).1.key == key
}

/// Whether every item that waits in `table` has the key of one of the work
/// items `taken`.
pub open spec fn table_known<K, D>(taken: Seq<(D, MemoryTransfers<K>)>, table: Seq<GroupSlots<K>>) -> bool {
    forall|g: int, d: int, i: int|
        0 <= g < table.len() && 0 <= d < table[g].dpus@.len() && 0 <= i < line(
            table[g].dpus@[d],
        ).len() ==> taken_key(taken, (#[trigger] line(table[g].dpus@[d])[i]).key)
}

/// Whether every key in `batch` is the key of one of the work items `taken`.
pub open spec fn batch_known<K, D>(taken: Seq<(D, MemoryTransfers<K>)>, transfer: GroupTransfer<K>) -> bool {
    forall|p: int| 0 <= p < transfer.2@.len() ==> taken_key(taken, (#[trigger] transfer.2@[p]).0)
}

/// Every position of a batch holds the item of some slot.
proof fn lemma_batch_from<K>(slots: Seq<DpuSlot<K>>, p: int) -> (d: int)
    requires
        0 <= p < batch_outputs(slots).len(),
    ensures
        0 <= d < slots.len(),
        slots[d].item is Some,
        batch_outputs(slots)[p] == (slots[d].item.unwrap().key, slots[d].item.unwrap().output),
    decreases slots.len(),
{
    if slots.last().item is Some && p == batch_outputs(slots.drop_last()).len() {
        slots.len() - 1
    } else {
        lemma_batch_from(slots.drop_last(), p)
    }
}

/// A batch built from slots whose items are known holds known keys only.
proof fn lemma_ships_known<K, D>(
    taken: Seq<(D, MemoryTransfers<K>)>,
    entry: GroupSlots<K>,
    transfer: GroupTransfer<K>,
)
    requires
        entry.ships(transfer),
        forall|d: int, i: int|
            0 <= d < entry.dpus@.len() && 0 <= i < line(entry.dpus@[d]).len() ==> taken_key(
                taken,
                (#[trigger] line(entry.dpus@[d])[i]).key,
            ),
    ensures
        batch_known(taken, transfer),
{
    assert forall|p: int| 0 <= p < transfer.2@.len() implies taken_key(
        taken,
        (#[trigger] transfer.2@[p]).0,
    ) by {
        let d = lemma_batch_from(entry.dpus@, p);
        assert(line(entry.dpus@[d])[0] == entry.dpus@[d].item.unwrap());
    }
}

/// A key that is known stays known when one more item is taken in.
proof fn lemma_taken_key_grows<K, D>(taken: Seq<(D, MemoryTransfers<K>)>, input: (D, MemoryTransfers<K>), key: K)
    requires
        taken_key(taken, key),
    ensures
        taken_key(taken.push(input), key),
{
    let j = choose|j: int| 0 <= j < taken.len() && (#[trigger] taken[j]).1.key == key;
    assert(taken.push(input)[j].1.key == key);
}

/// Key fidelity at the persistent mapper: over every step, every item that
/// waits in the mapper afterwards and every item of a batch that leaves has
/// the key of a work item that was taken in, the one that comes with the
/// reply included.
pub proof fn lemma_persistent_mapper_keys<K, D: Hash + Eq>(
    pre: PersistentMapper<K, D>,
    reply: PersistentReply<K, D>,
    post: PersistentMapper<K, D>,
    step: Step<K, PersistentRequest>,
    taken: Seq<(D, MemoryTransfers<K>)>,
)
    requires
        pre.wf(),
        PersistentMapper::<K, D>::expects(pre.phase, reply),
        PersistentMapper::resumes(pre, reply, post, step),
        table_known(taken, pre.table@),
    ensures
        ({
            let more = match reply {
                PersistentReply::Input(Some(input)) => taken.push(input),
                _ => taken,
            };
            &&& table_known(more, post.table@)
            &&& forall|t: int|
                0 <= t < transfers_in(step.effects@).len() ==> batch_known(
                    more,
                    #[trigger] transfers_in(step.effects@)[t],
                )
        }),
{
    let effects = step.effects@;
    let more = match reply {
        PersistentReply::Input(Some(input)) => taken.push(input),
        _ => taken,
    };
    lemma_persistent_mapper_flow(pre, reply, post, step);
    // What waited before is known among the items taken in by now.
    assert forall|g: int, d: int, i: int|
        0 <= g < pre.table@.len() && 0 <= d < pre.table@[g].dpus@.len() && 0 <= i < line(
            pre.table@[g].dpus@[d],
        ).len() implies taken_key(more, (#[trigger] line(pre.table@[g].dpus@[d])[i]).key) by {
        match reply {
            PersistentReply::Input(Some(input)) => {
                lemma_taken_key_grows(taken, input, line(pre.table@[g].dpus@[d])[i].key);
            },
            _ => {},
        }
    }
    // What waits afterwards waited before or has just come in.
    assert forall|g: int, d: int, i: int|
        0 <= g < post.table@.len() && 0 <= d < post.table@[g].dpus@.len() && 0 <= i < line(
            post.table@[g].dpus@[d],
        ).len() implies taken_key(more, (#[trigger] line(post.table@[g].dpus@[d])[i]).key) by {
        if g < pre.table@.len() {
            lemma_per_dpu_order_dims(pre, reply, post, step, g);
            lemma_per_dpu_order(pre, reply, post, step, g, d);
            let arriving = PersistentMapper::arriving(pre, reply, g, d);
            let queue = line(pre.table@[g].dpus@[d]) + arriving;
            let after = line(post.table@[g].dpus@[d]);
            let k = if after == queue {
                i
            } else {
                i + 1
            };
            assert(after[i] == queue[k]);
            if k < line(pre.table@[g].dpus@[d]).len() {
                assert(queue[k] == line(pre.table@[g].dpus@[d])[k]);
            } else {
                match reply {
                    PersistentReply::Input(Some(input)) => {
                        assert(queue[k] == input.1);
                        assert(more[taken.len() as int].1.key == input.1.key);
                    },
                    _ => {},
                }
            }
        } else {
            // A group that has just entered the table holds no item.
            match (pre.phase, reply) {
                (PersistentPhase::Loading, PersistentReply::Copied(Ok(_))) => {
                    assert(post.table@[g] == post.table@.last());
                },
                _ => {},
            }
        }
    }
    match reply {
        PersistentReply::Input(Some(input)) => {
            assert(more[taken.len() as int].1.key == input.1.key);
        },
        _ => {},
    }
    // What leaves was first in line.
    assert forall|t: int| 0 <= t < transfers_in(effects).len() implies batch_known(
        more,
        #[trigger] transfers_in(effects)[t],
    ) by {
        lemma_leaving_known(pre, reply, post, step, more, t);
    }
}

/// Over a step the table keeps its entries and each entry its DPUs.
proof fn lemma_per_dpu_order_dims<K, D: Hash + Eq>(
    pre: PersistentMapper<K, D>,
    reply: PersistentReply<K, D>,
    post: PersistentMapper<K, D>,
    step: Step<K, PersistentRequest>,
    g: int,
)
    requires
        pre.wf(),
        PersistentMapper::<K, D>::expects(pre.phase, reply),
        PersistentMapper::resumes(pre, reply, post, step),
        0 <= g < pre.table@.len(),
    ensures
        g < post.table@.len(),
        post.table@[g].dpus@.len() == pre.table@[g].dpus@.len(),
{
    match (pre.phase, reply) {
        (PersistentPhase::Loading, PersistentReply::Copied(Ok(_))) => {
            assert(post.table@[g] == post.table@.drop_last()[g]);
        },
        (PersistentPhase::AwaitingInput, PersistentReply::Input(Some(input))) => {
            match PersistentMapper::route(pre, input.0) {
                Some((target, slot)) => {
                    if target == g {
                        let mid = choose|mid: GroupSlots<K>|
                            {
                                &&& #[trigger] pre.table@[g].deposited(slot, input.1, mid)
                                &&& PersistentMapper::<K, D>::sends(
                                    mid,
                                    mid.present && mid.complete(),
                                    post.table@[g],
                                    step.effects@,
                                )
                            };
                    } else {
                        assert(post.table@[g] == pre.table@[g]);
                    }
                },
                None => {},
            }
        },
        (PersistentPhase::AwaitingInput, PersistentReply::Input(None)) => {},
        (PersistentPhase::Polling, PersistentReply::Group(Some(group))) => {
            lemma_entry_of_group(pre.table@, group.id);
            match PersistentMapper::returning(pre, group) {
                Some(target) => {
                    if target == g {
                        let mid = choose|mid: GroupSlots<K>|
                            {
                                &&& #[trigger] pre.table@[g].refilled(mid)
                                &&& PersistentMapper::<K, D>::sends(
                                    mid,
                                    mid.complete(),
                                    post.table@[g],
                                    step.effects@,
                                )
                            };
                    } else {
                        assert(post.table@[g] == pre.table@[g]);
                    }
                },
                None => {},
            }
        },
        (PersistentPhase::Flushing, PersistentReply::Group(Some(group))) => {
            lemma_entry_of_group(pre.table@, group.id);
            match PersistentMapper::returning(pre, group) {
                Some(target) => {
                    if target == g {
                        let n = PersistentMapper::sent_back(pre, post, g);
                        let mid = choose|mid: GroupSlots<K>|
                            {
                                &&& #[trigger] pre.table@[g].refilled(mid)
                                &&& PersistentMapper::<K, D>::sends(
                                    mid,
                                    mid.started(),
                                    post.table@[g],
                                    step.effects@.subrange(0, n),
                                )
                            };
                    } else {
                        assert(post.table@[g] == pre.table@[g]);
                    }
                },
                None => {},
            }
        },
        _ => {},
    }
}

/// The items of a batch that leaves in a step waited in the mapper before
/// the step or came with the reply.
proof fn lemma_leaving_known<K, D: Hash + Eq>(
    pre: PersistentMapper<K, D>,
    reply: PersistentReply<K, D>,
    post: PersistentMapper<K, D>,
    step: Step<K, PersistentRequest>,
    more: Seq<(D, MemoryTransfers<K>)>,
    t: int,
)
    requires
        pre.wf(),
        PersistentMapper::<K, D>::expects(pre.phase, reply),
        PersistentMapper::resumes(pre, reply, post, step),
        table_known(more, pre.table@),
        reply matches PersistentReply::Input(Some(input)) ==> taken_key(more, input.1.key),
        0 <= t < transfers_in(step.effects@).len(),
    ensures
        batch_known(more, transfers_in(step.effects@)[t]),
{
    let effects = step.effects@;
    let pick = |e: Effect<K>| transfer_of(e);
    match (pre.phase, reply) {
        (PersistentPhase::AwaitingInput, PersistentReply::Input(Some(input))) => {
            match PersistentMapper::route(pre, input.0) {
                Some((g, d)) => {
                    let mid = choose|mid: GroupSlots<K>|
                        {
                            &&& #[trigger] pre.table@[g].deposited(d, input.1, mid)
                            &&& PersistentMapper::<K, D>::sends(
                                mid,
                                mid.present && mid.complete(),
                                post.table@[g],
                                effects,
                            )
                        };
                    lemma_deposited(pre.table@[g], d, input.1, mid);
                    lemma_project_all(effects, pick);
                    assert forall|o: int, i: int|
                        0 <= o < mid.dpus@.len() && 0 <= i < line(mid.dpus@[o]).len() implies taken_key(
                        more,
                        (#[trigger] line(mid.dpus@[o])[i]).key,
                    ) by {
                        if o == d {
                            if i < line(pre.table@[g].dpus@[d]).len() {
                                assert(line(mid.dpus@[o])[i] == line(pre.table@[g].dpus@[d])[i]);
                            }
                        } else {
                            assert(mid.dpus@[o] == pre.table@[g].dpus@[o]);
                            assert(line(mid.dpus@[o])[i] == line(pre.table@[g].dpus@[o])[i]);
                        }
                    }
                    lemma_ships_known(more, mid, effects[t]->Transfer_0);
                },
                None => {
                    lemma_project_none(effects, pick);
                },
            }
        },
        (PersistentPhase::AwaitingInput, PersistentReply::Input(None)) => {
            let leaving = flush_indices(pre.table@);
            let sent = effects.subrange(0, leaving.len() as int);
            lemma_flush_indices_bound(pre.table@);
            lemma_project_cut(effects, leaving.len() as int, pick);
            assert forall|k: int| 0 <= k < sent.len() implies pick(#[trigger] sent[k]) is Some by {
                assert(sent[k] == effects[k]);
            }
            lemma_project_all(sent, pick);
            assert(sent[t] == effects[t]);
            let g = leaving[t];
            assert forall|o: int, i: int|
                0 <= o < pre.table@[g].dpus@.len() && 0 <= i < line(pre.table@[g].dpus@[o]).len() implies taken_key(
                more,
                (#[trigger] line(pre.table@[g].dpus@[o])[i]).key,
            ) by {}
            lemma_ships_known(more, pre.table@[g], effects[t]->Transfer_0);
        },
        (PersistentPhase::Polling, PersistentReply::Group(Some(group))) => {
            lemma_entry_of_group(pre.table@, group.id);
            match PersistentMapper::returning(pre, group) {
                Some(g) => {
                    let mid = choose|mid: GroupSlots<K>|
                        {
                            &&& #[trigger] pre.table@[g].refilled(mid)
                            &&& PersistentMapper::<K, D>::sends(
                                mid,
                                mid.complete(),
                                post.table@[g],
                                effects,
                            )
                        };
                    lemma_refilled(pre.table@[g], mid);
                    lemma_project_all(effects, pick);
                    assert forall|o: int, i: int|
                        0 <= o < mid.dpus@.len() && 0 <= i < line(mid.dpus@[o]).len() implies taken_key(
                        more,
                        (#[trigger] line(mid.dpus@[o])[i]).key,
                    ) by {
                        assert(line(mid.dpus@[o])[i] == line(pre.table@[g].dpus@[o])[i]);
                    }
                    lemma_ships_known(more, mid, effects[t]->Transfer_0);
                },
                None => {
                    lemma_project_none(effects, pick);
                },
            }
        },
        (PersistentPhase::Flushing, PersistentReply::Group(Some(group))) => {
            lemma_entry_of_group(pre.table@, group.id);
            match PersistentMapper::returning(pre, group) {
                Some(g) => {
                    let n = PersistentMapper::sent_back(pre, post, g);
                    let sent = effects.subrange(0, n);
                    let mid = choose|mid: GroupSlots<K>|
                        {
                            &&& #[trigger] pre.table@[g].refilled(mid)
                            &&& PersistentMapper::<K, D>::sends(
                                mid,
                                mid.started(),
                                post.table@[g],
                                sent,
                            )
                        };
                    lemma_refilled(pre.table@[g], mid);
                    lemma_project_cut(effects, n, pick);
                    lemma_project_all(sent, pick);
                    assert forall|o: int, i: int|
                        0 <= o < mid.dpus@.len() && 0 <= i < line(mid.dpus@[o]).len() implies taken_key(
                        more,
                        (#[trigger] line(mid.dpus@[o])[i]).key,
                    ) by {
                        assert(line(mid.dpus@[o])[i] == line(pre.table@[g].dpus@[o])[i]);
                    }
                    assert(sent[t] == effects[t]);
                    lemma_ships_known(more, mid, sent[t]->Transfer_0);
                },
                None => {
                    lemma_project_none(effects, pick);
                },
            }
        },
        (PersistentPhase::Loading, PersistentReply::Copied(Err(err))) => {
            lemma_project_none(effects, pick);
        },
        _ => {
            lemma_project_none(effects, pick);
        },
    }
}

/// The identifiers of the groups of `table` that are away.
pub open spec fn away_ids<K>(table: Seq<GroupSlots<K>>) -> Multiset<int>
    decreases table.len(),
{
    if table.len() == 0 {
        Multiset::empty()
    } else if table.last().present {
        away_ids(table.drop_last())
    } else {
        away_ids(table.drop_last()).insert(table.last().id as int)
    }
}

/// The identifier of `entry` if it is away.
pub open spec fn away_id<K>(entry: GroupSlots<K>) -> Multiset<int> {
    if entry.present {
        Multiset::empty()
    } else {
        Multiset::empty().insert(entry.id as int)
    }
}

/// No two groups of `groups` have the same identifier.
pub open spec fn distinct_groups(groups: Seq<DpuGroup>) -> bool {
    forall|i: int, j: int| 0 <= i < j < groups.len() ==> groups[i].id != groups[j].id
}

/// No two entries of `table` have the same identifier.
pub open spec fn distinct_entries<K>(table: Seq<GroupSlots<K>>) -> bool {
    forall|i: int, j: int| 0 <= i < j < table.len() ==> table[i].id != table[j].id
}

impl<K, D: Hash + Eq> PersistentMapper<K, D> {
    /// The mapper's books are in order: its groups have identifiers of their
    /// own, every table entry stands for one of the groups that fragments
    /// were offered to, no two for the same, and no group has come back
    /// without being missed.
    pub open spec fn tidy(self) -> bool {
        &&& distinct_groups(self.groups@)
        &&& distinct_entries(self.table@)
        &&& self.strays@.len() == 0
        &&& forall|g: int|
            0 <= g < self.table@.len() ==> exists|j: int|
                0 <= j < self.placement.cursor && j < self.groups@.len() && (
                #[trigger] self.groups@[j]).id == (#[trigger] self.table@[g]).id
    }

    /// The group that comes with `reply`, if any.
    pub open spec fn group_with(reply: PersistentReply<K, D>) -> Option<DpuGroup> {
        match reply {
            PersistentReply::Group(Some(group)) => Some(group),
            _ => None,
        }
    }
}

/// An entry that is away has its identifier among those of the entries that
/// are away, and every such identifier is that of an entry that is away.
pub proof fn lemma_away_ids_of<K>(table: Seq<GroupSlots<K>>, id: int)
    ensures
        away_ids(table).count(id) > 0 <==> exists|g: int|
            0 <= g < table.len() && (#[trigger] table[g]).id == id && !table[g].present,
    decreases table.len(),
{
    if table.len() > 0 {
        lemma_away_ids_of(table.drop_last(), id);
        if away_ids(table).count(id) > 0 {
            if !table.last().present && table.last().id == id {
                assert(table[table.len() - 1].id == id);
            } else {
                let g = choose|g: int|
                    0 <= g < table.drop_last().len() && (#[trigger] table.drop_last()[g]).id == id
                        && !table.drop_last()[g].present;
                assert(table[g] == table.drop_last()[g]);
            }
        }
        if exists|g: int| 0 <= g < table.len() && (#[trigger] table[g]).id == id && !table[g].present {
            let g = choose|g: int|
                0 <= g < table.len() && (#[trigger] table[g]).id == id && !table[g].present;
            if g < table.len() - 1 {
                assert(table.drop_last()[g] == table[g]);
            }
        }
    }
}

/// The identifiers of the entries that are away are those of all entries but
/// the last and that of the last.
proof fn lemma_away_ids_last<K>(table: Seq<GroupSlots<K>>)
    requires
        table.len() > 0,
    ensures
        away_ids(table) == away_ids(table.drop_last()).add(away_id(table.last())),
{
    assert(away_ids(table) =~= away_ids(table.drop_last()).add(away_id(table.last())));
}

/// What is added on both sides can be left out.
pub proof fn lemma_cancel_ids(a: Multiset<int>, b: Multiset<int>, x: Multiset<int>)
    requires
        a.add(x) == b.add(x),
    ensures
        a == b,
{
    broadcast use vstd::multiset::group_multiset_axioms;

    let left = a.add(x);
    let right = b.add(x);
    assert forall|v: int| a.count(v) == b.count(v) by {
        assert(left.count(v) == a.count(v) + x.count(v));
        assert(right.count(v) == b.count(v) + x.count(v));
        assert(left.count(v) == right.count(v));
    }
    assert(a =~= b);
}

/// A change of one entry that keeps its identifier changes the identifiers
/// of the entries that are away by that entry's alone.
proof fn lemma_away_ids_same_but<K>(pre: Seq<GroupSlots<K>>, post: Seq<GroupSlots<K>>, g: int)
    requires
        0 <= g < pre.len(),
        same_but(pre, post, g),
        post[g].id == pre[g].id,
    ensures
        away_ids(post).add(away_id(pre[g])) == away_ids(pre).add(away_id(post[g])),
    decreases pre.len(),
{
    lemma_away_ids_last(pre);
    lemma_away_ids_last(post);
    if g == pre.len() - 1 {
        assert(post.drop_last() =~= pre.drop_last());
        assert(away_ids(post).add(away_id(pre[g])) =~= away_ids(pre).add(away_id(post[g])));
    } else {
        assert(post.last() == pre.last());
        assert(post.drop_last()[g] == post[g]);
        assert(pre.drop_last()[g] == pre[g]);
        lemma_away_ids_same_but(pre.drop_last(), post.drop_last(), g);
        let left = away_ids(post.drop_last()).add(away_id(pre[g]));
        let right = away_ids(pre.drop_last()).add(away_id(post[g]));
        assert(left == right);
        assert(away_ids(post).add(away_id(pre[g])) =~= left.add(away_id(pre.last())));
        assert(away_ids(pre).add(away_id(post[g])) =~= right.add(away_id(pre.last())));
    }
}

/// When the input ends, the entries that leave become away, and the groups
/// of the batches that leave are theirs.
proof fn lemma_flushed_ids<K>(pre: Seq<GroupSlots<K>>, post: Seq<GroupSlots<K>>, sent: Seq<Effect<K>>)
    requires
        post.len() == pre.len(),
        forall|g: int|
            0 <= g < pre.len() ==> if flushable(#[trigger] pre[g]) {
                pre[g].shipped(post[g])
            } else {
                post[g] == pre[g]
            },
        sent.len() == flush_indices(pre).len(),
        forall|k: int|
            0 <= k < sent.len() ==> {
                &&& (#[trigger] sent[k]) matches Effect::Transfer(transfer)
                &&& pre[flush_indices(pre)[k]].ships(transfer)
            },
    ensures
        away_ids(post) == away_ids(pre).add(ids_of_groups(groups_of_transfers(transfers_in(sent)))),
        forall|g: int| 0 <= g < pre.len() ==> (#[trigger] post[g]).id == pre[g].id,
    decreases pre.len(),
{
    lemma_project_all(sent, |e: Effect<K>| transfer_of(e));
    let groups = groups_of_transfers(transfers_in(sent));
    if pre.len() == 0 {
        assert(groups =~= Seq::<DpuGroup>::empty());
        assert(away_ids(post) =~= away_ids(pre).add(ids_of_groups(groups)));
    } else {
        let last = pre.len() - 1;
        let shorter = pre.drop_last();
        lemma_flush_indices_bound(shorter);
        assert(post.last() == post[last]);
        assert(pre.last() == pre[last]);
        assert forall|g: int| 0 <= g < shorter.len() implies if flushable(#[trigger] shorter[g]) {
            shorter[g].shipped(post.drop_last()[g])
        } else {
            post.drop_last()[g] == shorter[g]
        } by {
            assert(shorter[g] == pre[g]);
            assert(post.drop_last()[g] == post[g]);
        }
        if flushable(pre.last()) {
            let rest = sent.drop_last();
            assert forall|k: int| 0 <= k < rest.len() implies {
                &&& (#[trigger] rest[k]) matches Effect::Transfer(transfer)
                &&& shorter[flush_indices(shorter)[k]].ships(transfer)
            } by {
                assert(rest[k] == sent[k]);
                assert(flush_indices(pre)[k] == flush_indices(shorter)[k]);
                assert(shorter[flush_indices(shorter)[k]] == pre[flush_indices(shorter)[k]]);
            }
            lemma_flushed_ids(shorter, post.drop_last(), rest);
            lemma_project_all(rest, |e: Effect<K>| transfer_of(e));
            let transfer = sent.last()->Transfer_0;
            assert(flush_indices(pre)[sent.len() - 1] == last);
            assert(pre[last].ships(transfer));
            assert(groups.drop_last() =~= groups_of_transfers(transfers_in(rest)));
            assert(groups.last() == transfer.0);
            assert(away_ids(post) =~= away_ids(pre).add(ids_of_groups(groups)));
        } else {
            assert forall|k: int| 0 <= k < sent.len() implies {
                &&& (#[trigger] sent[k]) matches Effect::Transfer(transfer)
                &&& shorter[flush_indices(shorter)[k]].ships(transfer)
            } by {
                assert(shorter[flush_indices(shorter)[k]] == pre[flush_indices(shorter)[k]]);
            }
            lemma_flushed_ids(shorter, post.drop_last(), sent);
            assert(away_ids(post) =~= away_ids(pre).add(ids_of_groups(groups)));
        }
        assert forall|g: int| 0 <= g < pre.len() implies (#[trigger] post[g]).id == pre[g].id by {
            if g < last {
                assert(post.drop_last()[g] == post[g]);
                assert(shorter[g] == pre[g]);
            }
        }
    }
}

/// What a group that was just filled sends, by identifier.
proof fn lemma_sends_ids<K, D: Hash + Eq>(mid: GroupSlots<K>, leaves: bool, post: GroupSlots<K>, effects: Seq<Effect<K>>)
    requires
        mid.present,
        PersistentMapper::<K, D>::sends(mid, leaves, post, effects),
    ensures
        post.id == mid.id,
        away_id(post) == ids_of_groups(groups_of_transfers(transfers_in(effects))),
{
    lemma_project_all(effects, |e: Effect<K>| transfer_of(e));
    let groups = groups_of_transfers(transfers_in(effects));
    if leaves {
        assert(groups.len() == 1);
        assert(groups[0] == effects[0]->Transfer_0.0);
        lemma_ids_one(groups);
    } else {
        assert(groups =~= Seq::<DpuGroup>::empty());
    }
}

/// A step of a mapper whose books are in order leaves them in order and
/// moves groups by their identifiers: a group leaves under the identifier of
/// its table entry, which is then away, and a group that comes back under
/// the identifier of an entry that is away is taken back into that entry.
pub proof fn lemma_persistent_mapper_ids<K, D: Hash + Eq>(
    pre: PersistentMapper<K, D>,
    reply: PersistentReply<K, D>,
    post: PersistentMapper<K, D>,
    step: Step<K, PersistentRequest>,
)
    requires
        pre.wf(),
        pre.tidy(),
        PersistentMapper::<K, D>::expects(pre.phase, reply),
        PersistentMapper::resumes(pre, reply, post, step),
        reply matches PersistentReply::Group(Some(group)) ==> away_ids(pre.table@).count(
            group.id as int,
        ) > 0,
    ensures
        post.tidy(),
        away_ids(post.table@).add(id_of(PersistentMapper::<K, D>::group_with(reply))) == away_ids(
            pre.table@,
        ).add(ids_of_groups(groups_of_transfers(transfers_in(step.effects@)))),
{
    let effects = step.effects@;
    let sent = groups_of_transfers(transfers_in(effects));
    let none = Seq::<DpuGroup>::empty();
    let nothing = Multiset::<int>::empty();
    lemma_persistent_mapper_flow(pre, reply, post, step);
    assert(ids_of_groups(none) == nothing);
    match (pre.phase, reply) {
        (PersistentPhase::Placing, PersistentReply::Fragment(_)) => {
            lemma_project_none(effects, |e: Effect<K>| transfer_of(e));
            assert(sent =~= none);
            assert(away_ids(post.table@).add(nothing) =~= away_ids(pre.table@).add(nothing));
        },
        (PersistentPhase::Loading, PersistentReply::Copied(Ok(_))) => {
            lemma_project_none(effects, |e: Effect<K>| transfer_of(e));
            lemma_next_usable(pre.groups@, pre.placement.cursor + 1);
            assert(sent =~= none);
            let cursor = pre.placement.cursor as int;
            let fresh = post.table@.last();
            assert(fresh.id == pre.groups@[cursor].id);
            assert forall|g: int| 0 <= g < post.table@.len() implies exists|j: int|
                0 <= j < post.placement.cursor && j < post.groups@.len() && (
                #[trigger] post.groups@[j]).id == (#[trigger] post.table@[g]).id by {
                if g < pre.table@.len() {
                    assert(post.table@[g] == post.table@.drop_last()[g]);
                    let j = choose|j: int|
                        0 <= j < pre.placement.cursor && j < pre.groups@.len() && (
                        #[trigger] pre.groups@[j]).id == pre.table@[g].id;
                    assert(post.groups@[j].id == post.table@[g].id);
                } else {
                    assert(post.groups@[cursor].id == post.table@[g].id);
                }
            }
            assert forall|i: int, j: int| 0 <= i < j < post.table@.len() implies post.table@[i].id
                != post.table@[j].id by {
                assert(post.table@[i] == post.table@.drop_last()[i]);
                if j < pre.table@.len() {
                    assert(post.table@[j] == post.table@.drop_last()[j]);
                } else {
                    let k = choose|k: int|
                        0 <= k < pre.placement.cursor && k < pre.groups@.len() && (
                        #[trigger] pre.groups@[k]).id == pre.table@[i].id;
                    assert(pre.groups@[k].id != pre.groups@[cursor].id);
                }
            }
            assert(away_ids(post.table@).add(nothing) =~= away_ids(pre.table@).add(nothing));
        },
        (PersistentPhase::AwaitingInput, PersistentReply::Input(Some(input))) => {
            match PersistentMapper::route(pre, input.0) {
                Some((g, d)) => {
                    let mid = choose|mid: GroupSlots<K>|
                        {
                            &&& #[trigger] pre.table@[g].deposited(d, input.1, mid)
                            &&& PersistentMapper::<K, D>::sends(
                                mid,
                                mid.present && mid.complete(),
                                post.table@[g],
                                effects,
                            )
                        };
                    if mid.present {
                        lemma_sends_ids::<K, D>(mid, mid.present && mid.complete(), post.table@[g], effects);
                    } else {
                        lemma_project_none(effects, |e: Effect<K>| transfer_of(e));
                        assert(sent =~= none);
                    }
                    lemma_away_ids_same_but(pre.table@, post.table@, g);
                    lemma_tidy_same_but(pre, post, g);
                    if mid.present {
                        assert(away_id(pre.table@[g]) == nothing);
                        assert(away_ids(post.table@).add(nothing) =~= away_ids(pre.table@).add(
                            ids_of_groups(sent),
                        ));
                    } else {
                        assert(away_id(post.table@[g]) == away_id(pre.table@[g]));
                        lemma_cancel_ids(away_ids(post.table@), away_ids(pre.table@), away_id(pre.table@[g]));
                        assert(away_ids(post.table@).add(nothing) =~= away_ids(pre.table@).add(
                            ids_of_groups(sent),
                        ));
                    }
                },
                None => {
                    lemma_project_none(effects, |e: Effect<K>| transfer_of(e));
                    assert(sent =~= none);
                    assert(away_ids(post.table@).add(nothing) =~= away_ids(pre.table@).add(nothing));
                },
            }
        },
        (PersistentPhase::AwaitingInput, PersistentReply::Input(None)) => {
            let leaving = flush_indices(pre.table@);
            let first = effects.subrange(0, leaving.len() as int);
            assert forall|k: int| 0 <= k < first.len() implies {
                &&& (#[trigger] first[k]) matches Effect::Transfer(transfer)
                &&& pre.table@[leaving[k]].ships(transfer)
            } by {
                assert(first[k] == effects[k]);
            }
            lemma_flushed_ids(pre.table@, post.table@, first);
            lemma_project_cut(effects, leaving.len() as int, |e: Effect<K>| transfer_of(e));
            assert(away_ids(post.table@).add(nothing) =~= away_ids(pre.table@).add(
                ids_of_groups(sent),
            ));
            assert forall|g: int| 0 <= g < post.table@.len() implies exists|j: int|
                0 <= j < post.placement.cursor && j < post.groups@.len() && (
                #[trigger] post.groups@[j]).id == (#[trigger] post.table@[g]).id by {
                let j = choose|j: int|
                    0 <= j < pre.placement.cursor && j < pre.groups@.len() && (
                    #[trigger] pre.groups@[j]).id == pre.table@[g].id;
                assert(post.groups@[j].id == post.table@[g].id);
            }
        },
        (PersistentPhase::Polling, PersistentReply::Group(Some(group))) => {
            let g = lemma_comes_back(pre, group);
            let mid = choose|mid: GroupSlots<K>|
                {
                    &&& #[trigger] pre.table@[g].refilled(mid)
                    &&& PersistentMapper::<K, D>::sends(mid, mid.complete(), post.table@[g], effects)
                };
            lemma_sends_ids::<K, D>(mid, mid.complete(), post.table@[g], effects);
            lemma_away_ids_same_but(pre.table@, post.table@, g);
            lemma_tidy_same_but(pre, post, g);
            assert(away_ids(post.table@).add(id_of(Some(group))) =~= away_ids(pre.table@).add(
                ids_of_groups(sent),
            ));
        },
        (PersistentPhase::Flushing, PersistentReply::Group(Some(group))) => {
            let g = lemma_comes_back(pre, group);
            let n = PersistentMapper::sent_back(pre, post, g);
            let first = effects.subrange(0, n);
            let mid = choose|mid: GroupSlots<K>|
                {
                    &&& #[trigger] pre.table@[g].refilled(mid)
                    &&& PersistentMapper::<K, D>::sends(mid, mid.started(), post.table@[g], first)
                };
            lemma_sends_ids::<K, D>(mid, mid.started(), post.table@[g], first);
            lemma_project_cut(effects, n, |e: Effect<K>| transfer_of(e));
            lemma_away_ids_same_but(pre.table@, post.table@, g);
            lemma_tidy_same_but(pre, post, g);
            assert(away_ids(post.table@).add(id_of(Some(group))) =~= away_ids(pre.table@).add(
                ids_of_groups(sent),
            ));
        },
        _ => {
            lemma_project_none(effects, |e: Effect<K>| transfer_of(e));
            assert(sent =~= none);
            assert(away_ids(post.table@).add(nothing) =~= away_ids(pre.table@).add(nothing));
        },
    }
}

/// A group that comes back under the identifier of an entry that is away is
/// the group that this entry misses.
pub proof fn lemma_comes_back<K, D: Hash + Eq>(pre: PersistentMapper<K, D>, group: DpuGroup) -> (g: int)
    requires
        pre.tidy(),
        away_ids(pre.table@).count(group.id as int) > 0,
    ensures
        PersistentMapper::returning(pre, group) == Some(g),
        0 <= g < pre.table@.len(),
        pre.table@[g].id == group.id,
        !pre.table@[g].present,
{
    lemma_away_ids_of(pre.table@, group.id as int);
    lemma_entry_of_group(pre.table@, group.id);
    let g = choose|g: int|
        0 <= g < pre.table@.len() && (#[trigger] pre.table@[g]).id == group.id as int
            && !pre.table@[g].present;
    let found = entry_of_group(pre.table@, group.id).unwrap();
    assert(pre.table@[found].id == pre.table@[g].id);
    assert(found == g);
    g
}

/// A change of one entry that keeps its identifier keeps the books in order.
proof fn lemma_tidy_same_but<K, D: Hash + Eq>(pre: PersistentMapper<K, D>, post: PersistentMapper<K, D>, g: int)
    requires
        pre.tidy(),
        0 <= g < pre.table@.len(),
        same_but(pre.table@, post.table@, g),
        post.table@[g].id == pre.table@[g].id,
        post.groups == pre.groups,
        post.strays == pre.strays,
        post.placement == pre.placement,
    ensures
        post.tidy(),
{
    assert forall|i: int| 0 <= i < post.table@.len() implies (#[trigger] post.table@[i]).id
        == pre.table@[i].id by {
        if i != g {
            assert(post.table@[i] == pre.table@[i]);
        }
    }
    assert forall|i: int| 0 <= i < post.table@.len() implies exists|j: int|
        0 <= j < post.placement.cursor && j < post.groups@.len() && (#[trigger] post.groups@[j]).id == (
        #[trigger] post.table@[i]).id by {
        let j = choose|j: int|
            0 <= j < pre.placement.cursor && j < pre.groups@.len() && (#[trigger] pre.groups@[j]).id
                == pre.table@[i].id;
        assert(post.groups@[j].id == post.table@[i].id);
    }
}

} // verus!
