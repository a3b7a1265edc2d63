//! The mapper of the persistent model: it first pins every fragment to a DPU
//! and loads it there, then routes each work item to the DPU that holds the
//! fragment it names.

use crate::dpu::DpuId;
use crate::error::ClusterError;
use crate::memory::with_entry;
use crate::memory::MemoryTransfer;
use crate::memory::MemoryTransferEntryReference;
use crate::pipeline::monitoring::Event;
use crate::pipeline::monitoring::EventMonitor;
use crate::pipeline::monitoring::Process;
use crate::pipeline::stages::DpuGroup;
use crate::pipeline::stages::Effect;
use crate::pipeline::stages::GroupTransfer;
use crate::pipeline::stages::Step;
use crate::pipeline::transfer::InputMemoryTransfer;
use crate::pipeline::transfer::MemoryTransfers;
use crate::pipeline::transfer::OutputMemoryTransfer;
use crate::pipeline::GroupId;
use crate::pipeline::PipelineError;
use std::collections::HashMap;
use std::collections::VecDeque;
use std::hash::Hash;
use vstd::prelude::*;
use vstd::std_specs::hash::obeys_key_model;

verus! {

/// What the persistent mapper waits for.
#[derive(Debug)]
pub enum PersistentRequest {
    /// The next fragment to pin.
    NextFragment,
    /// The outcome of writing this transfer into DPU memory.
    CopyToMemory(MemoryTransfer),
    /// The next work item; waits until one comes or the input ends.
    NextInput,
    /// A group given back by the fetcher; waits until one comes.
    FreeGroup,
    /// A further group given back by the fetcher, if one is at hand.
    SpareGroup,
    /// Nothing more: the mapper has stopped.
    Exit,
}

/// The answer to a request of the persistent mapper.
#[derive(Debug)]
pub enum PersistentReply<K, D> {
    /// Answers `NextFragment`: a fragment's id and content, or `None` once
    /// there are no more.
    Fragment(Option<(D, InputMemoryTransfer)>),
    /// Answers `CopyToMemory`.
    Copied(Result<(), ClusterError>),
    /// Answers `NextInput`: the id of the fragment the item works on and the
    /// item's transfers, or `None` once the input has ended.
    Input(Option<(D, MemoryTransfers<K>)>),
    /// Answers `FreeGroup` and `SpareGroup`: a group, or `None` when none is
    /// to be had.
    Group(Option<DpuGroup>),
    /// An effect could not be performed: whoever should take it is gone.
    Broken,
}

/// Where the persistent mapper stands between two steps.
#[derive(Clone, Copy, Debug, PartialEq, Eq, Structural)]
pub enum PersistentPhase {
    /// Not started yet.
    Created,
    /// Pinning fragments to the DPUs of one group.
    Placing,
    /// Waiting for the fragments of one group to be written.
    Loading,
    /// Waiting for the next work item.
    AwaitingInput,
    /// Items wait for groups that are away; collecting the groups at hand.
    Polling,
    /// The input has ended and items still wait; waiting for a group.
    Flushing,
    /// Stopped for good.
    Stopped,
}

/// One DPU that holds a fragment, as the mapper keeps track of it.
#[derive(Debug)]
pub struct DpuSlot<K> {
    pub dpu: DpuId,
    /// The item of the batch under construction.
    pub item: Option<MemoryTransfers<K>>,
    /// The items that wait for a later batch, oldest first.
    pub waiting: VecDeque<MemoryTransfers<K>>,
}

/// A group that holds fragments, as the mapper keeps track of it.
#[derive(Debug)]
pub struct GroupSlots<K> {
    pub id: GroupId,
    /// Whether the group is in the mapper's hands.
    pub present: bool,
    /// The DPUs of the group that hold a fragment.
    pub dpus: Vec<DpuSlot<K>>,
}

/// The regions to write for the items in `slots`, in order.
pub open spec fn batch_inputs<K>(slots: Seq<DpuSlot<K>>) -> Seq<Vec<InputMemoryTransfer>>
    decreases slots.len(),
{
    if slots.len() == 0 {
        Seq::empty()
    } else {
        match slots.last().item {
            Some(item) => batch_inputs(slots.drop_last()).push(item.inputs),
            None => batch_inputs(slots.drop_last()),
        }
    }
}

/// Key and region to read back for the items in `slots`, in order.
pub open spec fn batch_outputs<K>(slots: Seq<DpuSlot<K>>) -> Seq<(K, OutputMemoryTransfer)>
    decreases slots.len(),
{
    if slots.len() == 0 {
        Seq::empty()
    } else {
        match slots.last().item {
            Some(item) => batch_outputs(slots.drop_last()).push((item.key, item.output)),
            None => batch_outputs(slots.drop_last()),
        }
    }
}

impl<K> DpuSlot<K> {
    /// Whether the slot is free while an item waits for it.
    pub open spec fn takes(self) -> bool {
        self.item is None && self.waiting@.len() > 0
    }

    /// `post` is the slot after its item has left with a batch.
    pub open spec fn freed(self, post: Self) -> bool {
        &&& post.dpu == self.dpu
        &&& post.item is None
        &&& post.waiting == self.waiting
    }

    /// `post` is the slot after its group has come back: a free slot takes
    /// the oldest waiting item.
    pub open spec fn refilled(self, post: Self) -> bool {
        &&& post.dpu == self.dpu
        &&& post.item == (if self.takes() {
            Some(self.waiting@[0])
        } else {
            self.item
        })
        &&& post.waiting@ =~= (if self.takes() {
            self.waiting@.skip(1)
        } else {
            self.waiting@
        })
    }

    /// `post` is the slot with one more item: in the batch under construction
    /// if `direct`, else at the end of the queue.
    pub open spec fn deposited(self, direct: bool, item: MemoryTransfers<K>, post: Self) -> bool {
        &&& post.dpu == self.dpu
        &&& if direct {
            &&& post.item == Some(item)
            &&& post.waiting == self.waiting
        } else {
            &&& post.item == self.item
            &&& post.waiting@ =~= self.waiting@.push(item)
        }
    }
}

impl<K> GroupSlots<K> {
    /// Every DPU of the group has its item.
    pub open spec fn complete(self) -> bool {
        forall|d: int| 0 <= d < self.dpus@.len() ==> (#[trigger] self.dpus@[d]).item is Some
    }

    /// Some DPU of the group has its item.
    pub open spec fn started(self) -> bool {
        exists|d: int| 0 <= d < self.dpus@.len() && (#[trigger] self.dpus@[d]).item is Some
    }

    /// Some item waits for a later batch.
    pub open spec fn queued(self) -> bool {
        exists|d: int| 0 <= d < self.dpus@.len() && (#[trigger] self.dpus@[d]).waiting@.len() > 0
    }

    /// `transfer` is the batch under construction: the group with exactly the
    /// DPUs that have an item marked active, and the items in DPU order.
    pub open spec fn ships(self, transfer: GroupTransfer<K>) -> bool {
        &&& transfer.0.id == self.id
        &&& transfer.0.dpus@ =~= Seq::new(
            self.dpus@.len(),
            |d: int| (self.dpus@[d].dpu, self.dpus@[d].item is Some),
        )
        &&& transfer.1@ =~= batch_inputs(self.dpus@)
        &&& transfer.2@ =~= batch_outputs(self.dpus@)
    }

    /// `post` is the group after its batch has left: away, with every slot
    /// free and the queues as they were.
    pub open spec fn shipped(self, post: Self) -> bool {
        &&& post.id == self.id
        &&& !post.present
        &&& post.dpus@.len() == self.dpus@.len()
        &&& forall|d: int|
            0 <= d < self.dpus@.len() ==> (#[trigger] self.dpus@[d]).freed(post.dpus@[d])
    }

    /// `post` is the group after it has come back: in the mapper's hands, and
    /// each free slot filled with the oldest waiting item of its DPU.
    pub open spec fn refilled(self, post: Self) -> bool {
        &&& post.id == self.id
        &&& post.present
        &&& post.dpus@.len() == self.dpus@.len()
        &&& forall|d: int|
            0 <= d < self.dpus@.len() ==> (#[trigger] self.dpus@[d]).refilled(post.dpus@[d])
    }

    /// `post` is the group with `item` put where it belongs: into the slot of
    /// DPU `d` if the group is present and the slot free, else at the end of
    /// that DPU's queue.
    pub open spec fn deposited(self, d: int, item: MemoryTransfers<K>, post: Self) -> bool {
        &&& post.id == self.id
        &&& post.present == self.present
        &&& post.dpus@.len() == self.dpus@.len()
        &&& self.dpus@[d].deposited(self.present && self.dpus@[d].item is None, item, post.dpus@[d])
        &&& forall|o: int|
            0 <= o < self.dpus@.len() && o != d ==> (#[trigger] post.dpus@[o]) == self.dpus@[o]
    }

    pub fn is_complete(&self) -> (b: bool)
        ensures
            b == self.complete(),
    {
        let mut d: usize = 0;
        while d < self.dpus.len()
            invariant
                d <= self.dpus@.len(),
                forall|o: int| 0 <= o < d ==> (#[trigger] self.dpus@[o]).item is Some,
            decreases self.dpus.len() - d,
        {
            if self.dpus[d].item.is_none() {
                return false;
            }
            d += 1;
        }
        true
    }

    pub fn is_started(&self) -> (b: bool)
        ensures
            b == self.started(),
    {
        let mut d: usize = 0;
        while d < self.dpus.len()
            invariant
                d <= self.dpus@.len(),
                forall|o: int| 0 <= o < d ==> (#[trigger] self.dpus@[o]).item is None,
            decreases self.dpus.len() - d,
        {
            if self.dpus[d].item.is_some() {
                return true;
            }
            d += 1;
        }
        false
    }

    pub fn has_queued(&self) -> (b: bool)
        ensures
            b == self.queued(),
    {
        let mut d: usize = 0;
        while d < self.dpus.len()
            invariant
                d <= self.dpus@.len(),
                forall|o: int| 0 <= o < d ==> (#[trigger] self.dpus@[o]).waiting@.len() == 0,
            decreases self.dpus.len() - d,
        {
            if self.dpus[d].waiting.len() > 0 {
                return true;
            }
            d += 1;
        }
        false
    }

    /// Takes the batch under construction out of the group.
    pub fn ship(&mut self) -> (transfer: GroupTransfer<K>)
        ensures
            old(self).ships(transfer),
            old(self).shipped(*final(self)),
    {
        let mut dpus: Vec<(DpuId, bool)> = Vec::new();
        let mut inputs: Vec<Vec<InputMemoryTransfer>> = Vec::new();
        let mut outputs: Vec<(K, OutputMemoryTransfer)> = Vec::new();
        let mut d: usize = 0;
        while d < self.dpus.len()
            invariant
                d <= self.dpus@.len(),
                self.id == old(self).id,
                self.present == old(self).present,
                self.dpus@.len() == old(self).dpus@.len(),
                forall|o: int| d <= o < self.dpus@.len() ==> (#[trigger] self.dpus@[o]) == old(self).dpus@[o],
                forall|o: int| 0 <= o < d ==> (#[trigger] old(self).dpus@[o]).freed(self.dpus@[o]),
                dpus@ =~= Seq::new(
                    d as nat,
                    |o: int| (old(self).dpus@[o].dpu, old(self).dpus@[o].item is Some),
                ),
                inputs@ =~= batch_inputs(old(self).dpus@.subrange(0, d as int)),
                outputs@ =~= batch_outputs(old(self).dpus@.subrange(0, d as int)),
            decreases self.dpus.len() - d,
        {
            proof {
                assert(old(self).dpus@.subrange(0, d + 1).drop_last() =~= old(self).dpus@.subrange(
                    0,
                    d as int,
                ));
            }
            let dpu = self.dpus[d].dpu;
            match self.dpus[d].item.take() {
                Some(item) => {
                    let MemoryTransfers { inputs: regions, output, key } = item;
                    inputs.push(regions);
                    outputs.push((key, output));
                    dpus.push((dpu, true));
                },
                None => {
                    dpus.push((dpu, false));
                },
            }
            d += 1;
        }
        self.present = false;
        proof {
            assert(old(self).dpus@.subrange(0, d as int) =~= old(self).dpus@);
        }
        (DpuGroup { id: self.id, dpus }, inputs, outputs)
    }

    /// Takes the group back: each free slot is filled with the oldest waiting
    /// item of its DPU.
    pub fn refill(&mut self)
        ensures
            old(self).refilled(*final(self)),
    {
        let mut d: usize = 0;
        while d < self.dpus.len()
            invariant
                d <= self.dpus@.len(),
                self.id == old(self).id,
                self.dpus@.len() == old(self).dpus@.len(),
                forall|o: int| d <= o < self.dpus@.len() ==> (#[trigger] self.dpus@[o]) == old(self).dpus@[o],
                forall|o: int| 0 <= o < d ==> (#[trigger] old(self).dpus@[o]).refilled(self.dpus@[o]),
            decreases self.dpus.len() - d,
        {
            if self.dpus[d].item.is_none() {
                match self.dpus[d].waiting.pop_front() {
                    Some(item) => {
                        self.dpus[d].item = Some(item);
                    },
                    None => {},
                }
            }
            d += 1;
        }
        self.present = true;
    }

    /// Puts `item` into the slot of DPU `d` if the group is present and the
    /// slot free, else at the end of that DPU's queue.
    pub fn deposit(&mut self, d: usize, item: MemoryTransfers<K>)
        requires
            d < old(self).dpus@.len(),
        ensures
            old(self).deposited(d as int, item, *final(self)),
    {
        if self.present && self.dpus[d].item.is_none() {
            self.dpus[d].item = Some(item);
        } else {
            self.dpus[d].waiting.push_back(item);
        }
    }
}

/// What the placing of fragments onto the DPUs of one group has come to.
#[derive(Debug)]
pub struct Placement {
    /// Index of the group whose DPUs are being given fragments.
    pub cursor: usize,
    /// The active DPUs of that group.
    pub candidates: Vec<DpuId>,
    /// Those of them that have been given a fragment, in order.
    pub used: Vec<DpuId>,
    /// The fragments of that group, ready to be written.
    pub pending: MemoryTransfer,
    /// Whether the fragments have run out.
    pub exhausted: bool,
}

/// The mapper of the persistent model.
#[derive(Debug)]
pub struct PersistentMapper<K, D> {
    /// The groups of the cluster, in the order in which they get fragments.
    pub groups: Vec<DpuGroup>,
    pub monitoring: EventMonitor,
    pub phase: PersistentPhase,
    pub placement: Placement,
    /// For each fragment, the table entry and the DPU within it that hold it.
    pub mapping: HashMap<D, (usize, usize)>,
    /// The groups that hold fragments.
    pub table: Vec<GroupSlots<K>>,
    /// The groups that came back without the table missing them.
    pub strays: Vec<DpuGroup>,
}

/// Index of the first group from `from` on that has an active DPU; an index
/// past the groups if there is none.
pub open spec fn next_usable(groups: Seq<DpuGroup>, from: int) -> int
    decreases groups.len() - from,
{
    if from >= groups.len() {
        from
    } else if groups[from].active().len() > 0 {
        from
    } else {
        next_usable(groups, from + 1)
    }
}

/// Index of the last entry of `table` with identifier `id`.
pub open spec fn entry_of_group<K>(table: Seq<GroupSlots<K>>, id: GroupId) -> Option<int>
    decreases table.len(),
{
    if table.len() == 0 {
        None
    } else if table.last().id == id {
        Some(table.len() - 1)
    } else {
        entry_of_group(table.drop_last(), id)
    }
}

/// Some item waits in `table` for a later batch.
pub open spec fn any_queued<K>(table: Seq<GroupSlots<K>>) -> bool {
    exists|g: int| 0 <= g < table.len() && (#[trigger] table[g]).queued()
}

/// Whether an entry leaves with its batch when the input ends: it is in the
/// mapper's hands and some DPU has its item.
pub open spec fn flushable<K>(entry: GroupSlots<K>) -> bool {
    entry.present && entry.started()
}

/// The indices of the entries of `table` that leave when the input ends.
pub open spec fn flush_indices<K>(table: Seq<GroupSlots<K>>) -> Seq<int>
    decreases table.len(),
{
    if table.len() == 0 {
        Seq::empty()
    } else if flushable(table.last()) {
        flush_indices(table.drop_last()).push(table.len() - 1)
    } else {
        flush_indices(table.drop_last())
    }
}

/// `entry` is a new table entry for group `id` and the DPUs `used`: present,
/// with every slot free and nothing waiting.
pub open spec fn fresh_entry<K>(entry: GroupSlots<K>, id: GroupId, used: Seq<DpuId>) -> bool {
    &&& entry.id == id
    &&& entry.present
    &&& entry.dpus@.len() == used.len()
    &&& forall|d: int|
        0 <= d < used.len() ==> {
            &&& (#[trigger] entry.dpus@[d]).dpu == used[d]
            &&& entry.dpus@[d].item is None
            &&& entry.dpus@[d].waiting@.len() == 0
        }
}

/// `post` is `pre` but for the entry at `g`.
pub open spec fn same_but<K>(pre: Seq<GroupSlots<K>>, post: Seq<GroupSlots<K>>, g: int) -> bool {
    &&& post.len() == pre.len()
    &&& forall|o: int| 0 <= o < pre.len() && o != g ==> (#[trigger] post[o]) == pre[o]
}

impl<K, D: Hash + Eq> PersistentMapper<K, D> {
    pub fn new(groups: Vec<DpuGroup>, monitoring: EventMonitor) -> (mapper: PersistentMapper<K, D>)
        ensures
            mapper.groups == groups,
            mapper.monitoring == (EventMonitor { process: Process::Mapper, policy: monitoring.policy }),
            mapper.phase == PersistentPhase::Created,
            mapper.placement.cursor == 0,
            mapper.placement.candidates@.len() == 0,
            mapper.placement.used@.len() == 0,
            mapper.placement.pending@ == Map::<u8, Map<DpuId, (u32, Seq<u8>)>>::empty(),
            !mapper.placement.exhausted,
            mapper.mapping@ == Map::<D, (usize, usize)>::empty(),
            mapper.table@.len() == 0,
            mapper.strays@.len() == 0,
    {
        let mut monitoring = monitoring;
        monitoring.set_process(Process::Mapper);
        PersistentMapper {
            groups,
            monitoring,
            phase: PersistentPhase::Created,
            placement: Placement {
                cursor: 0,
                candidates: Vec::new(),
                used: Vec::new(),
                pending: MemoryTransfer::default(),
                exhausted: false,
            },
            mapping: HashMap::new(),
            table: Vec::new(),
            strays: Vec::new(),
        }
    }

    /// Everything but the phase stays as it is.
    pub open spec fn keeps(pre: Self, post: Self) -> bool {
        &&& post.groups == pre.groups
        &&& post.strays == pre.strays
        &&& post.monitoring == pre.monitoring
        &&& post.placement == pre.placement
        &&& post.mapping == pre.mapping
        &&& post.table == pre.table
    }

    /// The mapper stops: it reports the end of its process, if it was
    /// running.
    pub open spec fn stops(pre: Self, post: Self, step: Step<K, PersistentRequest>) -> bool {
        &&& Self::keeps(pre, post)
        &&& post.phase == PersistentPhase::Stopped
        &&& step.request is Exit
        &&& step.effects@ =~= if pre.phase == PersistentPhase::Stopped || pre.phase == PersistentPhase::Created {
            Seq::<Effect<K>>::empty()
        } else {
            seq![Effect::Record(Event::ProcessEnd)]
        }
    }

    /// The mapper turns to the first group from `from` on that has an active
    /// DPU and asks for a fragment; without such a group it asks for the first
    /// work item. Before that it performs `before`.
    pub open spec fn advances(
        pre: Self,
        from: int,
        before: Seq<Effect<K>>,
        post: Self,
        step: Step<K, PersistentRequest>,
    ) -> bool {
        let cursor = next_usable(pre.groups@, from);
        &&& post.groups == pre.groups
        &&& post.strays == pre.strays
        &&& post.monitoring == pre.monitoring
        &&& post.mapping == pre.mapping
        &&& post.placement.cursor == cursor
        &&& post.placement.exhausted == pre.placement.exhausted
        &&& step.effects@ =~= before
        &&& if cursor < pre.groups@.len() {
            &&& post.phase == PersistentPhase::Placing
            &&& post.placement.candidates@ =~= pre.groups@[cursor].active()
            &&& step.request is NextFragment
        } else {
            &&& post.phase == PersistentPhase::AwaitingInput
            &&& post.placement.candidates == pre.placement.candidates
            &&& step.request is NextInput
        }
    }

    /// The fragments of the group at hand are handed over to be written.
    pub open spec fn loads(
        pre: Self,
        pending: Map<u8, Map<DpuId, (u32, Seq<u8>)>>,
        post: Self,
        step: Step<K, PersistentRequest>,
    ) -> bool {
        &&& post.phase == PersistentPhase::Loading
        &&& post.placement.pending@ == Map::<u8, Map<DpuId, (u32, Seq<u8>)>>::empty()
        &&& step.effects@.len() == 0
        &&& step.request matches PersistentRequest::CopyToMemory(transfer)
        &&& transfer@ == pending
    }

    /// What the mapper asks for once the items at hand are routed: the groups
    /// at hand while items wait, else the next item.
    pub open spec fn routes_on(post: Self, step: Step<K, PersistentRequest>) -> bool {
        if any_queued(post.table@) {
            post.phase == PersistentPhase::Polling && step.request is SpareGroup
        } else {
            post.phase == PersistentPhase::AwaitingInput && step.request is NextInput
        }
    }

    /// What the mapper does once the input has ended and the effects `sent`
    /// are decided: it waits for a group while items wait, else it stops.
    pub open spec fn flushes_on(sent: Seq<Effect<K>>, post: Self, step: Step<K, PersistentRequest>) -> bool {
        if any_queued(post.table@) {
            &&& post.phase == PersistentPhase::Flushing
            &&& step.request is FreeGroup
            &&& step.effects@ =~= sent
        } else {
            &&& post.phase == PersistentPhase::Stopped
            &&& step.request is Exit
            &&& step.effects@ =~= sent.push(Effect::Record(Event::ProcessEnd))
        }
    }

    /// The table entry that takes `group` back: the last one with its
    /// identifier, if that one is away.
    pub open spec fn returning(pre: Self, group: DpuGroup) -> Option<int> {
        match entry_of_group(pre.table@, group.id) {
            Some(g) => if pre.table@[g].present {
                None
            } else {
                Some(g)
            },
            None => None,
        }
    }

    /// Where an item for `fragment` goes: the table entry and the DPU within
    /// it that hold the fragment.
    pub open spec fn route(pre: Self, fragment: D) -> Option<(int, int)> {
        if pre.mapping@.contains_key(fragment) && pre.mapping@[fragment].0 < pre.table@.len()
            && pre.mapping@[fragment].1 < pre.table@[pre.mapping@[fragment].0 as int].dpus@.len() {
            Some((pre.mapping@[fragment].0 as int, pre.mapping@[fragment].1 as int))
        } else {
            None
        }
    }

    /// A fragment is pinned to the next free DPU of the group at hand; once
    /// every DPU of the group has one, the fragments are handed over to be
    /// written.
    pub open spec fn places(
        pre: Self,
        fragment: (D, InputMemoryTransfer),
        post: Self,
        step: Step<K, PersistentRequest>,
    ) -> bool {
        if pre.placement.used@.len() < pre.placement.candidates@.len() {
            let dpu = pre.placement.candidates@[pre.placement.used@.len() as int];
            let pending = with_entry(
                pre.placement.pending@,
                dpu,
                fragment.1.offset,
                fragment.1.content@,
            );
            &&& post.groups == pre.groups
            &&& post.strays == pre.strays
            &&& post.monitoring == pre.monitoring
            &&& post.table == pre.table
            &&& post.mapping@ == pre.mapping@.insert(
                fragment.0,
                (pre.table.len(), pre.placement.used.len()),
            )
            &&& post.placement.cursor == pre.placement.cursor
            &&& post.placement.candidates == pre.placement.candidates
            &&& post.placement.exhausted == pre.placement.exhausted
            &&& post.placement.used@ =~= pre.placement.used@.push(dpu)
            &&& if pre.placement.used@.len() + 1 == pre.placement.candidates@.len() {
                Self::loads(pre, pending, post, step)
            } else {
                &&& post.phase == PersistentPhase::Placing
                &&& post.placement.pending@ == pending
                &&& step.effects@.len() == 0
                &&& step.request is NextFragment
            }
        } else {
            Self::stops(pre, post, step)
        }
    }

    /// The fragments have run out: those of the group at hand are handed over
    /// to be written; without any, the mapper asks for the first work item.
    pub open spec fn ends_placing(pre: Self, post: Self, step: Step<K, PersistentRequest>) -> bool {
        &&& post.groups == pre.groups
        &&& post.strays == pre.strays
        &&& post.monitoring == pre.monitoring
        &&& post.table == pre.table
        &&& post.mapping == pre.mapping
        &&& post.placement.cursor == pre.placement.cursor
        &&& post.placement.candidates == pre.placement.candidates
        &&& post.placement.used == pre.placement.used
        &&& post.placement.exhausted
        &&& if pre.placement.used@.len() > 0 {
            Self::loads(pre, pre.placement.pending@, post, step)
        } else {
            &&& post.phase == PersistentPhase::AwaitingInput
            &&& post.placement.pending == pre.placement.pending
            &&& step.effects@.len() == 0
            &&& step.request is NextInput
        }
    }

    /// The fragments of the group at hand are written: the group enters the
    /// table with the DPUs that hold a fragment, and the mapper turns to the
    /// next group, or to the work items once the fragments have run out.
    pub open spec fn loaded(pre: Self, post: Self, step: Step<K, PersistentRequest>) -> bool {
        if pre.placement.cursor < pre.groups@.len() {
            &&& post.table@.len() == pre.table@.len() + 1
            &&& post.table@.drop_last() =~= pre.table@
            &&& fresh_entry(
                post.table@.last(),
                pre.groups@[pre.placement.cursor as int].id,
                pre.placement.used@,
            )
            &&& post.placement.used@.len() == 0
            &&& post.placement.pending == pre.placement.pending
            &&& if pre.placement.exhausted {
                &&& post.groups == pre.groups
                &&& post.strays == pre.strays
                &&& post.monitoring == pre.monitoring
                &&& post.mapping == pre.mapping
                &&& post.phase == PersistentPhase::AwaitingInput
                &&& post.placement.cursor == pre.placement.cursor + 1
                &&& post.placement.candidates == pre.placement.candidates
                &&& post.placement.exhausted
                &&& step.effects@.len() == 0
                &&& step.request is NextInput
            } else {
                Self::advances(pre, pre.placement.cursor + 1, Seq::empty(), post, step)
            }
        } else {
            Self::stops(pre, post, step)
        }
    }

    /// Writing the fragments failed: the error goes to the caller and the
    /// mapper stops.
    pub open spec fn load_failed(
        pre: Self,
        err: ClusterError,
        post: Self,
        step: Step<K, PersistentRequest>,
    ) -> bool {
        &&& Self::keeps(pre, post)
        &&& post.phase == PersistentPhase::Stopped
        &&& step.request is Exit
        &&& step.effects@ =~= seq![
            Effect::Output(Err(PipelineError::InfrastructureError(err))),
            Effect::Record(Event::ProcessEnd),
        ]
    }

    /// `mid` is a group whose slots were just filled; if `leaves`, its batch
    /// is the first effect `step` and `post` is the group after that, else
    /// `post` is `mid` and `step` has no effect before `from`.
    pub open spec fn sends(
        mid: GroupSlots<K>,
        leaves: bool,
        post: GroupSlots<K>,
        effects: Seq<Effect<K>>,
    ) -> bool {
        if leaves {
            &&& mid.shipped(post)
            &&& effects.len() == 1
            &&& effects[0] matches Effect::Transfer(transfer)
            &&& mid.ships(transfer)
        } else {
            &&& post == mid
            &&& effects.len() == 0
        }
    }

    /// `item` is put into the entry `pre` for its DPU `d`, and the group leaves
    /// at once if that makes it complete.
    pub open spec fn deposits(
        pre: GroupSlots<K>,
        d: int,
        item: MemoryTransfers<K>,
        post: GroupSlots<K>,
        effects: Seq<Effect<K>>,
    ) -> bool {
        exists|mid: GroupSlots<K>|
            {
                &&& #[trigger] pre.deposited(d, item, mid)
                &&& Self::sends(mid, mid.present && mid.complete(), post, effects)
            }
    }

    /// The group of entry `pre` comes back, its free slots take the oldest
    /// waiting items, and it leaves again if it is complete, or, with
    /// `started`, if any of its slots is filled.
    pub open spec fn comes_back(
        pre: GroupSlots<K>,
        started: bool,
        post: GroupSlots<K>,
        effects: Seq<Effect<K>>,
    ) -> bool {
        exists|mid: GroupSlots<K>|
            {
                &&& #[trigger] pre.refilled(mid)
                &&& Self::sends(
                    mid,
                    if started {
                        mid.started()
                    } else {
                        mid.complete()
                    },
                    post,
                    effects,
                )
            }
    }

    /// A work item is routed: to the slot or the queue of the DPU that holds
    /// its fragment, and the group leaves once it is complete; an item whose
    /// fragment is unknown is answered with an error.
    pub open spec fn routes(
        pre: Self,
        input: (D, MemoryTransfers<K>),
        post: Self,
        step: Step<K, PersistentRequest>,
    ) -> bool {
        &&& post.groups == pre.groups
        &&& post.strays == pre.strays
        &&& post.monitoring == pre.monitoring
        &&& post.placement == pre.placement
        &&& post.mapping == pre.mapping
        &&& Self::routes_on(post, step)
        &&& if Self::route(pre, input.0) is Some {
            let g = Self::route(pre, input.0).unwrap().0;
            let d = Self::route(pre, input.0).unwrap().1;
            &&& same_but(pre.table@, post.table@, g)
            &&& Self::deposits(pre.table@[g], d, input.1, post.table@[g], step.effects@)
        } else {
            &&& post.table == pre.table
            &&& step.effects@ =~= seq![Effect::Output(Err(PipelineError::UnknownFragmentId))]
        }
    }

    /// The input has ended: every started group at hand leaves with its
    /// batch, in table order; then the mapper waits for groups while items
    /// wait, else it stops.
    pub open spec fn flushes(pre: Self, post: Self, step: Step<K, PersistentRequest>) -> bool {
        let leaving = flush_indices(pre.table@);
        &&& post.groups == pre.groups
        &&& post.strays == pre.strays
        &&& post.monitoring == pre.monitoring
        &&& post.placement == pre.placement
        &&& post.mapping == pre.mapping
        &&& post.table@.len() == pre.table@.len()
        &&& forall|g: int|
            0 <= g < pre.table@.len() ==> if flushable(#[trigger] pre.table@[g]) {
                pre.table@[g].shipped(post.table@[g])
            } else {
                post.table@[g] == pre.table@[g]
            }
        &&& step.effects@.len() >= leaving.len()
        &&& forall|k: int|
            0 <= k < leaving.len() ==> {
                &&& (#[trigger] step.effects@[k]) matches Effect::Transfer(transfer)
                &&& pre.table@[leaving[k]].ships(transfer)
            }
        &&& Self::flushes_on(step.effects@.subrange(0, leaving.len() as int), post, step)
    }

    /// A group comes back while items are routed: its free slots take the
    /// oldest waiting items and it leaves again at once if it is complete. A
    /// group that the table does not miss is set aside.
    pub open spec fn takes_back(
        pre: Self,
        group: DpuGroup,
        post: Self,
        step: Step<K, PersistentRequest>,
    ) -> bool {
        &&& post.groups == pre.groups
        &&& post.monitoring == pre.monitoring
        &&& post.placement == pre.placement
        &&& post.mapping == pre.mapping
        &&& post.phase == PersistentPhase::Polling
        &&& step.request is SpareGroup
        &&& match Self::returning(pre, group) {
            None => {
                &&& post.table == pre.table
                &&& post.strays@ =~= pre.strays@.push(group)
                &&& step.effects@.len() == 0
            },
            Some(g) => {
                &&& post.strays == pre.strays
                &&& same_but(pre.table@, post.table@, g)
                &&& Self::comes_back(pre.table@[g], false, post.table@[g], step.effects@)
            },
        }
    }

    /// Number of batches that leave when the group of entry `g` comes back:
    /// one if the entry is away again afterwards, else none.
    pub open spec fn sent_back(pre: Self, post: Self, g: int) -> int {
        if post.table@[g].present {
            0
        } else {
            1
        }
    }

    /// A group comes back after the input has ended: its free slots take the
    /// oldest waiting items and it leaves again if any slot is filled; then
    /// the mapper waits for groups while items wait, else it stops.
    pub open spec fn drains(
        pre: Self,
        group: DpuGroup,
        post: Self,
        step: Step<K, PersistentRequest>,
    ) -> bool {
        &&& post.groups == pre.groups
        &&& post.monitoring == pre.monitoring
        &&& post.placement == pre.placement
        &&& post.mapping == pre.mapping
        &&& match Self::returning(pre, group) {
            None => {
                &&& post.table == pre.table
                &&& post.strays@ =~= pre.strays@.push(group)
                &&& Self::flushes_on(Seq::empty(), post, step)
            },
            Some(g) => {
                &&& post.strays == pre.strays
                &&& same_but(pre.table@, post.table@, g)
                &&& step.effects@.len() >= Self::sent_back(pre, post, g)
                &&& Self::comes_back(
                    pre.table@[g],
                    true,
                    post.table@[g],
                    step.effects@.subrange(0, Self::sent_back(pre, post, g)),
                )
                &&& Self::flushes_on(
                    step.effects@.subrange(0, Self::sent_back(pre, post, g)),
                    post,
                    step,
                )
            },
        }
    }

    /// How the mapper goes from `pre` to `post` when it is resumed with
    /// `reply`, and what it asks for in `step`.
    pub open spec fn resumes(
        pre: Self,
        reply: PersistentReply<K, D>,
        post: Self,
        step: Step<K, PersistentRequest>,
    ) -> bool {
        match (pre.phase, reply) {
            (PersistentPhase::Placing, PersistentReply::Fragment(Some(fragment))) => Self::places(
                pre,
                fragment,
                post,
                step,
            ),
            (PersistentPhase::Placing, PersistentReply::Fragment(None)) => Self::ends_placing(
                pre,
                post,
                step,
            ),
            (PersistentPhase::Loading, PersistentReply::Copied(Ok(_))) => Self::loaded(
                pre,
                post,
                step,
            ),
            (PersistentPhase::Loading, PersistentReply::Copied(Err(err))) => Self::load_failed(
                pre,
                err,
                post,
                step,
            ),
            (PersistentPhase::AwaitingInput, PersistentReply::Input(Some(input))) => Self::routes(
                pre,
                input,
                post,
                step,
            ),
            (PersistentPhase::AwaitingInput, PersistentReply::Input(None)) => Self::flushes(
                pre,
                post,
                step,
            ),
            (PersistentPhase::Polling, PersistentReply::Group(Some(group))) => Self::takes_back(
                pre,
                group,
                post,
                step,
            ),
            (PersistentPhase::Polling, PersistentReply::Group(None)) => {
                &&& Self::keeps(pre, post)
                &&& post.phase == PersistentPhase::AwaitingInput
                &&& step.effects@.len() == 0
                &&& step.request is NextInput
            },
            (PersistentPhase::Flushing, PersistentReply::Group(Some(group))) => Self::drains(
                pre,
                group,
                post,
                step,
            ),
            _ => Self::stops(pre, post, step),
        }
    }

    /// Starts the mapper: it reports the beginning of its process and turns
    /// to the first group that can take fragments. A mapper that was started
    /// before stops.
    pub fn start(&mut self) -> (step: Step<K, PersistentRequest>)
        ensures
            old(self).phase == PersistentPhase::Created ==> {
                &&& final(self).table == old(self).table
                &&& final(self).placement.used == old(self).placement.used
                &&& final(self).placement.pending == old(self).placement.pending
                &&& Self::advances(
                    *old(self),
                    old(self).placement.cursor as int,
                    seq![Effect::Record(Event::ProcessBegin)],
                    *final(self),
                    step,
                )
            },
            old(self).phase != PersistentPhase::Created ==> Self::stops(
                *old(self),
                *final(self),
                step,
            ),
    {
        match self.phase {
            PersistentPhase::Created => {
                let effects: Vec<Effect<K>> = vec![Effect::Record(Event::ProcessBegin)];
                self.advance(effects)
            },
            _ => self.stop(),
        }
    }

    fn stop(&mut self) -> (step: Step<K, PersistentRequest>)
        ensures
            Self::stops(*old(self), *final(self), step),
    {
        let mut effects: Vec<Effect<K>> = Vec::new();
        match self.phase {
            PersistentPhase::Stopped | PersistentPhase::Created => {},
            _ => {
                effects.push(Effect::Record(Event::ProcessEnd));
            },
        }
        self.phase = PersistentPhase::Stopped;
        Step { effects, request: PersistentRequest::Exit }
    }

    fn advance(&mut self, effects: Vec<Effect<K>>) -> (step: Step<K, PersistentRequest>)
        ensures
            final(self).table == old(self).table,
            final(self).placement.used == old(self).placement.used,
            final(self).placement.pending == old(self).placement.pending,
            Self::advances(*old(self), old(self).placement.cursor as int, effects@, *final(self), step),
    {
        while self.placement.cursor < self.groups.len()
            invariant
                self.groups == old(self).groups,
                self.strays == old(self).strays,
                self.monitoring == old(self).monitoring,
                self.mapping == old(self).mapping,
                self.table == old(self).table,
                self.phase == old(self).phase,
                self.placement.used == old(self).placement.used,
                self.placement.pending == old(self).placement.pending,
                self.placement.candidates == old(self).placement.candidates,
                self.placement.exhausted == old(self).placement.exhausted,
                old(self).placement.cursor <= self.placement.cursor,
                next_usable(self.groups@, old(self).placement.cursor as int) == next_usable(
                    self.groups@,
                    self.placement.cursor as int,
                ),
            decreases self.groups.len() - self.placement.cursor,
        {
            let candidates = self.groups[self.placement.cursor].active_dpus();
            if candidates.len() > 0 {
                self.placement.candidates = candidates;
                self.phase = PersistentPhase::Placing;
                return Step { effects, request: PersistentRequest::NextFragment };
            }
            self.placement.cursor += 1;
        }
        self.phase = PersistentPhase::AwaitingInput;
        Step { effects, request: PersistentRequest::NextInput }
    }

    /// Hands the fragments of the group at hand over to be written.
    fn load(&mut self) -> (step: Step<K, PersistentRequest>)
        ensures
            final(self).groups == old(self).groups,
            final(self).strays == old(self).strays,
            final(self).monitoring == old(self).monitoring,
            final(self).mapping == old(self).mapping,
            final(self).table == old(self).table,
            final(self).placement.cursor == old(self).placement.cursor,
            final(self).placement.candidates == old(self).placement.candidates,
            final(self).placement.used == old(self).placement.used,
            final(self).placement.exhausted == old(self).placement.exhausted,
            Self::loads(*old(self), old(self).placement.pending@, *final(self), step),
    {
        let mut pending = MemoryTransfer::default();
        core::mem::swap(&mut pending, &mut self.placement.pending);
        self.phase = PersistentPhase::Loading;
        Step { effects: Vec::new(), request: PersistentRequest::CopyToMemory(pending) }
    }

    /// Index of the last table entry with identifier `id`.
    fn entry_index(&self, id: GroupId) -> (r: Option<usize>)
        ensures
            match r {
                Some(g) => g < self.table@.len() && entry_of_group(self.table@, id) == Some(g as int),
                None => entry_of_group(self.table@, id) is None,
            },
    {
        let mut g: usize = self.table.len();
        proof {
            assert(self.table@.subrange(0, g as int) =~= self.table@);
        }
        while g > 0
            invariant
                g <= self.table@.len(),
                entry_of_group(self.table@, id) == entry_of_group(self.table@.subrange(0, g as int), id),
            decreases g,
        {
            g -= 1;
            proof {
                assert(self.table@.subrange(0, g + 1).drop_last() =~= self.table@.subrange(0, g as int));
            }
            if self.table[g].id == id {
                return Some(g);
            }
        }
        None
    }

    fn has_queued(&self) -> (b: bool)
        ensures
            b == any_queued(self.table@),
    {
        let mut g: usize = 0;
        while g < self.table.len()
            invariant
                g <= self.table@.len(),
                forall|o: int| 0 <= o < g ==> !(#[trigger] self.table@[o]).queued(),
            decreases self.table.len() - g,
        {
            if self.table[g].has_queued() {
                return true;
            }
            g += 1;
        }
        false
    }

    /// Decides what to ask for once the items at hand are routed.
    fn route_on(&mut self, effects: Vec<Effect<K>>) -> (step: Step<K, PersistentRequest>)
        ensures
            Self::keeps(*old(self), *final(self)),
            step.effects == effects,
            Self::routes_on(*final(self), step),
    {
        if self.has_queued() {
            self.phase = PersistentPhase::Polling;
            Step { effects, request: PersistentRequest::SpareGroup }
        } else {
            self.phase = PersistentPhase::AwaitingInput;
            Step { effects, request: PersistentRequest::NextInput }
        }
    }

    /// Decides what to do once the input has ended.
    fn flush_on(&mut self, effects: Vec<Effect<K>>) -> (step: Step<K, PersistentRequest>)
        ensures
            Self::keeps(*old(self), *final(self)),
            Self::flushes_on(effects@, *final(self), step),
    {
        let mut effects = effects;
        if self.has_queued() {
            self.phase = PersistentPhase::Flushing;
            Step { effects, request: PersistentRequest::FreeGroup }
        } else {
            self.phase = PersistentPhase::Stopped;
            effects.push(Effect::Record(Event::ProcessEnd));
            Step { effects, request: PersistentRequest::Exit }
        }
    }

    /// Sends every started group that is at hand on its way.
    fn flush(&mut self) -> (effects: Vec<Effect<K>>)
        ensures
            final(self).groups == old(self).groups,
            final(self).strays == old(self).strays,
            final(self).monitoring == old(self).monitoring,
            final(self).placement == old(self).placement,
            final(self).mapping == old(self).mapping,
            final(self).phase == old(self).phase,
            final(self).table@.len() == old(self).table@.len(),
            forall|g: int|
                0 <= g < old(self).table@.len() ==> if flushable(#[trigger] old(self).table@[g]) {
                    old(self).table@[g].shipped(final(self).table@[g])
                } else {
                    final(self).table@[g] == old(self).table@[g]
                },
            effects@.len() == flush_indices(old(self).table@).len(),
            forall|k: int|
                0 <= k < effects@.len() ==> {
                    &&& (#[trigger] effects@[k]) matches Effect::Transfer(transfer)
                    &&& old(self).table@[flush_indices(old(self).table@)[k]].ships(transfer)
                },
    {
        let mut effects: Vec<Effect<K>> = Vec::new();
        let mut g: usize = 0;
        proof {
            assert(old(self).table@.subrange(0, 0) =~= Seq::<GroupSlots<K>>::empty());
        }
        while g < self.table.len()
            invariant
                self.groups == old(self).groups,
                self.strays == old(self).strays,
                self.monitoring == old(self).monitoring,
                self.placement == old(self).placement,
                self.mapping == old(self).mapping,
                self.phase == old(self).phase,
                self.table@.len() == old(self).table@.len(),
                g <= self.table@.len(),
                forall|o: int| g <= o < self.table@.len() ==> (#[trigger] self.table@[o]) == old(self).table@[o],
                forall|o: int|
                    0 <= o < g ==> if flushable(#[trigger] old(self).table@[o]) {
                        old(self).table@[o].shipped(self.table@[o])
                    } else {
                        self.table@[o] == old(self).table@[o]
                    },
                effects@.len() == flush_indices(old(self).table@.subrange(0, g as int)).len(),
                forall|k: int|
                    0 <= k < effects@.len() ==> {
                        &&& (#[trigger] effects@[k]) matches Effect::Transfer(transfer)
                        &&& old(self).table@[flush_indices(old(self).table@.subrange(0, g as int))[k]].ships(
                            transfer,
                        )
                    },
            decreases self.table.len() - g,
        {
            proof {
                assert(old(self).table@.subrange(0, g + 1).drop_last() =~= old(self).table@.subrange(
                    0,
                    g as int,
                ));
            }
            if self.table[g].present && self.table[g].is_started() {
                let transfer = self.table[g].ship();
                effects.push(Effect::Transfer(transfer));
            }
            g += 1;
        }
        proof {
            assert(old(self).table@.subrange(0, g as int) =~= old(self).table@);
        }
        effects
    }

    fn place(&mut self, fragment: (D, InputMemoryTransfer)) -> (step: Step<K, PersistentRequest>)
        ensures
            obeys_key_model::<D>() ==> Self::places(*old(self), fragment, *final(self), step),
    {
        broadcast use vstd::std_specs::hash::group_hash_axioms;

        if self.placement.used.len() < self.placement.candidates.len() {
            let (id, content) = fragment;
            let dpu = self.placement.candidates[self.placement.used.len()];
            self.mapping.insert(id, (self.table.len(), self.placement.used.len()));
            self.placement.pending.add_in_place(
                dpu,
                content.offset,
                MemoryTransferEntryReference(content.content),
            );
            self.placement.used.push(dpu);
            if self.placement.used.len() == self.placement.candidates.len() {
                self.load()
            } else {
                self.phase = PersistentPhase::Placing;
                Step { effects: Vec::new(), request: PersistentRequest::NextFragment }
            }
        } else {
            self.stop()
        }
    }

    fn end_placing(&mut self) -> (step: Step<K, PersistentRequest>)
        ensures
            Self::ends_placing(*old(self), *final(self), step),
    {
        self.placement.exhausted = true;
        if self.placement.used.len() > 0 {
            self.load()
        } else {
            self.phase = PersistentPhase::AwaitingInput;
            Step { effects: Vec::new(), request: PersistentRequest::NextInput }
        }
    }

    fn enter(&mut self) -> (step: Step<K, PersistentRequest>)
        ensures
            Self::loaded(*old(self), *final(self), step),
    {
        if self.placement.cursor < self.groups.len() {
            let id = self.groups[self.placement.cursor].id;
            let mut used: Vec<DpuId> = Vec::new();
            core::mem::swap(&mut used, &mut self.placement.used);
            let mut dpus: Vec<DpuSlot<K>> = Vec::new();
            let mut d: usize = 0;
            while d < used.len()
                invariant
                    d <= used@.len(),
                    dpus@.len() == d,
                    forall|o: int|
                        0 <= o < d ==> {
                            &&& (#[trigger] dpus@[o]).dpu == used@[o]
                            &&& dpus@[o].item is None
                            &&& dpus@[o].waiting@.len() == 0
                        },
                decreases used.len() - d,
            {
                dpus.push(DpuSlot { dpu: used[d], item: None, waiting: VecDeque::new() });
                d += 1;
            }
            self.table.push(GroupSlots { id, present: true, dpus });
            self.placement.cursor += 1;
            if self.placement.exhausted {
                self.phase = PersistentPhase::AwaitingInput;
                Step { effects: Vec::new(), request: PersistentRequest::NextInput }
            } else {
                self.advance(Vec::new())
            }
        } else {
            self.stop()
        }
    }

    fn route_input(&mut self, input: (D, MemoryTransfers<K>)) -> (step: Step<K, PersistentRequest>)
        ensures
            obeys_key_model::<D>() ==> Self::routes(*old(self), input, *final(self), step),
    {
        broadcast use vstd::std_specs::hash::group_hash_axioms;

        let (fragment, item) = input;
        let place = match self.mapping.get(&fragment) {
            Some(place) => Some(*place),
            None => None,
        };
        match place {
            Some((g, d)) if g < self.table.len() && d < self.table[g].dpus.len() => {
                let mut effects: Vec<Effect<K>> = Vec::new();
                self.table[g].deposit(d, item);
                let ghost mid = self.table@[g as int];
                if self.table[g].present && self.table[g].is_complete() {
                    let transfer = self.table[g].ship();
                    effects.push(Effect::Transfer(transfer));
                }
                let step = self.route_on(effects);
                proof {
                    if obeys_key_model::<D>() {
                        assert(Self::route(*old(self), fragment) == Some((g as int, d as int)));
                        assert(same_but(old(self).table@, self.table@, g as int));
                        assert(old(self).table@[g as int].deposited(d as int, item, mid)
                            && Self::sends(
                            mid,
                            mid.present && mid.complete(),
                            self.table@[g as int],
                            step.effects@,
                        ));
                        assert(Self::routes_on(*self, step));
                        assert(self.placement == old(self).placement);
                        assert(self.mapping == old(self).mapping);
                        assert(self.groups == old(self).groups);
                        assert(Self::deposits(
                            old(self).table@[g as int],
                            d as int,
                            item,
                            self.table@[g as int],
                            step.effects@,
                        ));
                        assert(Self::routes(*old(self), input, *self, step));
                    }
                }
                step
            },
            _ => {
                let effects: Vec<Effect<K>> = vec![
                    Effect::Output(Err(PipelineError::UnknownFragmentId)),
                ];
                let step = self.route_on(effects);
                proof {
                    if obeys_key_model::<D>() {
                        assert(Self::route(*old(self), fragment) is None);
                    }
                }
                step
            },
        }
    }

    fn end_input(&mut self) -> (step: Step<K, PersistentRequest>)
        ensures
            Self::flushes(*old(self), *final(self), step),
    {
        let effects = self.flush();
        let ghost sent = effects@;
        let step = self.flush_on(effects);
        proof {
            assert(step.effects@.subrange(0, sent.len() as int) =~= sent);
        }
        step
    }

    /// Takes `group` back into its table entry, if the table misses it, and
    /// sends it on its way again if it is complete, or, with `started`, if any
    /// of its slots is filled.
    fn take_back(&mut self, group: DpuGroup, started: bool) -> (effects: Vec<Effect<K>>)
        ensures
            final(self).groups == old(self).groups,
            final(self).monitoring == old(self).monitoring,
            final(self).placement == old(self).placement,
            final(self).mapping == old(self).mapping,
            final(self).phase == old(self).phase,
            match Self::returning(*old(self), group) {
                None => {
                    &&& final(self).table == old(self).table
                    &&& effects@.len() == 0
                    &&& final(self).strays@ == old(self).strays@.push(group)
                },
                Some(g) => {
                    &&& final(self).strays == old(self).strays
                    &&& same_but(old(self).table@, final(self).table@, g)
                    &&& Self::comes_back(old(self).table@[g], started, final(self).table@[g], effects@)
                    &&& effects@.len() == (if final(self).table@[g].present {
                        0int
                    } else {
                        1int
                    })
                },
            },
    {
        let mut effects: Vec<Effect<K>> = Vec::new();
        match self.entry_index(group.id) {
            Some(g) => {
                if self.table[g].present {
                    self.strays.push(group);
                } else {
                    self.table[g].refill();
                    let ghost mid = self.table@[g as int];
                    let leaves = if started {
                        self.table[g].is_started()
                    } else {
                        self.table[g].is_complete()
                    };
                    if leaves {
                        let transfer = self.table[g].ship();
                        effects.push(Effect::Transfer(transfer));
                    }
                    proof {
                        assert(old(self).table@[g as int].refilled(mid));
                        assert(Self::sends(mid, leaves, self.table@[g as int], effects@));
                    }
                }
            },
            None => {
                self.strays.push(group);
            },
        }
        effects
    }

    /// Resumes the mapper with the answer to its last request. The contract
    /// holds for fragment identifiers whose hashing and equality agree.
    pub fn resume(&mut self, reply: PersistentReply<K, D>) -> (step: Step<K, PersistentRequest>)
        ensures
            obeys_key_model::<D>() ==> Self::resumes(*old(self), reply, *final(self), step),
    {
        match (self.phase, reply) {
            (PersistentPhase::Placing, PersistentReply::Fragment(Some(fragment))) => self.place(
                fragment,
            ),
            (PersistentPhase::Placing, PersistentReply::Fragment(None)) => self.end_placing(),
            (PersistentPhase::Loading, PersistentReply::Copied(Ok(_))) => self.enter(),
            (PersistentPhase::Loading, PersistentReply::Copied(Err(err))) => {
                self.phase = PersistentPhase::Stopped;
                Step {
                    effects: vec![
                        Effect::Output(Err(PipelineError::InfrastructureError(err))),
                        Effect::Record(Event::ProcessEnd),
                    ],
                    request: PersistentRequest::Exit,
                }
            },
            (PersistentPhase::AwaitingInput, PersistentReply::Input(Some(input))) => {
                self.route_input(input)
            },
            (PersistentPhase::AwaitingInput, PersistentReply::Input(None)) => self.end_input(),
            (PersistentPhase::Polling, PersistentReply::Group(Some(group))) => {
                let effects = self.take_back(group, false);
                Step { effects, request: PersistentRequest::SpareGroup }
            },
            (PersistentPhase::Polling, PersistentReply::Group(None)) => {
                self.phase = PersistentPhase::AwaitingInput;
                Step { effects: Vec::new(), request: PersistentRequest::NextInput }
            },
            (PersistentPhase::Flushing, PersistentReply::Group(Some(group))) => {
                let effects = self.take_back(group, true);
                let ghost sent = effects@;
                let step = self.flush_on(effects);
                proof {
                    assert(step.effects@.subrange(0, sent.len() as int) =~= sent);
                }
                step
            },
            _ => self.stop(),
        }
    }
}

} // verus!
