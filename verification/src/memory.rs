//! Batched memory transfers between the host and the DPUs of a cluster.
//!
//! A transfer maps each rank to the DPUs of that rank it touches, and each of
//! those DPUs to an offset in its memory and a host buffer. Both levels are
//! kept as lists in which a later entry for a key shadows the earlier ones.

use crate::dpu::DpuId;
use vstd::prelude::*;

verus! {

/// One side of a transfer for one DPU: where in the DPU's memory it starts,
/// and the host buffer that is written from or read into.
#[derive(Debug)]
pub struct MemoryTransferEntry {
    pub offset: u32,
    pub reference: Vec<u8>,
}

/// A host buffer on its way into a transfer.
#[derive(Debug)]
pub struct MemoryTransferEntryReference(pub Vec<u8>);

impl From<Vec<u8>> for MemoryTransferEntryReference {
    fn from(v: Vec<u8>) -> (r: MemoryTransferEntryReference) {
        MemoryTransferEntryReference(v)
    }
}

impl vstd::std_specs::convert::FromSpecImpl<Vec<u8>> for MemoryTransferEntryReference {
    open spec fn obeys_from_spec() -> bool {
        true
    }

    open spec fn from_spec(v: Vec<u8>) -> MemoryTransferEntryReference {
        MemoryTransferEntryReference(v)
    }
}

/// The entries of one rank.
#[derive(Debug)]
pub struct MemoryTransferRankEntry(pub Vec<(DpuId, MemoryTransferEntry)>);

/// The entries of a whole transfer, rank by rank.
#[derive(Debug)]
pub struct MemoryTransfer(pub Vec<(u8, MemoryTransferRankEntry)>);

/// What a list of per-DPU entries stands for: each DPU with the offset and
/// bytes of its last entry.
pub open spec fn rank_entries(list: Seq<(DpuId, MemoryTransferEntry)>) -> Map<DpuId, (u32, Seq<u8>)>
    decreases list.len(),
{
    if list.len() == 0 {
        Map::empty()
    } else {
        rank_entries(list.drop_last()).insert(
            list.last().0,
            (list.last().1.offset, list.last().1.reference@),
        )
    }
}

/// What a list of per-rank entries stands for: each rank with the entries of
/// its last occurrence.
pub open spec fn transfer_entries(list: Seq<(u8, MemoryTransferRankEntry)>) -> Map<
    u8,
    Map<DpuId, (u32, Seq<u8>)>,
>
    decreases list.len(),
{
    if list.len() == 0 {
        Map::empty()
    } else {
        transfer_entries(list.drop_last()).insert(list.last().0, list.last().1@)
    }
}

impl View for MemoryTransferRankEntry {
    type V = Map<DpuId, (u32, Seq<u8>)>;

    open spec fn view(&self) -> Map<DpuId, (u32, Seq<u8>)> {
        rank_entries(self.0@)
    }
}

impl View for MemoryTransfer {
    type V = Map<u8, Map<DpuId, (u32, Seq<u8>)>>;

    open spec fn view(&self) -> Map<u8, Map<DpuId, (u32, Seq<u8>)>> {
        transfer_entries(self.0@)
    }
}

/// The entries of `rank` in `transfer`; none where the rank does not occur.
pub open spec fn entries_of(transfer: Map<u8, Map<DpuId, (u32, Seq<u8>)>>, rank: u8) -> Map<
    DpuId,
    (u32, Seq<u8>),
> {
    if transfer.contains_key(rank) {
        transfer[rank]
    } else {
        Map::empty()
    }
}

/// `transfer` with the entry of `dpu` set to `offset` and `bytes`.
pub open spec fn with_entry(
    transfer: Map<u8, Map<DpuId, (u32, Seq<u8>)>>,
    dpu: DpuId,
    offset: u32,
    bytes: Seq<u8>,
) -> Map<u8, Map<DpuId, (u32, Seq<u8>)>> {
    transfer.insert(dpu.rank, entries_of(transfer, dpu.rank).insert(dpu, (offset, bytes)))
}

/// The offset and bytes that `transfer` holds for `dpu`, if any.
pub open spec fn entry_of(transfer: Map<u8, Map<DpuId, (u32, Seq<u8>)>>, dpu: DpuId) -> Option<
    (u32, Seq<u8>),
> {
    if entries_of(transfer, dpu.rank).contains_key(dpu) {
        Some(entries_of(transfer, dpu.rank)[dpu])
    } else {
        None
    }
}

/// Changing the last occurrence of a rank changes what the list stands for at
/// that rank only.
proof fn lemma_update_last_occurrence(
    list: Seq<(u8, MemoryTransferRankEntry)>,
    idx: int,
    node: MemoryTransferRankEntry,
)
    requires
        0 <= idx < list.len(),
        forall|j: int| idx < j < list.len() ==> list[j].0 != list[idx].0,
    ensures
        transfer_entries(list.update(idx, (list[idx].0, node))) == transfer_entries(list).insert(
            list[idx].0,
            node@,
        ),
    decreases list.len(),
{
    let updated = list.update(idx, (list[idx].0, node));
    if idx == list.len() - 1 {
        assert(updated.drop_last() =~= list.drop_last());
        assert(transfer_entries(updated) =~= transfer_entries(list).insert(list[idx].0, node@));
    } else {
        lemma_update_last_occurrence(list.drop_last(), idx, node);
        assert(updated.drop_last() =~= list.drop_last().update(idx, (list[idx].0, node)));
        assert(transfer_entries(updated) =~= transfer_entries(list).insert(list[idx].0, node@));
    }
}

/// The last occurrence of a key decides what the list stands for at it.
proof fn lemma_last_rank_occurrence(list: Seq<(u8, MemoryTransferRankEntry)>, rank: u8, idx: int)
    requires
        -1 <= idx < list.len(),
        idx >= 0 ==> list[idx].0 == rank,
        forall|j: int| idx < j < list.len() ==> list[j].0 != rank,
    ensures
        idx >= 0 ==> transfer_entries(list).contains_key(rank) && transfer_entries(list)[rank]
            == list[idx].1@,
        idx < 0 ==> !transfer_entries(list).contains_key(rank),
    decreases list.len(),
{
    if list.len() > 0 && idx < list.len() - 1 {
        lemma_last_rank_occurrence(list.drop_last(), rank, idx);
    }
}

proof fn lemma_last_dpu_occurrence(list: Seq<(DpuId, MemoryTransferEntry)>, dpu: DpuId, idx: int)
    requires
        -1 <= idx < list.len(),
        idx >= 0 ==> list[idx].0 == dpu,
        forall|j: int| idx < j < list.len() ==> list[j].0 != dpu,
    ensures
        idx >= 0 ==> rank_entries(list).contains_key(dpu) && rank_entries(list)[dpu] == (
            list[idx].1.offset,
            list[idx].1.reference@,
        ),
        idx < 0 ==> !rank_entries(list).contains_key(dpu),
    decreases list.len(),
{
    if list.len() > 0 && idx < list.len() - 1 {
        lemma_last_dpu_occurrence(list.drop_last(), dpu, idx);
    }
}

impl Default for MemoryTransferRankEntry {
    fn default() -> (e: MemoryTransferRankEntry)
        ensures
            e@ == Map::<DpuId, (u32, Seq<u8>)>::empty(),
    {
        MemoryTransferRankEntry(Vec::new())
    }
}

impl Default for MemoryTransfer {
    fn default() -> (t: MemoryTransfer)
        ensures
            t@ == Map::<u8, Map<DpuId, (u32, Seq<u8>)>>::empty(),
    {
        MemoryTransfer(Vec::new())
    }
}

impl MemoryTransfer {
    /// The transfer with one more entry: `slice` at `offset` in the memory of
    /// `dpu`, in place of any earlier entry for that DPU.
    pub fn add(self, dpu: DpuId, offset: u32, slice: MemoryTransferEntryReference) -> (t:
        MemoryTransfer)
        ensures
            t@ == with_entry(self@, dpu, offset, slice.0@),
    {
        let mut t = self;
        t.add_entry(dpu, MemoryTransferEntry { offset, reference: slice.0 });
        t
    }

    /// Adds one entry: `slice` at `offset` in the memory of `dpu`, in place of
    /// any earlier entry for that DPU.
    pub fn add_in_place(&mut self, dpu: DpuId, offset: u32, slice: MemoryTransferEntryReference)
        ensures
            final(self)@ == with_entry(old(self)@, dpu, offset, slice.0@),
    {
        self.add_entry(dpu, MemoryTransferEntry { offset, reference: slice.0 });
    }

    /// Index of the last list node of `rank`; the list's length if there is
    /// none.
    fn last_node_of(&self, rank: u8) -> (idx: usize)
        ensures
            idx <= self.0@.len(),
            idx < self.0@.len() ==> self.0@[idx as int].0 == rank,
            forall|j: int| idx < j < self.0@.len() ==> self.0@[j].0 != rank,
            idx == self.0@.len() ==> forall|j: int| 0 <= j < self.0@.len() ==> self.0@[j].0 != rank,
    {
        let mut i: usize = self.0.len();
        while i > 0
            invariant
                i <= self.0@.len(),
                forall|j: int| i <= j < self.0@.len() ==> self.0@[j].0 != rank,
            decreases i,
        {
            i -= 1;
            if self.0[i].0 == rank {
                return i;
            }
        }
        self.0.len()
    }

    pub fn add_entry(&mut self, dpu: DpuId, entry: MemoryTransferEntry)
        ensures
            final(self)@ == with_entry(old(self)@, dpu, entry.offset, entry.reference@),
    {
        let (rank_id, _, _) = dpu.members();
        let idx = self.last_node_of(rank_id);
        if idx < self.0.len() {
            proof {
                lemma_last_rank_occurrence(self.0@, rank_id, idx as int);
            }
            self.0[idx].1.0.push((dpu, entry));
            proof {
                let before = old(self).0@;
                let node = self.0@[idx as int].1;
                assert(node.0@.drop_last() =~= before[idx as int].1.0@);
                assert(node.0@.last() == (dpu, entry));
                assert(node@ == before[idx as int].1@.insert(
                    dpu,
                    (entry.offset, entry.reference@),
                ));
                assert(self.0@ =~= before.update(idx as int, (rank_id, node)));
                lemma_update_last_occurrence(before, idx as int, node);
            }
        } else {
            proof {
                lemma_last_rank_occurrence(self.0@, rank_id, -1);
            }
            let mut list: Vec<(DpuId, MemoryTransferEntry)> = Vec::new();
            list.push((dpu, entry));
            proof {
                assert(list@.drop_last() =~= Seq::<(DpuId, MemoryTransferEntry)>::empty());
                assert(list@.last() == (dpu, entry));
                assert(rank_entries(list@.drop_last()) == Map::<DpuId, (u32, Seq<u8>)>::empty());
                assert(rank_entries(list@) == Map::<DpuId, (u32, Seq<u8>)>::empty().insert(
                    dpu,
                    (entry.offset, entry.reference@),
                ));
            }
            self.0.push((rank_id, MemoryTransferRankEntry(list)));
            proof {
                let before = old(self).0@;
                assert(self.0@.drop_last() =~= before);
            }
        }
    }

    /// The entry that the transfer holds for `dpu`, if any.
    pub fn get(&self, dpu: DpuId) -> (r: Option<&MemoryTransferEntry>)
        ensures
            match r {
                Some(e) => entry_of(self@, dpu) == Some((e.offset, e.reference@)),
                None => entry_of(self@, dpu) is None,
            },
    {
        let idx = self.last_node_of(dpu.rank);
        if idx < self.0.len() {
            proof {
                lemma_last_rank_occurrence(self.0@, dpu.rank, idx as int);
            }
            let node = &self.0[idx].1;
            assert(entries_of(self@, dpu.rank) == rank_entries(node.0@));
            let mut i: usize = node.0.len();
            while i > 0
                invariant
                    i <= node.0@.len(),
                    entries_of(self@, dpu.rank) == rank_entries(node.0@),
                    forall|j: int| i <= j < node.0@.len() ==> node.0@[j].0 != dpu,
                decreases i,
            {
                i -= 1;
                if node.0[i].0 == dpu {
                    proof {
                        lemma_last_dpu_occurrence(node.0@, dpu, i as int);
                    }
                    return Some(&node.0[i].1);
                }
            }
            proof {
                lemma_last_dpu_occurrence(node.0@, dpu, -1);
            }
            None
        } else {
            proof {
                lemma_last_rank_occurrence(self.0@, dpu.rank, -1);
            }
            None
        }
    }
}

} // verus!
