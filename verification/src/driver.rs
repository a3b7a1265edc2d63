//! What the driver of a cluster reports about running DPUs, and how reports
//! about several DPUs are merged into one.

use crate::buffers::copy_of;
use crate::dpu::DpuId;
use crate::target::DpuDebugContext;
use vstd::prelude::*;

verus! {

#[derive(Clone, Copy, Debug, PartialEq, Eq, Structural)]
pub enum FaultCause {
    Breakpoint,
    Memory,
    Dma,
}

/// The state of a faulting DPU, as read out for debugging.
#[derive(Debug)]
pub struct FaultInformation {
    pub dpu: DpuId,
    pub context: DpuDebugContext,
}

/// What a set of DPUs is doing.
#[derive(Debug)]
pub enum RunStatus {
    /// None of them runs.
    Idle,
    /// Some of them run and none is in fault.
    Running,
    /// The listed DPUs are in fault.
    Fault(Vec<DpuId>),
}

/// A run status as a mathematical value.
pub enum Status {
    Idle,
    Running,
    Fault(Seq<DpuId>),
}

impl View for RunStatus {
    type V = Status;

    open spec fn view(&self) -> Status {
        match self {
            RunStatus::Idle => Status::Idle,
            RunStatus::Running => Status::Running,
            RunStatus::Fault(dpus) => Status::Fault(dpus@),
        }
    }
}

impl Default for RunStatus {
    fn default() -> (s: RunStatus)
        ensures
            s@ == Status::Idle,
    {
        RunStatus::Idle
    }
}

/// The status of two sets of DPUs taken together: a fault outweighs running,
/// running outweighs idle, and the faults of both sides are listed one after
/// the other.
pub open spec fn merge(a: Status, b: Status) -> Status {
    match (a, b) {
        (Status::Fault(x), Status::Fault(y)) => Status::Fault(x + y),
        (Status::Fault(x), _) => Status::Fault(x),
        (_, Status::Fault(y)) => Status::Fault(y),
        (Status::Running, _) => Status::Running,
        (_, Status::Running) => Status::Running,
        (Status::Idle, Status::Idle) => Status::Idle,
    }
}

/// Rank of a status in the order idle, running, fault.
pub open spec fn severity(s: Status) -> int {
    match s {
        Status::Idle => 0,
        Status::Running => 1,
        Status::Fault(_) => 2,
    }
}

/// Merging is associative, has the idle status as its neutral element, and
/// yields the more severe of the two sides.
pub proof fn lemma_merge_laws(a: Status, b: Status, c: Status)
    ensures
        merge(Status::Idle, a) == a,
        merge(a, Status::Idle) == a,
        merge(merge(a, b), c) == merge(a, merge(b, c)),
        severity(merge(a, b)) == if severity(a) >= severity(b) {
            severity(a)
        } else {
            severity(b)
        },
        !(a is Fault) && !(b is Fault) ==> merge(a, b) == merge(b, a),
{
    match (a, b, c) {
        (Status::Fault(x), Status::Fault(y), Status::Fault(z)) => {
            assert((x + y) + z =~= x + (y + z));
        },
        _ => {},
    }
}

/// Values that can be combined into one that stands for both.
pub trait Mergeable: Sized {
    /// Whether `merged` is what `self` and `other` combine into.
    spec fn merges(&self, other: &Self, merged: &Self) -> bool;

    fn merge_with(&self, other: &Self) -> (merged: Self)
        ensures
            self.merges(other, &merged),
    ;
}

impl Mergeable for () {
    open spec fn merges(&self, other: &(), merged: &()) -> bool {
        true
    }

    fn merge_with(&self, other: &()) -> (merged: ()) {
        ()
    }
}

impl Mergeable for RunStatus {
    open spec fn merges(&self, other: &RunStatus, merged: &RunStatus) -> bool {
        merged@ == merge(self@, other@)
    }

    fn merge_with(&self, other: &RunStatus) -> (merged: RunStatus) {
        match (self, other) {
            (RunStatus::Fault(faults), RunStatus::Fault(other_faults)) => {
                let mut all_faults = copy_of(faults);
                let mut more = copy_of(other_faults);
                all_faults.append(&mut more);
                RunStatus::Fault(all_faults)
            },
            (RunStatus::Fault(faults), _) => RunStatus::Fault(copy_of(faults)),
            (_, RunStatus::Fault(other_faults)) => RunStatus::Fault(copy_of(other_faults)),
            (RunStatus::Running, _) => RunStatus::Running,
            (_, RunStatus::Running) => RunStatus::Running,
            (RunStatus::Idle, RunStatus::Idle) => RunStatus::Idle,
        }
    }
}

/// Whether bit `member` of `bits` is set. A bit field has 32 bits.
pub open spec fn is_set(bits: u32, member: u8) -> bool {
    member < 32 && (bits & (1u32 << (member as u32))) != 0
}

/// The faulting DPUs of the first `members` DPUs of one slice, in order.
pub open spec fn faults_in_slice(rank: u8, slice: u8, fault_bits: u32, members: int) -> Seq<DpuId>
    decreases members,
{
    if members <= 0 {
        Seq::empty()
    } else if is_set(fault_bits, (members - 1) as u8) {
        faults_in_slice(rank, slice, fault_bits, members - 1).push(
            DpuId { rank, slice, member: (members - 1) as u8 },
        )
    } else {
        faults_in_slice(rank, slice, fault_bits, members - 1)
    }
}

/// The faulting DPUs of the first `slices` slices of a rank, in order. Only
/// a slice with a running DPU counts.
pub open spec fn faults_in_rank(
    rank: u8,
    run_bits: Seq<u32>,
    fault_bits: Seq<u32>,
    nr_of_dpus: u8,
    slices: int,
) -> Seq<DpuId>
    decreases slices,
{
    if slices <= 0 {
        Seq::empty()
    } else if run_bits[slices - 1] != 0 && fault_bits[slices - 1] != 0 {
        faults_in_rank(rank, run_bits, fault_bits, nr_of_dpus, slices - 1) + faults_in_slice(
            rank,
            ((slices - 1) % 256) as u8,
            fault_bits[slices - 1],
            nr_of_dpus as int,
        )
    } else {
        faults_in_rank(rank, run_bits, fault_bits, nr_of_dpus, slices - 1)
    }
}

/// What a rank is doing, going by the bit fields that polling it has filled
/// in, one pair for each slice: idle where no slice has a running DPU,
/// running where one has and none of them a fault, else in fault with the
/// DPUs whose fault bits are set.
pub open spec fn rank_status(rank: u8, run_bits: Seq<u32>, fault_bits: Seq<u32>, nr_of_dpus: u8) -> Status {
    if forall|slice: int| 0 <= slice < run_bits.len() ==> run_bits[slice] == 0 {
        Status::Idle
    } else if forall|slice: int|
        0 <= slice < run_bits.len() && run_bits[slice] != 0 ==> fault_bits[slice] == 0 {
        Status::Running
    } else {
        Status::Fault(faults_in_rank(rank, run_bits, fault_bits, nr_of_dpus, run_bits.len() as int))
    }
}

/// What one DPU is doing, going by what polling it has answered.
pub fn dpu_status(dpu: DpuId, running: bool, fault: bool) -> (status: RunStatus)
    ensures
        status@ == if !running {
            Status::Idle
        } else if !fault {
            Status::Running
        } else {
            Status::Fault(seq![dpu])
        },
{
    if !running {
        RunStatus::Idle
    } else if !fault {
        RunStatus::Running
    } else {
        let faults: Vec<DpuId> = vec![dpu];
        proof {
            assert(faults@ =~= seq![dpu]);
        }
        RunStatus::Fault(faults)
    }
}

/// What rank `rank_id` is doing, going by the bit fields that polling it has
/// filled in, where a slice has `nr_of_dpus` DPUs.
pub fn fetch_rank_status(rank_id: u8, run_bitfields: &Vec<u32>, fault_bitfields: &Vec<u32>, nr_of_dpus: u8) -> (status:
    RunStatus)
    requires
        run_bitfields@.len() == fault_bitfields@.len(),
    ensures
        status@ == rank_status(rank_id, run_bitfields@, fault_bitfields@, nr_of_dpus),
{
    let mut running = false;
    let mut fault = false;
    let mut faults: Vec<DpuId> = Vec::new();
    let mut slice_id: usize = 0;
    while slice_id < run_bitfields.len()
        invariant
            slice_id <= run_bitfields@.len(),
            run_bitfields@.len() == fault_bitfields@.len(),
            running == exists|s: int| 0 <= s < slice_id && run_bitfields@[s] != 0,
            fault == exists|s: int|
                0 <= s < slice_id && run_bitfields@[s] != 0 && fault_bitfields@[s] != 0,
            faults@ == faults_in_rank(
                rank_id,
                run_bitfields@,
                fault_bitfields@,
                nr_of_dpus,
                slice_id as int,
            ),
        decreases run_bitfields.len() - slice_id,
    {
        if run_bitfields[slice_id] != 0 {
            running = true;
            let fault_bitfield = fault_bitfields[slice_id];
            if fault_bitfield != 0 {
                fault = true;
                let slice = (slice_id % 256) as u8;
                let ghost before = faults@;
                let mut member: u8 = 0;
                while member < nr_of_dpus
                    invariant
                        member <= nr_of_dpus,
                        faults@ == before + faults_in_slice(
                            rank_id,
                            slice,
                            fault_bitfield,
                            member as int,
                        ),
                    decreases nr_of_dpus - member,
                {
                    if member < 32 && (fault_bitfield & (1u32 << (member as u32))) != 0 {
                        faults.push(DpuId::new(rank_id, slice, member));
                    }
                    member += 1;
                }
            }
        }
        slice_id += 1;
    }
    if !running {
        RunStatus::Idle
    } else if !fault {
        RunStatus::Running
    } else {
        RunStatus::Fault(faults)
    }
}

/// Number of DPUs of a cluster of `nr_of_ranks` ranks with `nr_of_slices`
/// slices of `nr_of_members` DPUs each.
pub fn nr_of_dpus(nr_of_ranks: u8, nr_of_slices: u8, nr_of_members: u8) -> (total: usize)
    ensures
        total == nr_of_ranks * nr_of_slices * nr_of_members,
{
    assert(nr_of_ranks * nr_of_slices <= 65025 && nr_of_ranks * nr_of_slices * nr_of_members
        <= 16581375) by (nonlinear_arith)
        requires
            nr_of_ranks <= 255,
            nr_of_slices <= 255,
            nr_of_members <= 255,
    ;
    (nr_of_ranks as usize) * (nr_of_slices as usize) * (nr_of_members as usize)
}

} // verus!
