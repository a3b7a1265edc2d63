//! What it takes to set up a cluster: how many DPUs a target offers, how many
//! ranks a request needs, and which DPUs those ranks hold.

use crate::config::ClusterConfiguration;
use crate::dpu::DpuId;
use crate::dpu::Mapping;
use crate::error::ClusterError;
use crate::target::DpuTarget;
use crate::target::DpuTopology;
use crate::target::DpuType;
use vstd::prelude::*;

verus! {

/// What a cluster consists of.
#[derive(Debug)]
pub struct Cluster {
    pub target: DpuTarget,
    /// Number of ranks of the cluster.
    pub nr_of_ranks: u8,
    /// Shape of each rank.
    pub rank_topology: DpuTopology,
    /// The DPUs of the cluster and who has reserved them.
    pub workers: Mapping,
}

/// Number of DPUs that a target of kind `dpu_type` offers.
pub open spec fn available_dpus(dpu_type: DpuType) -> u32 {
    if dpu_type == DpuType::FunctionalSimulator {
        8
    } else {
        0
    }
}

/// Number of DPUs that `target` offers.
pub fn find_nr_of_available_dpus_for(target: &DpuTarget) -> (found: Result<u32, ClusterError>)
    ensures
        found == Ok::<u32, ClusterError>(available_dpus(target.dpu_type)),
{
    match target.dpu_type {
        DpuType::FunctionalSimulator => Ok(8),
        _ => Ok(0),
    }
}

/// Number of ranks that hold at least `nr_of_dpus` DPUs, with `per_rank`
/// DPUs a rank.
pub open spec fn ranks_for(nr_of_dpus: int, per_rank: int) -> int {
    nr_of_dpus / per_rank + if nr_of_dpus % per_rank == 0 {
        0int
    } else {
        1int
    }
}

/// The DPUs of the first `n` positions of a cluster whose ranks have the
/// shape `topology`, rank by rank, slice by slice, member by member.
pub open spec fn dpus_of_cluster(topology: DpuTopology, n: int) -> Seq<DpuId> {
    Seq::new(
        n as nat,
        |i: int|
            DpuId {
                rank: ((i / topology.nr_of_dpus_per_control_interface as int)
                    / topology.nr_of_control_interfaces as int) as u8,
                slice: ((i / topology.nr_of_dpus_per_control_interface as int)
                    % topology.nr_of_control_interfaces as int) as u8,
                member: (i % topology.nr_of_dpus_per_control_interface as int) as u8,
            },
    )
}

/// The DPUs of `nr_of_ranks` ranks of the shape `topology`.
pub fn dpus_of_ranks(nr_of_ranks: u8, topology: &DpuTopology) -> (dpus: Vec<DpuId>)
    ensures
        dpus@ == dpus_of_cluster(
            *topology,
            nr_of_ranks * topology.nr_of_control_interfaces
                * topology.nr_of_dpus_per_control_interface,
        ),
{
    let mut dpus: Vec<DpuId> = Vec::new();
    let ghost s = topology.nr_of_control_interfaces as int;
    let ghost d = topology.nr_of_dpus_per_control_interface as int;
    let mut rank_id: u8 = 0;
    proof {
        assert(0 * s * d == 0) by (nonlinear_arith);
    }
    while rank_id < nr_of_ranks
        invariant
            rank_id <= nr_of_ranks,
            s == topology.nr_of_control_interfaces,
            d == topology.nr_of_dpus_per_control_interface,
            dpus@ == dpus_of_cluster(*topology, rank_id * s * d),
            0 <= rank_id * s * d,
        decreases nr_of_ranks - rank_id,
    {
        let mut slice_id: u8 = 0;
        proof {
            assert((rank_id * s + 0) * d == rank_id * s * d) by (nonlinear_arith);
        }
        while slice_id < topology.nr_of_control_interfaces
            invariant
                rank_id < nr_of_ranks,
                slice_id <= topology.nr_of_control_interfaces,
                s == topology.nr_of_control_interfaces,
                d == topology.nr_of_dpus_per_control_interface,
                dpus@ == dpus_of_cluster(*topology, (rank_id * s + slice_id) * d),
                0 <= (rank_id * s + slice_id) * d,
            decreases topology.nr_of_control_interfaces - slice_id,
        {
            let mut member_id: u8 = 0;
            while member_id < topology.nr_of_dpus_per_control_interface
                invariant
                    rank_id < nr_of_ranks,
                    slice_id < topology.nr_of_control_interfaces,
                    member_id <= topology.nr_of_dpus_per_control_interface,
                    s == topology.nr_of_control_interfaces,
                    d == topology.nr_of_dpus_per_control_interface,
                    dpus@ == dpus_of_cluster(*topology, (rank_id * s + slice_id) * d + member_id),
                    0 <= (rank_id * s + slice_id) * d,
                decreases topology.nr_of_dpus_per_control_interface - member_id,
            {
                proof {
                    let row = rank_id * s + slice_id;
                    let position = row * d + member_id;
                    assert(0 <= rank_id * s) by (nonlinear_arith)
                        requires
                            0 <= rank_id,
                            0 <= s,
                    ;
                    vstd::arithmetic::div_mod::lemma_fundamental_div_mod_converse(
                        position,
                        d,
                        row,
                        member_id as int,
                    );
                    vstd::arithmetic::div_mod::lemma_fundamental_div_mod_converse(
                        row,
                        s,
                        rank_id as int,
                        slice_id as int,
                    );
                }
                dpus.push(DpuId::new(rank_id, slice_id, member_id));
                proof {
                    assert(dpus@ =~= dpus_of_cluster(
                        *topology,
                        (rank_id * s + slice_id) * d + member_id + 1,
                    ));
                }
                member_id += 1;
            }
            proof {
                assert((rank_id * s + slice_id) * d + d == (rank_id * s + (slice_id + 1)) * d) by (nonlinear_arith);
                assert(0 <= (rank_id * s + (slice_id + 1)) * d) by (nonlinear_arith)
                    requires
                        0 <= rank_id,
                        0 <= s,
                        0 <= slice_id,
                        0 <= d,
                ;
            }
            slice_id += 1;
        }
        proof {
            assert((rank_id * s + s) * d == (rank_id + 1) * s * d) by (nonlinear_arith);
        }
        rank_id += 1;
    }
    dpus
}

impl Cluster {
    /// Number of DPUs that the cluster is to have: the number asked for, or
    /// every available DPU where none is asked for. Asking for more than
    /// `found` DPUs is an error.
    pub fn expected_dpus(config: &ClusterConfiguration, found: u32) -> (expected: Result<
        u32,
        ClusterError,
    >)
        ensures
            expected == match config.nr_of_dpus_expected {
                Some(asked) => if asked > found {
                    Err::<u32, ClusterError>(
                        ClusterError::NotEnoughResources { expected: asked, found },
                    )
                } else {
                    Ok::<u32, ClusterError>(asked)
                },
                None => Ok::<u32, ClusterError>(found),
            },
    {
        let nr_of_dpus_expected = match config.nr_of_dpus_expected {
            Some(asked) => asked,
            None => found,
        };
        if nr_of_dpus_expected > found {
            return Err(
                ClusterError::NotEnoughResources { expected: nr_of_dpus_expected, found },
            );
        }
        Ok(nr_of_dpus_expected)
    }

    /// Number of ranks to allocate for `nr_of_dpus` DPUs, where a rank has
    /// the shape `topology`: the least number of ranks that together hold as
    /// many DPUs.
    pub fn nr_of_ranks_for(nr_of_dpus: u32, topology: &DpuTopology) -> (nr_of_ranks: u32)
        requires
            topology.nr_of_control_interfaces > 0,
            topology.nr_of_dpus_per_control_interface > 0,
        ensures
            nr_of_ranks == ranks_for(
                nr_of_dpus as int,
                topology.nr_of_control_interfaces * topology.nr_of_dpus_per_control_interface,
            ),
    {
        assert(0 < topology.nr_of_control_interfaces * topology.nr_of_dpus_per_control_interface
            <= 65025) by (nonlinear_arith)
            requires
                0 < topology.nr_of_control_interfaces <= 255,
                0 < topology.nr_of_dpus_per_control_interface <= 255,
        ;
        let nr_of_dpus_per_rank = (topology.nr_of_control_interfaces as u32) * (
        topology.nr_of_dpus_per_control_interface as u32);
        let whole = nr_of_dpus / nr_of_dpus_per_rank;
        if nr_of_dpus % nr_of_dpus_per_rank == 0 {
            whole
        } else {
            assert(whole < u32::MAX) by (nonlinear_arith)
                requires
                    whole == nr_of_dpus as int / nr_of_dpus_per_rank as int,
                    nr_of_dpus as int % nr_of_dpus_per_rank as int != 0,
                    nr_of_dpus <= u32::MAX,
                    nr_of_dpus_per_rank >= 1,
            ;
            whole + 1
        }
    }

    /// The cluster of `nr_of_ranks` ranks of the shape `topology` on
    /// `target`, with every DPU available.
    pub fn new(target: DpuTarget, nr_of_ranks: u8, topology: DpuTopology) -> (cluster: Cluster)
        ensures
            cluster.target == target,
            cluster.nr_of_ranks == nr_of_ranks,
            cluster.rank_topology == topology,
            cluster.workers.wf(),
            cluster.workers.reserved@.len() == 0,
            cluster.workers.available@ == dpus_of_cluster(
                topology,
                nr_of_ranks * topology.nr_of_control_interfaces
                    * topology.nr_of_dpus_per_control_interface,
            ),
    {
        let workers = Mapping::new(dpus_of_ranks(nr_of_ranks, &topology));
        Cluster { target, nr_of_ranks, rank_topology: topology, workers }
    }

    /// Number of ranks, of slices in a rank, and of DPUs in a slice.
    pub fn topology(&self) -> (shape: (u8, u8, u8))
        ensures
            shape == (
                self.nr_of_ranks,
                self.rank_topology.nr_of_control_interfaces,
                self.rank_topology.nr_of_dpus_per_control_interface,
            ),
    {
        (
            self.nr_of_ranks,
            self.rank_topology.nr_of_control_interfaces,
            self.rank_topology.nr_of_dpus_per_control_interface,
        )
    }

    /// The kind of target that the cluster runs on.
    pub fn dpu_type(&self) -> (dpu_type: DpuType)
        ensures
            dpu_type == self.target.dpu_type,
    {
        self.target.dpu_type
    }
}

} // verus!
