//! How the DPUs of a cluster are bundled into groups.

use crate::dpu::DpuId;
use crate::pipeline::stages::DpuGroup;
use crate::pipeline::GroupPolicy;
use vstd::arithmetic::div_mod::lemma_fundamental_div_mod_converse;
use vstd::arithmetic::mul::lemma_mul_is_distributive_add_other_way;
use vstd::prelude::*;

verus! {

/// Number of groups of a cluster of `nr_ranks` ranks with `nr_slices` slices
/// of `nr_dpus` DPUs each.
pub open spec fn nr_of_groups(policy: GroupPolicy, nr_ranks: int, nr_slices: int, nr_dpus: int) -> int {
    match policy {
        GroupPolicy::Dpu => nr_ranks * nr_slices * nr_dpus,
        GroupPolicy::Slice => nr_ranks * nr_dpus,
    }
}

/// The DPUs of the group with identifier `id`, all active.
///
/// With one group per DPU, the groups are numbered rank by rank, slice by
/// slice, member by member. With one group per slice position, they are
/// numbered rank by rank, member by member, and a group holds that member of
/// every slice.
pub open spec fn group_members(policy: GroupPolicy, nr_slices: int, nr_dpus: int, id: int) -> Seq<
    (DpuId, bool),
> {
    match policy {
        GroupPolicy::Dpu => seq![
            (
                DpuId {
                    rank: ((id / nr_dpus) / nr_slices) as u8,
                    slice: ((id / nr_dpus) % nr_slices) as u8,
                    member: (id % nr_dpus) as u8,
                },
                true,
            ),
        ],
        GroupPolicy::Slice => Seq::new(
            nr_slices as nat,
            |slice: int|
                (
                    DpuId {
                        rank: (id / nr_dpus) as u8,
                        slice: slice as u8,
                        member: (id % nr_dpus) as u8,
                    },
                    true,
                ),
        ),
    }
}

/// The identifier of the group that holds `dpu`.
pub open spec fn group_of(policy: GroupPolicy, nr_slices: int, nr_dpus: int, dpu: DpuId) -> int {
    match policy {
        GroupPolicy::Dpu => (dpu.rank * nr_slices + dpu.slice) * nr_dpus + dpu.member,
        GroupPolicy::Slice => dpu.rank * nr_dpus + dpu.member,
    }
}

/// `groups` are the groups of the cluster, each at the index of its
/// identifier.
pub open spec fn groups_of_cluster(
    groups: Seq<DpuGroup>,
    policy: GroupPolicy,
    nr_ranks: int,
    nr_slices: int,
    nr_dpus: int,
) -> bool {
    &&& groups.len() == nr_of_groups(policy, nr_ranks, nr_slices, nr_dpus)
    &&& forall|i: int|
        0 <= i < groups.len() ==> {
            &&& (#[trigger] groups[i]).id == i
            &&& groups[i].dpus@ == group_members(policy, nr_slices, nr_dpus, i)
        }
}

proof fn lemma_product_bound(a: int, b: int, c: int)
    requires
        0 <= a <= 255,
        0 <= b <= 255,
        0 <= c <= 255,
    ensures
        0 <= a * b <= 65025,
        0 <= a * b * c <= 16581375,
{
    assert(0 <= a * b <= 65025) by (nonlinear_arith)
        requires
            0 <= a <= 255,
            0 <= b <= 255,
    ;
    assert(0 <= a * b * c <= 16581375) by (nonlinear_arith)
        requires
            0 <= a * b <= 65025,
            0 <= c <= 255,
    ;
}

/// Position `(rank, slice, member)` has the number `(rank * s + slice) * d +
/// member`, which is below the number of positions, and the number gives the
/// position back.
proof fn lemma_position(r: int, s: int, d: int, rank: int, slice: int, member: int)
    requires
        0 <= rank < r,
        0 <= slice < s,
        0 <= member < d,
    ensures
        0 <= (rank * s + slice) * d + member < r * s * d,
        ((rank * s + slice) * d + member) % d == member,
        ((rank * s + slice) * d + member) / d == rank * s + slice,
        (rank * s + slice) % s == slice,
        (rank * s + slice) / s == rank,
        0 <= rank * s + slice < r * s,
{
    let row = rank * s + slice;
    assert(0 <= rank * s) by (nonlinear_arith)
        requires
            0 <= rank,
            0 <= s,
    ;
    assert(row + 1 <= r * s) by (nonlinear_arith)
        requires
            rank + 1 <= r,
            slice + 1 <= s,
            row == rank * s + slice,
            0 <= s,
    ;
    assert(0 <= row * d) by (nonlinear_arith)
        requires
            0 <= row,
            0 <= d,
    ;
    assert(row * d + d <= r * s * d) by (nonlinear_arith)
        requires
            row + 1 <= r * s,
            0 <= d,
    ;
    lemma_fundamental_div_mod_converse(row * d + member, d, row, member);
    lemma_fundamental_div_mod_converse(row, s, rank, slice);
}

/// Every DPU of the cluster is a member of the group that `group_of` names,
/// and of no other group.
pub proof fn lemma_groups_partition_cluster(
    policy: GroupPolicy,
    nr_ranks: int,
    nr_slices: int,
    nr_dpus: int,
    dpu: DpuId,
)
    requires
        0 <= nr_ranks <= 255,
        0 <= nr_slices <= 255,
        0 <= nr_dpus <= 255,
        dpu.rank < nr_ranks,
        dpu.slice < nr_slices,
        dpu.member < nr_dpus,
    ensures
        0 <= group_of(policy, nr_slices, nr_dpus, dpu) < nr_of_groups(
            policy,
            nr_ranks,
            nr_slices,
            nr_dpus,
        ),
        group_members(
            policy,
            nr_slices,
            nr_dpus,
            group_of(policy, nr_slices, nr_dpus, dpu),
        ).contains((dpu, true)),
        forall|id: int|
            0 <= id < nr_of_groups(policy, nr_ranks, nr_slices, nr_dpus) && id != group_of(
                policy,
                nr_slices,
                nr_dpus,
                dpu,
            ) ==> !(#[trigger] group_members(policy, nr_slices, nr_dpus, id)).contains((dpu, true)),
{
    let home = group_of(policy, nr_slices, nr_dpus, dpu);
    let rank = dpu.rank as int;
    let slice = dpu.slice as int;
    let member = dpu.member as int;
    match policy {
        GroupPolicy::Dpu => {
            lemma_position(nr_ranks, nr_slices, nr_dpus, rank, slice, member);
            assert(group_members(policy, nr_slices, nr_dpus, home)[0] == (dpu, true));
            assert forall|id: int|
                0 <= id < nr_of_groups(policy, nr_ranks, nr_slices, nr_dpus) && id
                    != home implies !(#[trigger] group_members(
                policy,
                nr_slices,
                nr_dpus,
                id,
            )).contains((dpu, true)) by {
                let members = group_members(policy, nr_slices, nr_dpus, id);
                if members.contains((dpu, true)) {
                    let p = choose|p: int| 0 <= p < members.len() && members[p] == (dpu, true);
                    let row = id / nr_dpus;
                    lemma_product_bound(nr_ranks, nr_slices, nr_dpus);
                    vstd::arithmetic::div_mod::lemma_fundamental_div_mod(id, nr_dpus);
                    vstd::arithmetic::div_mod::lemma_fundamental_div_mod(row, nr_slices);
                    vstd::arithmetic::div_mod::lemma_mod_bound(id, nr_dpus);
                    vstd::arithmetic::div_mod::lemma_mod_bound(row, nr_slices);
                    vstd::arithmetic::div_mod::lemma_div_pos_is_pos(id, nr_dpus);
                    vstd::arithmetic::div_mod::lemma_div_pos_is_pos(row, nr_slices);
                    assert(id / nr_dpus <= id) by (nonlinear_arith)
                        requires
                            0 <= id,
                            0 < nr_dpus,
                    ;
                    assert(row / nr_slices <= row) by (nonlinear_arith)
                        requires
                            0 <= row,
                            0 < nr_slices,
                    ;
                    let m = id % nr_dpus;
                    let q = row / nr_slices;
                    let sl = row % nr_slices;
                    assert(row < nr_ranks * nr_slices) by (nonlinear_arith)
                        requires
                            id == nr_dpus * row + m,
                            0 <= m < nr_dpus,
                            id < nr_ranks * nr_slices * nr_dpus,
                    ;
                    assert(q < nr_ranks) by (nonlinear_arith)
                        requires
                            row == nr_slices * q + sl,
                            0 <= sl < nr_slices,
                            row < nr_ranks * nr_slices,
                    ;
                    assert(members[0] == (dpu, true));
                    assert(row / nr_slices == rank);
                    assert(row % nr_slices == slice);
                    assert(id % nr_dpus == member);
                    assert(row == nr_slices * rank + slice);
                    assert(id == nr_dpus * row + member);
                    assert(nr_dpus * row == row * nr_dpus) by (nonlinear_arith);
                    assert(nr_slices * rank == rank * nr_slices) by (nonlinear_arith);
                    assert(false);
                }
            }
        },
        GroupPolicy::Slice => {
            assert(0 <= rank * nr_dpus + member < nr_ranks * nr_dpus) by (nonlinear_arith)
                requires
                    0 <= rank < nr_ranks,
                    0 <= member < nr_dpus,
            ;
            lemma_fundamental_div_mod_converse(home, nr_dpus, rank, member);
            assert(group_members(policy, nr_slices, nr_dpus, home)[slice] == (dpu, true));
            assert forall|id: int|
                0 <= id < nr_of_groups(policy, nr_ranks, nr_slices, nr_dpus) && id
                    != home implies !(#[trigger] group_members(
                policy,
                nr_slices,
                nr_dpus,
                id,
            )).contains((dpu, true)) by {
                let members = group_members(policy, nr_slices, nr_dpus, id);
                if members.contains((dpu, true)) {
                    let p = choose|p: int| 0 <= p < members.len() && members[p] == (dpu, true);
                    lemma_product_bound(nr_ranks, nr_dpus, 1);
                    vstd::arithmetic::div_mod::lemma_fundamental_div_mod(id, nr_dpus);
                    vstd::arithmetic::div_mod::lemma_mod_bound(id, nr_dpus);
                    vstd::arithmetic::div_mod::lemma_div_pos_is_pos(id, nr_dpus);
                    assert(id / nr_dpus <= id) by (nonlinear_arith)
                        requires
                            0 <= id,
                            0 < nr_dpus,
                    ;
                    let m = id % nr_dpus;
                    let q = id / nr_dpus;
                    assert(q < nr_ranks) by (nonlinear_arith)
                        requires
                            id == nr_dpus * q + m,
                            0 <= m < nr_dpus,
                            id < nr_ranks * nr_dpus,
                    ;
                    assert(members[p].0.rank == dpu.rank);
                    assert(id / nr_dpus == rank);
                    assert(id % nr_dpus == member);
                    assert(nr_dpus * rank == rank * nr_dpus) by (nonlinear_arith);
                    assert(false);
                }
            }
        },
    }
}

/// The groups of a cluster of `nr_ranks` ranks with `nr_slices` slices of
/// `nr_dpus` DPUs each, in the order of their identifiers.
pub fn create_groups_from(policy: GroupPolicy, nr_ranks: u8, nr_slices: u8, nr_dpus: u8) -> (groups: Vec<
    DpuGroup,
>)
    ensures
        groups_of_cluster(groups@, policy, nr_ranks as int, nr_slices as int, nr_dpus as int),
{
    let mut groups: Vec<DpuGroup> = Vec::new();
    let ghost r = nr_ranks as int;
    let ghost s = nr_slices as int;
    let ghost d = nr_dpus as int;
    proof {
        lemma_product_bound(r, s, d);
        lemma_product_bound(r, d, 1);
    }
    match policy {
        GroupPolicy::Dpu => {
            let mut rank_idx: u8 = 0;
            proof {
                assert(0 * s * d == 0) by (nonlinear_arith);
            }
            while rank_idx < nr_ranks
                invariant
                    policy == GroupPolicy::Dpu,
                    r == nr_ranks,
                    s == nr_slices,
                    d == nr_dpus,
                    rank_idx <= nr_ranks,
                    groups@.len() == rank_idx * s * d,
                    forall|i: int|
                        0 <= i < groups@.len() ==> {
                            &&& (#[trigger] groups@[i]).id == i
                            &&& groups@[i].dpus@ == group_members(policy, s, d, i)
                        },
                decreases nr_ranks - rank_idx,
            {
                let mut slice_idx: u8 = 0;
                while slice_idx < nr_slices
                    invariant
                        policy == GroupPolicy::Dpu,
                        r == nr_ranks,
                        s == nr_slices,
                        d == nr_dpus,
                        rank_idx < nr_ranks,
                        slice_idx <= nr_slices,
                        groups@.len() == (rank_idx * s + slice_idx) * d,
                        forall|i: int|
                            0 <= i < groups@.len() ==> {
                                &&& (#[trigger] groups@[i]).id == i
                                &&& groups@[i].dpus@ == group_members(policy, s, d, i)
                            },
                    decreases nr_slices - slice_idx,
                {
                    let mut dpu_idx: u8 = 0;
                    while dpu_idx < nr_dpus
                        invariant
                            policy == GroupPolicy::Dpu,
                            r == nr_ranks,
                            s == nr_slices,
                            d == nr_dpus,
                            rank_idx < nr_ranks,
                            slice_idx < nr_slices,
                            dpu_idx <= nr_dpus,
                            groups@.len() == (rank_idx * s + slice_idx) * d + dpu_idx,
                            forall|i: int|
                                0 <= i < groups@.len() ==> {
                                    &&& (#[trigger] groups@[i]).id == i
                                    &&& groups@[i].dpus@ == group_members(policy, s, d, i)
                                },
                        decreases nr_dpus - dpu_idx,
                    {
                        proof {
                            lemma_position(r, s, d, rank_idx as int, slice_idx as int, dpu_idx as int);
                            lemma_product_bound(r, s, d);
                        }
                        let id: u32 = ((rank_idx as u32) * (nr_slices as u32) + (slice_idx as u32))
                            * (nr_dpus as u32) + (dpu_idx as u32);
                        let dpus: Vec<(DpuId, bool)> = vec![
                            (DpuId::new(rank_idx, slice_idx, dpu_idx), true),
                        ];
                        proof {
                            assert(dpus@ =~= group_members(policy, s, d, id as int));
                        }
                        groups.push(DpuGroup { id, dpus });
                        dpu_idx += 1;
                    }
                    proof {
                        lemma_mul_is_distributive_add_other_way(d, rank_idx * s + slice_idx, 1);
                    }
                    slice_idx += 1;
                }
                proof {
                    assert((rank_idx * s + s) * d == (rank_idx + 1) * s * d) by (nonlinear_arith);
                    assert((rank_idx * s + 0) * d == rank_idx * s * d) by (nonlinear_arith);
                }
                rank_idx += 1;
            }
        },
        GroupPolicy::Slice => {
            let mut rank_idx: u8 = 0;
            while rank_idx < nr_ranks
                invariant
                    policy == GroupPolicy::Slice,
                    r == nr_ranks,
                    s == nr_slices,
                    d == nr_dpus,
                    rank_idx <= nr_ranks,
                    groups@.len() == rank_idx * d,
                    forall|i: int|
                        0 <= i < groups@.len() ==> {
                            &&& (#[trigger] groups@[i]).id == i
                            &&& groups@[i].dpus@ == group_members(policy, s, d, i)
                        },
                decreases nr_ranks - rank_idx,
            {
                let mut dpu_idx: u8 = 0;
                while dpu_idx < nr_dpus
                    invariant
                        policy == GroupPolicy::Slice,
                        r == nr_ranks,
                        s == nr_slices,
                        d == nr_dpus,
                        rank_idx < nr_ranks,
                        dpu_idx <= nr_dpus,
                        groups@.len() == rank_idx * d + dpu_idx,
                        forall|i: int|
                            0 <= i < groups@.len() ==> {
                                &&& (#[trigger] groups@[i]).id == i
                                &&& groups@[i].dpus@ == group_members(policy, s, d, i)
                            },
                    decreases nr_dpus - dpu_idx,
                {
                    proof {
                        assert(0 <= rank_idx * d + dpu_idx < r * d) by (nonlinear_arith)
                            requires
                                0 <= rank_idx < r,
                                0 <= dpu_idx < d,
                        ;
                        lemma_product_bound(r, d, 1);
                        lemma_fundamental_div_mod_converse(
                            rank_idx * d + dpu_idx,
                            d,
                            rank_idx as int,
                            dpu_idx as int,
                        );
                    }
                    let id: u32 = (rank_idx as u32) * (nr_dpus as u32) + (dpu_idx as u32);
                    let mut dpus: Vec<(DpuId, bool)> = Vec::new();
                    let mut slice_idx: u8 = 0;
                    while slice_idx < nr_slices
                        invariant
                            slice_idx <= nr_slices,
                            dpus@.len() == slice_idx,
                            forall|slice: int|
                                0 <= slice < slice_idx ==> (#[trigger] dpus@[slice]) == (
                                    DpuId { rank: rank_idx, slice: slice as u8, member: dpu_idx },
                                    true,
                                ),
                        decreases nr_slices - slice_idx,
                    {
                        dpus.push((DpuId::new(rank_idx, slice_idx, dpu_idx), true));
                        slice_idx += 1;
                    }
                    proof {
                        assert(dpus@ =~= group_members(policy, s, d, id as int));
                    }
                    groups.push(DpuGroup { id, dpus });
                    dpu_idx += 1;
                }
                proof {
                    assert(rank_idx * d + d == (rank_idx + 1) * d) by (nonlinear_arith);
                }
                rank_idx += 1;
            }
        },
    }
    groups
}

} // verus!
