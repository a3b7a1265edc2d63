//! Identification of DPUs and the bookkeeping of which of them are reserved.

use vstd::prelude::*;

verus! {

/// Position of one DPU in the cluster: its rank, its slice within the rank and
/// its member index within the slice.
#[derive(Clone, Copy, Debug, PartialEq, Eq, PartialOrd, Ord, Hash, Structural)]
pub struct DpuId {
    pub rank: u8,
    pub slice: u8,
    pub member: u8,
}

/// Lexicographic order on `(rank, slice, member)` triples.
pub open spec fn lexicographic_lt(a: DpuId, b: DpuId) -> bool {
    a.rank < b.rank || (a.rank == b.rank && (a.slice < b.slice || (a.slice == b.slice && a.member
        < b.member)))
}

impl DpuId {
    pub fn new(rank: u8, slice: u8, member: u8) -> (id: DpuId)
        ensures
            id == (DpuId { rank, slice, member }),
    {
        DpuId { rank, slice, member }
    }

    pub fn members(&self) -> (m: (u8, u8, u8))
        ensures
            m == (self.rank, self.slice, self.member),
    {
        (self.rank, self.slice, self.member)
    }

    /// Whether `self` comes strictly before `other` in the lexicographic order.
    pub fn precedes(&self, other: &DpuId) -> (b: bool)
        ensures
            b == lexicographic_lt(*self, *other),
    {
        if self.rank != other.rank {
            self.rank < other.rank
        } else if self.slice != other.slice {
            self.slice < other.slice
        } else {
            self.member < other.member
        }
    }
}

/// The order on DPU identifiers is a strict total order.
pub proof fn lemma_dpu_order_is_total(a: DpuId, b: DpuId, c: DpuId)
    ensures
        !lexicographic_lt(a, a),
        lexicographic_lt(a, b) || lexicographic_lt(b, a) || a == b,
        !(lexicographic_lt(a, b) && lexicographic_lt(b, a)),
        lexicographic_lt(a, b) && lexicographic_lt(b, c) ==> lexicographic_lt(a, c),
{
}

/// Identifier of the process that owns a reservation.
#[derive(Clone, Copy, Debug, PartialEq, Eq, Structural)]
pub struct ProcessId(pub u64);

/// What is remembered about a reserved DPU.
#[derive(Clone, Copy, Debug, PartialEq, Eq, Structural)]
pub struct AllocationInformation {
    pub owner: ProcessId,
}

/// The DPUs of a cluster, split into those reserved by a process and those
/// still available. Reservations are kept as a list in which no DPU occurs
/// twice.
#[derive(Debug)]
pub struct Mapping {
    pub reserved: Vec<(DpuId, AllocationInformation)>,
    pub available: Vec<DpuId>,
}

/// Index of the first reservation of `dpu` in `reserved`, if there is one.
pub open spec fn reservation_index(reserved: Seq<(DpuId, AllocationInformation)>, dpu: DpuId) -> Option<int>
    decreases reserved.len(),
{
    if reserved.len() == 0 {
        None
    } else if reserved[0].0 == dpu {
        Some(0)
    } else {
        match reservation_index(reserved.subrange(1, reserved.len() as int), dpu) {
            Some(i) => Some(i + 1),
            None => None,
        }
    }
}

pub proof fn lemma_reservation_index(reserved: Seq<(DpuId, AllocationInformation)>, dpu: DpuId)
    ensures
        match reservation_index(reserved, dpu) {
            Some(i) => 0 <= i < reserved.len() && reserved[i].0 == dpu && forall|j: int|
                0 <= j < i ==> reserved[j].0 != dpu,
            None => forall|j: int| 0 <= j < reserved.len() ==> reserved[j].0 != dpu,
        },
    decreases reserved.len(),
{
    if reserved.len() > 0 && reserved[0].0 != dpu {
        let rest = reserved.subrange(1, reserved.len() as int);
        lemma_reservation_index(rest, dpu);
        match reservation_index(rest, dpu) {
            Some(i) => {
                assert forall|j: int| 0 <= j < i + 1 implies reserved[j].0 != dpu by {
                    if j > 0 {
                        assert(reserved[j] == rest[j - 1]);
                    }
                }
            },
            None => {
                assert forall|j: int| 0 <= j < reserved.len() implies reserved[j].0 != dpu by {
                    if j > 0 {
                        assert(reserved[j] == rest[j - 1]);
                    }
                }
            },
        }
    }
}

/// A position that holds `dpu` and is preceded by no other reservation of it
/// is the one that `reservation_index` finds; without any, it finds none.
pub proof fn lemma_reservation_index_unique(
    reserved: Seq<(DpuId, AllocationInformation)>,
    dpu: DpuId,
    expected: Option<int>,
)
    requires
        match expected {
            Some(i) => 0 <= i < reserved.len() && reserved[i].0 == dpu && forall|j: int|
                0 <= j < i ==> reserved[j].0 != dpu,
            None => forall|j: int| 0 <= j < reserved.len() ==> reserved[j].0 != dpu,
        },
    ensures
        reservation_index(reserved, dpu) == expected,
{
    lemma_reservation_index(reserved, dpu);
}

impl Mapping {
    /// The reservations as a map from DPU to its allocation information.
    pub open spec fn reserved_map(self) -> Map<DpuId, AllocationInformation> {
        Map::new(
            |d: DpuId| reservation_index(self.reserved@, d) is Some,
            |d: DpuId| self.reserved@[reservation_index(self.reserved@, d).unwrap()].1,
        )
    }

    /// No DPU is reserved twice.
    pub open spec fn wf(self) -> bool {
        forall|i: int, j: int|
            0 <= i < j < self.reserved@.len() ==> self.reserved@[i].0 != self.reserved@[j].0
    }

    pub fn new(dpus: Vec<DpuId>) -> (m: Mapping)
        ensures
            m.wf(),
            m.available@ == dpus@,
            m.reserved@.len() == 0,
            m.reserved_map() == Map::<DpuId, AllocationInformation>::empty(),
    {
        let m = Mapping { reserved: Vec::new(), available: dpus };
        assert(m.reserved_map() =~= Map::<DpuId, AllocationInformation>::empty());
        m
    }

    /// Position of `dpu` among the reservations.
    fn position(&self, dpu: &DpuId) -> (r: Option<usize>)
        ensures
            match r {
                Some(i) => i < self.reserved@.len() && reservation_index(self.reserved@, *dpu)
                    == Some(i as int),
                None => reservation_index(self.reserved@, *dpu) is None,
            },
    {
        let mut i: usize = 0;
        while i < self.reserved.len()
            invariant
                i <= self.reserved.len(),
                forall|j: int| 0 <= j < i ==> self.reserved@[j].0 != *dpu,
            decreases self.reserved.len() - i,
        {
            if self.reserved[i].0 == *dpu {
                proof {
                    lemma_reservation_index(self.reserved@, *dpu);
                }
                return Some(i);
            }
            i += 1;
        }
        proof {
            lemma_reservation_index(self.reserved@, *dpu);
        }
        None
    }

    /// Reserves the most recently released (or last listed) available DPU for
    /// `owner`. Fails only when no DPU is available.
    pub fn reserve(&mut self, owner: ProcessId) -> (r: Option<DpuId>)
        requires
            old(self).wf(),
        ensures
            final(self).wf(),
            old(self).available@.len() == 0 ==> r is None && final(self).available@ == old(
                self,
            ).available@ && final(self).reserved@ == old(self).reserved@,
            old(self).available@.len() > 0 ==> r == Some(old(self).available@.last())
                && final(self).available@ == old(self).available@.drop_last()
                && final(self).reserved_map() == old(self).reserved_map().insert(
                old(self).available@.last(),
                AllocationInformation { owner },
            ),
    {
        match self.available.pop() {
            Some(dpu) => {
                let info = AllocationInformation { owner };
                match self.position(&dpu) {
                    Some(i) => {
                        proof {
                            lemma_reservation_index(self.reserved@, dpu);
                        }
                        self.reserved[i] = (dpu, info);
                        proof {
                            let before = old(self).reserved@;
                            let after = self.reserved@;
                            assert(after =~= before.update(i as int, (dpu, info)));
                            assert forall|d: DpuId|
                                reservation_index(after, d) == reservation_index(
                                    before,
                                    d,
                                ) by {
                                lemma_reservation_index(before, d);
                                lemma_reservation_index_unique(
                                    after,
                                    d,
                                    reservation_index(before, d),
                                );
                            }
                            assert forall|d: DpuId| #[trigger]
                                self.reserved_map().contains_key(d) && d
                                    != dpu implies self.reserved_map()[d] == old(
                                self,
                            ).reserved_map()[d] by {
                                lemma_reservation_index(before, d);
                            }
                            assert(self.reserved_map() =~= old(self).reserved_map().insert(
                                dpu,
                                info,
                            ));
                        }
                    },
                    None => {
                        proof {
                            lemma_reservation_index(self.reserved@, dpu);
                        }
                        self.reserved.push((dpu, info));
                        proof {
                            let before = old(self).reserved@;
                            let after = self.reserved@;
                            assert(after =~= before.push((dpu, info)));
                            assert forall|d: DpuId|
                                reservation_index(after, d) == (if d == dpu {
                                    Some(before.len() as int)
                                } else {
                                    reservation_index(before, d)
                                }) by {
                                lemma_reservation_index(before, d);
                                lemma_reservation_index_unique(
                                    after,
                                    d,
                                    if d == dpu {
                                        Some(before.len() as int)
                                    } else {
                                        reservation_index(before, d)
                                    },
                                );
                            }
                            assert forall|d: DpuId| #[trigger]
                                self.reserved_map().contains_key(d) && d
                                    != dpu implies self.reserved_map()[d] == old(
                                self,
                            ).reserved_map()[d] by {
                                lemma_reservation_index(before, d);
                            }
                            assert(self.reserved_map() =~= old(self).reserved_map().insert(
                                dpu,
                                info,
                            ));
                        }
                    },
                }
                Some(dpu)
            },
            None => None,
        }
    }

    /// Ends the reservation of `dpu` and makes it available again. Fails only
    /// when `dpu` is not reserved.
    pub fn release(&mut self, dpu: &DpuId) -> (r: Option<AllocationInformation>)
        requires
            old(self).wf(),
        ensures
            final(self).wf(),
            !old(self).reserved_map().contains_key(*dpu) ==> r is None && final(self).available@
                == old(self).available@ && final(self).reserved@ == old(self).reserved@,
            old(self).reserved_map().contains_key(*dpu) ==> r == Some(
                old(self).reserved_map()[*dpu],
            ) && final(self).available@ == old(self).available@.push(*dpu)
                && final(self).reserved_map() == old(self).reserved_map().remove(*dpu),
    {
        match self.position(dpu) {
            Some(i) => {
                let (_, info) = self.reserved.remove(i);
                self.available.push(*dpu);
                proof {
                    let before = old(self).reserved@;
                    let after = self.reserved@;
                    lemma_reservation_index(before, *dpu);
                    assert forall|d: DpuId|
                        reservation_index(after, d) == (if d == *dpu {
                            None
                        } else {
                            match reservation_index(before, d) {
                                Some(j) => Some(if j < i { j } else { j - 1 }),
                                None => None,
                            }
                        }) by {
                        lemma_reservation_index(before, d);
                        lemma_reservation_index(after, d);
                        match reservation_index(before, d) {
                            Some(j) => {
                                if d != *dpu {
                                    let k = if j < i { j } else { j - 1 };
                                    assert(after[k] == before[j]);
                                }
                            },
                            None => {},
                        }
                    }
                    assert forall|d: DpuId| #[trigger]
                        self.reserved_map().contains_key(d) implies self.reserved_map()[d] == old(
                        self,
                    ).reserved_map()[d] by {
                        lemma_reservation_index(before, d);
                        lemma_reservation_index(after, d);
                    }
                    assert(self.reserved_map() =~= old(self).reserved_map().remove(*dpu));
                }
                Some(info)
            },
            None => None,
        }
    }
}

} // verus!
