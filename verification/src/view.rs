//! Views: which DPUs of a cluster an operation is meant for.

use crate::dpu::DpuId;
use vstd::prelude::*;
use vstd::view::View as _;

verus! {

/// A choice among things of which there is a known number: all of them, none
/// of them, or one choice for each of them in order.
#[derive(Debug)]
pub enum Selection<T> {
    All,
    Nothing,
    Only(Vec<T>),
}

/// A selection, or a single DPU named outright.
#[derive(Debug)]
pub enum FastSelection<T> {
    Fast(DpuId),
    Normal(Selection<T>),
}

impl<T> Default for Selection<T> {
    fn default() -> (s: Selection<T>)
        ensures
            s is Nothing,
    {
        Selection::Nothing
    }
}

impl<T> Default for FastSelection<T> {
    fn default() -> (s: FastSelection<T>)
        ensures
            s == FastSelection::Normal(Selection::<T>::Nothing),
    {
        FastSelection::Normal(Selection::Nothing)
    }
}

/// A view of a cluster: one DPU, or for each rank a selection of its slices,
/// and for each selected slice a selection of its DPUs.
#[derive(Debug)]
pub struct View(pub FastSelection<Selection<Selection<DpuId>>>);

impl Default for View {
    fn default() -> (view: View)
        ensures
            view.0 == FastSelection::Normal(Selection::<Selection<Selection<DpuId>>>::Nothing),
    {
        View(FastSelection::Normal(Selection::Nothing))
    }
}

/// What one call of the driver is made for.
#[derive(Clone, Copy, Debug, PartialEq, Eq, Structural)]
pub enum Target {
    /// Every rank of the cluster.
    Cluster,
    /// One whole rank.
    Rank(u8),
    /// One DPU.
    Dpu(DpuId),
}

/// The DPUs that `selection` chooses in slice `slice` of rank `rank`, where a
/// slice has `nr_of_dpus` DPUs.
pub open spec fn chosen_in_slice(
    rank: u8,
    slice: u8,
    selection: Selection<DpuId>,
    nr_of_dpus: u8,
) -> Seq<Target> {
    match selection {
        Selection::All => Seq::new(
            nr_of_dpus as nat,
            |member: int| Target::Dpu(DpuId { rank, slice, member: member as u8 }),
        ),
        Selection::Nothing => Seq::empty(),
        Selection::Only(dpus) => Seq::new(dpus@.len(), |i: int| Target::Dpu(dpus@[i])),
    }
}

/// The DPUs that the first `n` of `slices` choose in rank `rank`. Slices are
/// numbered from 0, and past 255 the numbers start over.
pub open spec fn chosen_in_slices(
    rank: u8,
    slices: Seq<Selection<DpuId>>,
    nr_of_dpus: u8,
    n: int,
) -> Seq<Target>
    decreases n,
{
    if n <= 0 {
        Seq::empty()
    } else {
        chosen_in_slices(rank, slices, nr_of_dpus, n - 1) + chosen_in_slice(
            rank,
            ((n - 1) % 256) as u8,
            slices[n - 1],
            nr_of_dpus,
        )
    }
}

/// What `selection` chooses in rank `rank`: the whole rank, nothing, or the
/// DPUs of its slices.
pub open spec fn chosen_in_rank(
    rank: u8,
    selection: Selection<Selection<DpuId>>,
    nr_of_dpus: u8,
) -> Seq<Target> {
    match selection {
        Selection::All => seq![Target::Rank(rank)],
        Selection::Nothing => Seq::empty(),
        Selection::Only(slices) => chosen_in_slices(rank, slices@, nr_of_dpus, slices@.len() as int),
    }
}

/// What the first `n` of `ranks` choose. Ranks are numbered from 0, and past
/// 255 the numbers start over.
pub open spec fn chosen_in_ranks(
    ranks: Seq<Selection<Selection<DpuId>>>,
    nr_of_dpus: u8,
    n: int,
) -> Seq<Target>
    decreases n,
{
    if n <= 0 {
        Seq::empty()
    } else {
        chosen_in_ranks(ranks, nr_of_dpus, n - 1) + chosen_in_rank(
            ((n - 1) % 256) as u8,
            ranks[n - 1],
            nr_of_dpus,
        )
    }
}

/// The calls that an operation on `view` comes to, in order.
pub open spec fn chosen(view: View, nr_of_dpus: u8) -> Seq<Target> {
    match view.0 {
        FastSelection::Fast(dpu) => seq![Target::Dpu(dpu)],
        FastSelection::Normal(Selection::All) => seq![Target::Cluster],
        FastSelection::Normal(Selection::Nothing) => Seq::empty(),
        FastSelection::Normal(Selection::Only(ranks)) => chosen_in_ranks(
            ranks@,
            nr_of_dpus,
            ranks@.len() as int,
        ),
    }
}

/// Appends to `targets` the DPUs that `selection` chooses in one slice.
fn choose_in_slice(targets: &mut Vec<Target>, rank: u8, slice: u8, selection: &Selection<DpuId>, nr_of_dpus: u8)
    ensures
        final(targets)@ == old(targets)@ + chosen_in_slice(rank, slice, *selection, nr_of_dpus),
{
    match selection {
        Selection::All => {
            let mut member: u8 = 0;
            while member < nr_of_dpus
                invariant
                    member <= nr_of_dpus,
                    targets@ == old(targets)@ + Seq::new(
                        member as nat,
                        |m: int| Target::Dpu(DpuId { rank, slice, member: m as u8 }),
                    ),
                decreases nr_of_dpus - member,
            {
                targets.push(Target::Dpu(DpuId::new(rank, slice, member)));
                member += 1;
            }
        },
        Selection::Nothing => {},
        Selection::Only(dpus) => {
            let mut i: usize = 0;
            while i < dpus.len()
                invariant
                    i <= dpus@.len(),
                    targets@ == old(targets)@ + Seq::new(i as nat, |j: int| Target::Dpu(dpus@[j])),
                decreases dpus.len() - i,
            {
                targets.push(Target::Dpu(dpus[i]));
                i += 1;
            }
        },
    }
}

/// Appends to `targets` what `selection` chooses in one rank.
fn choose_in_rank(targets: &mut Vec<Target>, rank: u8, selection: &Selection<Selection<DpuId>>, nr_of_dpus: u8)
    ensures
        final(targets)@ == old(targets)@ + chosen_in_rank(rank, *selection, nr_of_dpus),
{
    match selection {
        Selection::All => {
            targets.push(Target::Rank(rank));
        },
        Selection::Nothing => {},
        Selection::Only(slices) => {
            let mut i: usize = 0;
            while i < slices.len()
                invariant
                    i <= slices@.len(),
                    targets@ == old(targets)@ + chosen_in_slices(rank, slices@, nr_of_dpus, i as int),
                decreases slices.len() - i,
            {
                let ghost before = targets@;
                choose_in_slice(targets, rank, (i % 256) as u8, &slices[i], nr_of_dpus);
                proof {
                    assert(targets@ =~= old(targets)@ + chosen_in_slices(
                        rank,
                        slices@,
                        nr_of_dpus,
                        i + 1,
                    ));
                }
                i += 1;
            }
        },
    }
}

impl View {
    /// The view of every DPU of the cluster.
    pub fn all() -> (view: View)
        ensures
            view.0 == FastSelection::Normal(Selection::<Selection<Selection<DpuId>>>::All),
    {
        View(FastSelection::Normal(Selection::All))
    }

    /// The view of the single DPU `dpu`.
    pub fn one(dpu: DpuId) -> (view: View)
        ensures
            view.0 == FastSelection::<Selection<Selection<DpuId>>>::Fast(dpu),
    {
        View(FastSelection::Fast(dpu))
    }

    /// The calls that an operation on this view comes to, in order: one for
    /// the whole cluster, one for each rank that is selected as a whole, and
    /// one for each DPU that is selected within a rank, where a slice has
    /// `nr_of_dpus` DPUs.
    pub fn targets(&self, nr_of_dpus: u8) -> (targets: Vec<Target>)
        ensures
            targets@ == chosen(*self, nr_of_dpus),
    {
        let mut targets: Vec<Target> = Vec::new();
        match &self.0 {
            FastSelection::Fast(dpu) => {
                targets.push(Target::Dpu(*dpu));
            },
            FastSelection::Normal(Selection::All) => {
                targets.push(Target::Cluster);
            },
            FastSelection::Normal(Selection::Nothing) => {},
            FastSelection::Normal(Selection::Only(ranks)) => {
                let mut i: usize = 0;
                while i < ranks.len()
                    invariant
                        i <= ranks@.len(),
                        targets@ == chosen_in_ranks(ranks@, nr_of_dpus, i as int),
                    decreases ranks.len() - i,
                {
                    choose_in_rank(&mut targets, (i % 256) as u8, &ranks[i], nr_of_dpus);
                    i += 1;
                }
            },
        }
        targets
    }
}

} // verus!
