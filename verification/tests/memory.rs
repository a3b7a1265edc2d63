use dpu_cluster_core::dpu::DpuId;
use dpu_cluster_core::memory::MemoryTransfer;
use dpu_cluster_core::memory::MemoryTransferEntry;
use dpu_cluster_core::memory::MemoryTransferEntryReference;
use dpu_cluster_core::pipeline::transfer::InputMemoryTransfer;
use dpu_cluster_core::view::FastSelection;
use dpu_cluster_core::view::Selection;
use dpu_cluster_core::view::Target;
use dpu_cluster_core::view::View;

#[test]
fn entries_are_kept_by_rank_and_dpu() {
    let a = DpuId::new(0, 0, 0);
    let b = DpuId::new(0, 1, 0);
    let c = DpuId::new(2, 0, 0);
    let mut transfer = MemoryTransfer::default();
    transfer.add_in_place(a, 4, MemoryTransferEntryReference(vec![1, 2]));
    transfer.add_in_place(c, 8, vec![3].into());
    let transfer = transfer.add(b, 0, MemoryTransferEntryReference(vec![]));
    assert_eq!(transfer.0.len(), 2);
    assert_eq!(transfer.0[0].0, 0);
    assert_eq!(transfer.0[0].1 .0.len(), 2);
    assert_eq!(transfer.0[1].0, 2);
    let entry = transfer.get(a).unwrap();
    assert_eq!((entry.offset, entry.reference.clone()), (4, vec![1, 2]));
    let entry = transfer.get(c).unwrap();
    assert_eq!((entry.offset, entry.reference.clone()), (8, vec![3]));
    assert!(transfer.get(DpuId::new(1, 0, 0)).is_none());
    assert!(transfer.get(DpuId::new(0, 2, 0)).is_none());
}

#[test]
fn a_later_entry_for_a_dpu_takes_the_place_of_an_earlier_one() {
    let a = DpuId::new(0, 0, 0);
    let mut transfer = MemoryTransfer::default();
    transfer.add_entry(a, MemoryTransferEntry { offset: 4, reference: vec![1, 2] });
    transfer.add_entry(a, MemoryTransferEntry { offset: 6, reference: vec![9] });
    let entry = transfer.get(a).unwrap();
    assert_eq!((entry.offset, entry.reference.clone()), (6, vec![9]));
}

#[test]
fn words_are_transferred_least_significant_byte_first() {
    let transfer = InputMemoryTransfer::from_u32_vec(16, vec![0x0403_0201, 0xffee_ddcc]);
    assert_eq!(transfer.offset, 16);
    assert_eq!(transfer.content, vec![1, 2, 3, 4, 0xcc, 0xdd, 0xee, 0xff]);
    let transfer = InputMemoryTransfer::from_u8_vec(2, vec![5, 6]);
    assert_eq!((transfer.offset, transfer.content), (2, vec![5, 6]));
}

#[test]
fn the_view_of_everything_is_one_call_for_the_cluster() {
    assert_eq!(View::all().targets(8), vec![Target::Cluster]);
    assert_eq!(View::default().targets(8), Vec::<Target>::new());
    let dpu = DpuId::new(1, 2, 3);
    assert_eq!(View::one(dpu).targets(8), vec![Target::Dpu(dpu)]);
}

#[test]
fn a_view_of_some_ranks_is_expanded_rank_by_rank() {
    let picked = DpuId::new(2, 1, 5);
    let view = View(FastSelection::Normal(Selection::Only(vec![
        Selection::All,
        Selection::Nothing,
        Selection::Only(vec![
            Selection::All,
            Selection::Only(vec![picked]),
            Selection::Nothing,
        ]),
    ])));
    assert_eq!(
        view.targets(2),
        vec![
            Target::Rank(0),
            Target::Dpu(DpuId::new(2, 0, 0)),
            Target::Dpu(DpuId::new(2, 0, 1)),
            Target::Dpu(picked),
        ]
    );
}
