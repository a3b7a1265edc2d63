use dpu_cluster_core::dpu::AllocationInformation;
use dpu_cluster_core::dpu::DpuId;
use dpu_cluster_core::dpu::Mapping;
use dpu_cluster_core::dpu::ProcessId;

#[test]
fn dpu_id_keeps_its_members() {
    let id = DpuId::new(1, 2, 3);
    assert_eq!(id.members(), (1, 2, 3));
    assert_eq!(id, DpuId { rank: 1, slice: 2, member: 3 });
}

#[test]
fn dpu_ids_are_ordered_by_rank_then_slice_then_member() {
    let a = DpuId::new(0, 5, 9);
    let b = DpuId::new(1, 0, 0);
    let c = DpuId::new(1, 0, 1);
    let d = DpuId::new(1, 2, 0);
    assert!(a.precedes(&b));
    assert!(b.precedes(&c));
    assert!(c.precedes(&d));
    assert!(!d.precedes(&c));
    assert!(!a.precedes(&a));
    assert!(a < b && b < c && c < d);
    assert_eq!(a.precedes(&d), a < d);
}

#[test]
fn reserving_takes_the_last_available_dpu() {
    let first = DpuId::new(0, 0, 0);
    let second = DpuId::new(0, 0, 1);
    let mut mapping = Mapping::new(vec![first, second]);
    assert_eq!(mapping.reserve(ProcessId(7)), Some(second));
    assert_eq!(mapping.available, vec![first]);
    assert_eq!(mapping.reserved, vec![(second, AllocationInformation { owner: ProcessId(7) })]);
    assert_eq!(mapping.reserve(ProcessId(8)), Some(first));
    assert_eq!(mapping.reserve(ProcessId(9)), None);
    assert_eq!(mapping.reserved.len(), 2);
}

#[test]
fn releasing_makes_a_dpu_available_again() {
    let first = DpuId::new(0, 0, 0);
    let second = DpuId::new(0, 0, 1);
    let mut mapping = Mapping::new(vec![first, second]);
    mapping.reserve(ProcessId(7));
    assert_eq!(mapping.release(&second), Some(AllocationInformation { owner: ProcessId(7) }));
    assert_eq!(mapping.available, vec![first, second]);
    assert!(mapping.reserved.is_empty());
    assert_eq!(mapping.release(&second), None);
    assert_eq!(mapping.release(&first), None);
    assert_eq!(mapping.available, vec![first, second]);
}
