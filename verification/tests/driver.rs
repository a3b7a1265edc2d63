use dpu_cluster_core::dpu::DpuId;
use dpu_cluster_core::driver::dpu_status;
use dpu_cluster_core::driver::fetch_rank_status;
use dpu_cluster_core::driver::nr_of_dpus;
use dpu_cluster_core::driver::Mergeable;
use dpu_cluster_core::driver::RunStatus;

fn faults(status: &RunStatus) -> Vec<DpuId> {
    match status {
        RunStatus::Fault(dpus) => dpus.clone(),
        _ => panic!("no fault: {:?}", status),
    }
}

#[test]
fn merging_keeps_the_more_severe_status() {
    let a = DpuId::new(0, 0, 0);
    assert!(matches!(RunStatus::Idle.merge_with(&RunStatus::Idle), RunStatus::Idle));
    assert!(matches!(RunStatus::Idle.merge_with(&RunStatus::Running), RunStatus::Running));
    assert!(matches!(RunStatus::Running.merge_with(&RunStatus::Idle), RunStatus::Running));
    assert!(matches!(RunStatus::Running.merge_with(&RunStatus::Running), RunStatus::Running));
    assert_eq!(faults(&RunStatus::Idle.merge_with(&RunStatus::Fault(vec![a]))), vec![a]);
    assert_eq!(faults(&RunStatus::Fault(vec![a]).merge_with(&RunStatus::Running)), vec![a]);
    assert_eq!(faults(&RunStatus::Running.merge_with(&RunStatus::Fault(vec![a]))), vec![a]);
}

#[test]
fn merging_two_faults_lists_both_sides_in_order() {
    let a = DpuId::new(0, 0, 0);
    let b = DpuId::new(0, 1, 0);
    let c = DpuId::new(1, 0, 0);
    let merged = RunStatus::Fault(vec![a, b]).merge_with(&RunStatus::Fault(vec![c, a]));
    assert_eq!(faults(&merged), vec![a, b, c, a]);
}

#[test]
fn the_default_status_is_idle() {
    assert!(matches!(RunStatus::default(), RunStatus::Idle));
}

#[test]
fn a_polled_dpu_is_idle_running_or_in_fault() {
    let dpu = DpuId::new(2, 1, 0);
    assert!(matches!(dpu_status(dpu, false, false), RunStatus::Idle));
    assert!(matches!(dpu_status(dpu, false, true), RunStatus::Idle));
    assert!(matches!(dpu_status(dpu, true, false), RunStatus::Running));
    assert_eq!(faults(&dpu_status(dpu, true, true)), vec![dpu]);
}

#[test]
fn a_rank_without_running_dpus_is_idle() {
    let status = fetch_rank_status(3, &vec![0, 0], &vec![0, 0xff], 8);
    assert!(matches!(status, RunStatus::Idle));
    assert!(matches!(fetch_rank_status(3, &vec![], &vec![], 8), RunStatus::Idle));
}

#[test]
fn a_rank_with_running_dpus_and_no_fault_is_running() {
    let status = fetch_rank_status(3, &vec![0, 0b100], &vec![0b1, 0], 8);
    assert!(matches!(status, RunStatus::Running));
}

#[test]
fn a_rank_in_fault_lists_the_dpus_whose_fault_bits_are_set() {
    let status = fetch_rank_status(3, &vec![0b1, 0, 0b11], &vec![0b1010, 0b1, 0b1_0000_0001], 8);
    assert_eq!(
        faults(&status),
        vec![DpuId::new(3, 0, 1), DpuId::new(3, 0, 3), DpuId::new(3, 2, 0)]
    );
}

#[test]
fn the_number_of_dpus_is_the_product_of_the_topology() {
    assert_eq!(nr_of_dpus(2, 3, 4), 24);
    assert_eq!(nr_of_dpus(255, 255, 255), 16_581_375);
    assert_eq!(nr_of_dpus(0, 3, 4), 0);
}
