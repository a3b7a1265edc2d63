use dpu_cluster_core::dpu::DpuId;
use dpu_cluster_core::pipeline::groups::create_groups_from;
use dpu_cluster_core::pipeline::GroupPolicy;

#[test]
fn one_group_per_dpu_numbers_the_dpus_in_order() {
    let groups = create_groups_from(GroupPolicy::Dpu, 2, 2, 3);
    assert_eq!(groups.len(), 12);
    for (index, group) in groups.iter().enumerate() {
        assert_eq!(group.id as usize, index);
        assert_eq!(group.dpus.len(), 1);
    }
    assert_eq!(groups[0].dpus, vec![(DpuId::new(0, 0, 0), true)]);
    assert_eq!(groups[4].dpus, vec![(DpuId::new(0, 1, 1), true)]);
    assert_eq!(groups[7].dpus, vec![(DpuId::new(1, 0, 1), true)]);
    assert_eq!(groups[11].dpus, vec![(DpuId::new(1, 1, 2), true)]);
}

#[test]
fn one_group_per_slice_position_holds_that_member_of_every_slice() {
    let groups = create_groups_from(GroupPolicy::Slice, 2, 3, 2);
    assert_eq!(groups.len(), 4);
    assert_eq!(groups[0].id, 0);
    assert_eq!(
        groups[0].dpus,
        vec![
            (DpuId::new(0, 0, 0), true),
            (DpuId::new(0, 1, 0), true),
            (DpuId::new(0, 2, 0), true),
        ]
    );
    assert_eq!(groups[3].id, 3);
    assert_eq!(
        groups[3].dpus,
        vec![
            (DpuId::new(1, 0, 1), true),
            (DpuId::new(1, 1, 1), true),
            (DpuId::new(1, 2, 1), true),
        ]
    );
}

#[test]
fn every_dpu_is_in_exactly_one_group() {
    for policy in [GroupPolicy::Dpu, GroupPolicy::Slice] {
        let groups = create_groups_from(policy, 3, 2, 4);
        let mut seen: Vec<DpuId> = Vec::new();
        for group in &groups {
            for dpu in group.active_dpus() {
                assert!(!seen.contains(&dpu));
                seen.push(dpu);
            }
        }
        assert_eq!(seen.len(), 24);
    }
}

#[test]
fn the_default_policy_groups_by_slice_position() {
    assert_eq!(GroupPolicy::default(), GroupPolicy::Slice);
}

#[test]
fn a_cluster_without_dpus_has_no_dpu_groups() {
    assert!(create_groups_from(GroupPolicy::Dpu, 0, 4, 4).is_empty());
    assert!(create_groups_from(GroupPolicy::Dpu, 4, 0, 4).is_empty());
    assert!(create_groups_from(GroupPolicy::Slice, 4, 4, 0).is_empty());
    let hollow = create_groups_from(GroupPolicy::Slice, 1, 0, 2);
    assert_eq!(hollow.len(), 2);
    assert!(hollow[0].dpus.is_empty());
}

#[test]
fn active_dpus_are_those_whose_flag_is_set() {
    let mut groups = create_groups_from(GroupPolicy::Slice, 1, 3, 1);
    let mut group = groups.remove(0);
    group.dpus[1].1 = false;
    assert_eq!(group.active_dpus(), vec![DpuId::new(0, 0, 0), DpuId::new(0, 2, 0)]);
}
