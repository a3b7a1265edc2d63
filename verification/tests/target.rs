use dpu_cluster_core::cluster::find_nr_of_available_dpus_for;
use dpu_cluster_core::cluster::dpus_of_ranks;
use dpu_cluster_core::cluster::Cluster;
use dpu_cluster_core::config::ClusterConfiguration;
use dpu_cluster_core::dpu::DpuId;
use dpu_cluster_core::error::ClusterError;
use dpu_cluster_core::target::decimal_text;
use dpu_cluster_core::target::wrap_cni_status;
use dpu_cluster_core::target::CniStatus;
use dpu_cluster_core::target::DpuDebugContext;
use dpu_cluster_core::target::DpuError;
use dpu_cluster_core::target::DpuTarget;
use dpu_cluster_core::target::DpuTopology;
use dpu_cluster_core::target::DpuType;

#[test]
fn a_target_without_properties_has_an_empty_profile() {
    let (dpu_type, profile) = DpuTarget::for_functional_simulator().to_cni_args();
    assert_eq!(dpu_type, DpuType::FunctionalSimulator);
    assert_eq!(profile, "");
    let (dpu_type, profile) = DpuTarget::for_hardware_implementation().to_cni_args();
    assert_eq!(dpu_type, DpuType::Hardware);
    assert_eq!(profile, "");
}

#[test]
fn the_number_of_dpus_per_control_interface_goes_into_the_profile() {
    let target = DpuTarget::for_functional_simulator().nr_of_dpus_per_control_interface(4);
    assert_eq!(target.to_cni_args().1, "nrDpusPerCI=4");
    let target = target.nr_of_dpus_per_control_interface(200);
    assert_eq!(target.to_cni_args().1, "nrDpusPerCI=200");
    assert_eq!(target.profile.properties.len(), 1);
}

#[test]
fn properties_are_joined_by_ampersands() {
    let mut target = DpuTarget::for_hardware_implementation();
    target.profile.properties.push((String::from("a"), String::from("1")));
    target.profile.properties.push((String::from("b"), String::from("")));
    let target = target.nr_of_dpus_per_control_interface(17);
    assert_eq!(target.to_cni_args().1, "a=1&b=&nrDpusPerCI=17");
}

#[test]
fn decimal_text_has_no_leading_zeros() {
    assert_eq!(decimal_text(0), "0");
    assert_eq!(decimal_text(7), "7");
    assert_eq!(decimal_text(10), "10");
    assert_eq!(decimal_text(99), "99");
    assert_eq!(decimal_text(100), "100");
    assert_eq!(decimal_text(255), "255");
    for nr in 0..=255u8 {
        assert_eq!(decimal_text(nr), nr.to_string());
    }
}

#[test]
fn the_default_target_kind_is_hardware() {
    assert_eq!(DpuType::default(), DpuType::Hardware);
    let config = ClusterConfiguration::default();
    assert_eq!(config.target.dpu_type, DpuType::Hardware);
    assert_eq!(config.nr_of_dpus_expected, None);
}

#[test]
fn configurations_name_their_target_and_size() {
    let config = ClusterConfiguration::for_functional_simulator(5);
    assert_eq!(config.target.dpu_type, DpuType::FunctionalSimulator);
    assert_eq!(config.nr_of_dpus_expected, Some(5));
    let config = ClusterConfiguration::for_hardware(64);
    assert_eq!(config.target.dpu_type, DpuType::Hardware);
    assert_eq!(config.nr_of_dpus_expected, Some(64));
}

#[test]
fn only_success_is_no_error() {
    assert_eq!(wrap_cni_status(CniStatus::Success), Ok(()));
    assert_eq!(wrap_cni_status(CniStatus::AllocationError), Err(DpuError(CniStatus::AllocationError)));
    assert_eq!(wrap_cni_status(CniStatus::InternalError), Err(DpuError(CniStatus::InternalError)));
    assert_eq!(
        ClusterError::from(DpuError(CniStatus::DriverError)),
        ClusterError::LowLevelError(DpuError(CniStatus::DriverError))
    );
}

#[test]
fn a_debug_context_starts_out_cleared() {
    let context = DpuDebugContext::new(24, 40, 256);
    assert_eq!(context.registers, vec![0u32; 960]);
    assert_eq!(context.pcs, vec![0u16; 24]);
    assert_eq!(context.atomic_register, vec![false; 256]);
    assert_eq!(context.zero_flags, vec![false; 24]);
    assert_eq!(context.carry_flags, vec![false; 24]);
    assert_eq!(context.scheduling, vec![0xffu8; 24]);
}

#[test]
fn the_functional_simulator_offers_eight_dpus() {
    assert_eq!(find_nr_of_available_dpus_for(&DpuTarget::for_functional_simulator()), Ok(8));
    assert_eq!(find_nr_of_available_dpus_for(&DpuTarget::for_hardware_implementation()), Ok(0));
}

#[test]
fn asking_for_more_dpus_than_there_are_is_an_error() {
    let config = ClusterConfiguration::for_functional_simulator(9);
    assert_eq!(
        Cluster::expected_dpus(&config, 8),
        Err(ClusterError::NotEnoughResources { expected: 9, found: 8 })
    );
    let config = ClusterConfiguration::for_functional_simulator(8);
    assert_eq!(Cluster::expected_dpus(&config, 8), Ok(8));
    let config = ClusterConfiguration::default();
    assert_eq!(Cluster::expected_dpus(&config, 8), Ok(8));
}

#[test]
fn ranks_are_allocated_until_they_hold_enough_dpus() {
    let topology = DpuTopology { nr_of_control_interfaces: 2, nr_of_dpus_per_control_interface: 4 };
    assert_eq!(Cluster::nr_of_ranks_for(0, &topology), 0);
    assert_eq!(Cluster::nr_of_ranks_for(1, &topology), 1);
    assert_eq!(Cluster::nr_of_ranks_for(8, &topology), 1);
    assert_eq!(Cluster::nr_of_ranks_for(9, &topology), 2);
    assert_eq!(Cluster::nr_of_ranks_for(16, &topology), 2);
}

#[test]
fn a_cluster_lists_its_dpus_rank_by_rank() {
    let topology = DpuTopology { nr_of_control_interfaces: 2, nr_of_dpus_per_control_interface: 2 };
    let dpus = dpus_of_ranks(2, &topology);
    assert_eq!(dpus.len(), 8);
    assert_eq!(dpus[0], DpuId::new(0, 0, 0));
    assert_eq!(dpus[1], DpuId::new(0, 0, 1));
    assert_eq!(dpus[2], DpuId::new(0, 1, 0));
    assert_eq!(dpus[5], DpuId::new(1, 0, 1));
    assert_eq!(dpus[7], DpuId::new(1, 1, 1));
    let cluster = Cluster::new(DpuTarget::for_functional_simulator(), 2, topology);
    assert_eq!(cluster.topology(), (2, 2, 2));
    assert_eq!(cluster.dpu_type(), DpuType::FunctionalSimulator);
    assert_eq!(cluster.workers.available, dpus);
    assert!(cluster.workers.reserved.is_empty());
}
