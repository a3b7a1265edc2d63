//! What a cluster is asked to be: the target it runs on and how many DPUs it
//! should have.

use crate::target::DpuProfile;
use crate::target::DpuTarget;
use crate::target::DpuType;
use vstd::prelude::*;

verus! {

#[derive(Clone, Debug)]
pub struct ClusterConfiguration {
    pub target: DpuTarget,
    /// The number of DPUs asked for; every available DPU where none is given.
    pub nr_of_dpus_expected: Option<u32>,
}

impl Default for ClusterConfiguration {
    fn default() -> (config: ClusterConfiguration)
        ensures
            config.target.dpu_type == DpuType::Hardware,
            config.target.profile.properties@.len() == 0,
            config.nr_of_dpus_expected is None,
    {
        ClusterConfiguration {
            target: DpuTarget {
                dpu_type: DpuType::Hardware,
                profile: DpuProfile { properties: Vec::new() },
            },
            nr_of_dpus_expected: None,
        }
    }
}

impl ClusterConfiguration {
    pub fn for_functional_simulator(nr_of_dpus: u32) -> (config: ClusterConfiguration)
        ensures
            config.target.dpu_type == DpuType::FunctionalSimulator,
            config.target.profile.properties@.len() == 0,
            config.nr_of_dpus_expected == Some(nr_of_dpus),
    {
        ClusterConfiguration {
            target: DpuTarget::for_functional_simulator(),
            nr_of_dpus_expected: Some(nr_of_dpus),
        }
    }

    pub fn for_hardware(nr_of_dpus: u32) -> (config: ClusterConfiguration)
        ensures
            config.target.dpu_type == DpuType::Hardware,
            config.target.profile.properties@.len() == 0,
            config.nr_of_dpus_expected == Some(nr_of_dpus),
    {
        ClusterConfiguration {
            target: DpuTarget::for_hardware_implementation(),
            nr_of_dpus_expected: Some(nr_of_dpus),
        }
    }
}

} // verus!
