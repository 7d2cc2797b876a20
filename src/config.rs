//! The settings a user keeps between sessions.
use vstd::prelude::*;
use std::collections::HashMap;
use crate::cpu_test::CpuTestMethod;

verus! {

/// Settings kept between sessions.
#[derive(Debug, Clone)]
pub struct AppConfig {
    pub test_duration_per_core: String,
    pub cores_to_test: String,
    pub active_test_methods: Vec<CpuTestMethod>,
    /// A curve offset chosen for each physical core.
    pub offset_per_core: HashMap<usize, i32>,
}

/// The settings of a first session: ten minutes per core, every core,
/// every method, no offsets.
pub fn default_config() -> (r: AppConfig)
    ensures
        r.test_duration_per_core@ == "10m"@,
        r.cores_to_test@ == ""@,
        r.active_test_methods@ == seq![CpuTestMethod::Prime95, CpuTestMethod::YCruncher],
        r.offset_per_core@ == Map::<usize, i32>::empty(),
{
    let methods = vec![CpuTestMethod::Prime95, CpuTestMethod::YCruncher];
    AppConfig {
        test_duration_per_core: String::from_str("10m"),
        cores_to_test: String::from_str(""),
        active_test_methods: methods,
        offset_per_core: HashMap::new(),
    }
}

/// Records `offset` as the offset of core `core_id`.
pub fn set_offset(config: &mut AppConfig, core_id: usize, offset: i32)
    ensures
        final(config).offset_per_core@ == old(config).offset_per_core@.insert(core_id, offset),
        final(config).test_duration_per_core == old(config).test_duration_per_core,
        final(config).cores_to_test == old(config).cores_to_test,
        final(config).active_test_methods == old(config).active_test_methods,
{
    config.offset_per_core.insert(core_id, offset);
}

} // verus!
