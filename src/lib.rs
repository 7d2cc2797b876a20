//! Orchestration core of a per-core CPU stability tester: topology
//! resolution, core selection and the per-method test state machine.
pub mod config;
pub mod core_select;
pub mod cpu_info;
pub mod process;
pub mod text;
