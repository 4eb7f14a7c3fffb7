//! NUMA/PCIe topology-aware placement hints for AI/ML workloads.
//!
//! The library turns a machine's NUMA topology (nodes, their CPUs and the
//! kernel's SLIT distance table) and the accelerators found on the PCI bus
//! into placement decisions: which node each accelerator should be pinned
//! near, which CPUs that means, and a plain-English verdict.
//!
//! Reading sysfs is left to the caller; everything that interprets what was
//! read (cpulists, distance rows, PCI class codes, affinity values) lives
//! here, with its behaviour stated as contracts.
pub mod text;
pub mod topology;
pub mod advisor;
pub mod cpulist;
pub mod laws;
pub mod fixtures;

pub use advisor::Placement;
pub use topology::{AccelDevice, NumaNode, Topology};
