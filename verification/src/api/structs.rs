//! Types shared by the service: access channels and IBM Cloud instances.

use vstd::prelude::*;

verus! {

/// The way the service is reached.
#[derive(Debug, Clone, Copy, PartialEq, Eq, Structural)]
pub enum Channel {
    /// IBM Quantum Platform, at `quantum.cloud.ibm.com`.
    IbmQuantumPlatform,
    /// IBM Cloud, through a service instance.
    IbmCloud,
    /// Local execution, without network.
    Local,
}

/// An IBM Cloud resource.
pub struct Resource {
    /// Cloud Resource Name of the IBM Quantum Runtime instance.
    pub crn: String,
}

/// The answer of the IBM Cloud Resource Controller listing the instances.
pub struct InstancesResponse {
    /// Number of instances found.
    pub rows_count: u32,
    /// The instances.
    pub resources: Vec<Resource>,
}

} // verus!
