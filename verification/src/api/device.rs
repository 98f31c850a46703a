//! The backends of the service, real or simulated.

use vstd::prelude::*;
use crate::text::{decimal, push_decimal, push_str};

verus! {

/// A backend of the service.
pub struct Device {
    /// Name of the backend (`"ibm_fez"`).
    pub name: String,
    /// Number of qubits.
    pub qubits: u32,
    /// Number of jobs waiting in its queue.
    pub queue_length: u32,
    /// Current status.
    pub status: DeviceStatus,
    /// Processor type; none for a simulator.
    pub processor_type: Option<Processortype>,
}

/// The operational status of a backend.
pub struct DeviceStatus {
    /// Name of the status (`"online"`, `"offline"`).
    pub name: String,
    /// Why the backend is unavailable, if it is.
    pub reason: String,
}

/// The processor of a real backend.
pub struct Processortype {
    /// Processor family (`"Heron"`, `"Eagle"`).
    pub family: String,
    /// Revision (`"2"`).
    pub revision: String,
}

impl Device {
    /// The placeholder backend: named `default_backend`, without qubits,
    /// queue, status or processor.
    pub open spec fn is_placeholder(&self) -> bool {
        &&& self.name@ == "default_backend"@
        &&& self.qubits == 0
        &&& self.queue_length == 0
        &&& self.status.name@ == Seq::<char>::empty()
        &&& self.status.reason@ == Seq::<char>::empty()
        &&& self.processor_type is None
    }
}

impl Default for Device {
    /// A backend named `default_backend`, without qubits, queue, status or
    /// processor.
    fn default() -> (r: Device)
        ensures
            r.is_placeholder(),
    {
        Device {
            name: "default_backend".to_owned(),
            qubits: 0,
            queue_length: 0,
            status: DeviceStatus { name: String::new(), reason: String::new() },
            processor_type: None,
        }
    }
}

/// `true` or `false`.
pub open spec fn bool_text(b: bool) -> Seq<char> {
    if b {
        "true"@
    } else {
        "false"@
    }
}

/// The one-line description of a backend.
pub open spec fn device_text(d: Device) -> Seq<char> {
    "Backend: "@ + d.name@ + ", Qubits: "@ + decimal(d.qubits as nat) + ", Simulator: "@ + bool_text(
        d.processor_type is None,
    ) + ", Status: "@ + d.status.name@
}

impl Device {
    /// The backend on one line: `Backend: <name>, Qubits: <n>, Simulator:
    /// <bool>, Status: <status>`.
    pub fn describe(&self) -> (r: String)
        ensures
            r@ == device_text(*self),
    {
        let mut s = String::new();
        push_str(&mut s, "Backend: ");
        push_str(&mut s, self.name.as_str());
        push_str(&mut s, ", Qubits: ");
        push_decimal(&mut s, self.qubits as u64);
        push_str(&mut s, ", Simulator: ");
        if self.processor_type.is_none() {
            push_str(&mut s, "true");
        } else {
            push_str(&mut s, "false");
        }
        push_str(&mut s, ", Status: ");
        push_str(&mut s, self.status.name.as_str());
        assert(s@ =~= device_text(*self));
        s
    }
}

} // verus!
