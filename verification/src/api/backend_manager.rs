//! Listing and choosing the backends of the service.

use vstd::prelude::*;
use crate::api::device::{device_text, Device};
use crate::text::push_str;

verus! {

/// The backends available to the service.
pub struct BackendManager {
    /// All the backends.
    pub devices: Vec<Device>,
}

/// The service's answer listing its backends.
pub struct BackendsResponse {
    /// The backends.
    pub devices: Vec<Device>,
}

/// The backends of `s` that are simulators (`sim`) or real (`!sim`), in order.
pub open spec fn of_kind(s: Seq<Device>, sim: bool) -> Seq<Device>
    decreases s.len(),
{
    if s.len() == 0 {
        Seq::empty()
    } else {
        let rest = of_kind(s.drop_last(), sim);
        if (s.last().processor_type is None) == sim {
            rest.push(s.last())
        } else {
            rest
        }
    }
}

/// The simulators and the real backends partition the devices: the two
/// lists together are as long as the device list, every backend of either
/// list is one of the devices and of that list's kind, so that no backend
/// is in both, and each list keeps the devices' order (it is their filter).
pub proof fn lemma_kinds_partition(s: Seq<Device>)
    ensures
        of_kind(s, true).len() + of_kind(s, false).len() == s.len(),
        forall|sim: bool|
            #![trigger of_kind(s, sim)]
            of_kind(s, sim) == s.filter(|d: Device| (d.processor_type is None) == sim),
        forall|sim: bool, k: int|
            0 <= k < of_kind(s, sim).len() ==> s.contains(#[trigger] of_kind(s, sim)[k]) && (of_kind(
                s,
                sim,
            )[k].processor_type is None) == sim,
        forall|a: int, b: int|
            0 <= a < of_kind(s, true).len() && 0 <= b < of_kind(s, false).len() ==> #[trigger] of_kind(
                s,
                true,
            )[a] != #[trigger] of_kind(s, false)[b],
    decreases s.len(),
{
    if s.len() > 0 {
        let rest = s.drop_last();
        lemma_kinds_partition(rest);
        assert forall|sim: bool| #[trigger]
            of_kind(s, sim) == s.filter(|d: Device| (d.processor_type is None) == sim) by {
            let f = |d: Device| (d.processor_type is None) == sim;
            reveal(Seq::filter);
            assert(of_kind(rest, sim) == rest.filter(f));
            assert(s.filter(f) == if f(s.last()) {
                rest.filter(f).push(s.last())
            } else {
                rest.filter(f)
            });
        }
        assert forall|sim: bool, k: int| 0 <= k < of_kind(s, sim).len() implies s.contains(
            #[trigger] of_kind(s, sim)[k],
        ) && (of_kind(s, sim)[k].processor_type is None) == sim by {
            let o = of_kind(rest, sim);
            if k < o.len() {
                assert(of_kind(s, sim)[k] == o[k]);
                let j = choose|j: int| 0 <= j < rest.len() && rest[j] == o[k];
                assert(s[j] == rest[j]);
            } else {
                assert(of_kind(s, sim)[k] == s.last());
                assert(s[s.len() - 1] == s.last());
            }
        }
    }
}

/// The backends that the references point to.
pub open spec fn derefs(s: Seq<&Device>) -> Seq<Device> {
    s.map_values(|d: &Device| *d)
}

/// The backend is online.
pub open spec fn online(d: Device) -> bool {
    d.status.name@ == "online"@
}

/// `devs[i]` is the first online backend with the shortest queue.
pub open spec fn least_busy_at(devs: Seq<Device>, i: int) -> bool {
    &&& 0 <= i < devs.len()
    &&& online(devs[i])
    &&& forall|j: int| 0 <= j < devs.len() && online(#[trigger] devs[j]) ==> devs[i].queue_length <= devs[j].queue_length
    &&& forall|j: int| 0 <= j < i && online(#[trigger] devs[j]) ==> devs[i].queue_length < devs[j].queue_length
}

/// The backends, one line each.
pub open spec fn devices_text(ds: Seq<Device>) -> Seq<char>
    decreases ds.len(),
{
    if ds.len() == 0 {
        Seq::empty()
    } else {
        devices_text(ds.drop_last()) + device_text(ds.last()) + "\n"@
    }
}

impl BackendManager {
    /// The backends, one line each, as `Device::describe` gives them.
    pub fn describe(&self) -> (r: String)
        ensures
            r@ == devices_text(self.devices@),
    {
        let mut s = String::new();
        let mut i: usize = 0;
        while i < self.devices.len()
            invariant
                i <= self.devices@.len(),
                s@ == devices_text(self.devices@.take(i as int)),
            decreases self.devices@.len() - i,
        {
            proof {
                assert(self.devices@.take(i + 1).drop_last() =~= self.devices@.take(i as int));
                assert(self.devices@.take(i + 1).last() == self.devices@[i as int]);
            }
            let line = self.devices[i].describe();
            push_str(&mut s, line.as_str());
            push_str(&mut s, "\n");
            i += 1;
        }
        assert(self.devices@.take(i as int) =~= self.devices@);
        s
    }

    /// All the backends.
    pub fn list(&self) -> (r: &Vec<Device>)
        ensures
            r@ == self.devices@,
    {
        &self.devices
    }

    /// The simulators: the backends without a processor type.
    pub fn simulators(&self) -> (r: Vec<&Device>)
        ensures
            derefs(r@) == of_kind(self.devices@, true),
    {
        self.select(true)
    }

    /// The real backends: those with a processor type.
    pub fn real_backends(&self) -> (r: Vec<&Device>)
        ensures
            derefs(r@) == of_kind(self.devices@, false),
    {
        self.select(false)
    }

    fn select(&self, sim: bool) -> (r: Vec<&Device>)
        ensures
            derefs(r@) == of_kind(self.devices@, sim),
    {
        let mut out: Vec<&Device> = Vec::new();
        let mut i: usize = 0;
        while i < self.devices.len()
            invariant
                i <= self.devices@.len(),
                derefs(out@) == of_kind(self.devices@.take(i as int), sim),
            decreases self.devices@.len() - i,
        {
            assert(self.devices@.take(i + 1).drop_last() =~= self.devices@.take(i as int));
            assert(self.devices@.take(i + 1).last() == self.devices@[i as int]);
            let d = &self.devices[i];
            let ghost before = out@;
            if d.processor_type.is_none() == sim {
                out.push(d);
                assert(derefs(out@) =~= derefs(before).push(*d));
            }
            i += 1;
        }
        assert(self.devices@.take(i as int) =~= self.devices@);
        out
    }

    /// The online backend with the shortest queue (the first such one), if
    /// any backend is online.
    pub fn least_busy(&self) -> (r: Option<&Device>)
        ensures
            r matches Some(d) ==> exists|i: int| least_busy_at(self.devices@, i) && *d == self.devices@[i],
            r is None ==> forall|j: int| 0 <= j < self.devices@.len() ==> !online(#[trigger] self.devices@[j]),
    {
        let online_name = "online".to_owned();
        let mut best: Option<usize> = None;
        let mut i: usize = 0;
        while i < self.devices.len()
            invariant
                i <= self.devices@.len(),
                online_name@ == "online"@,
                best matches Some(b) ==> b < i && online(self.devices@[b as int]) && (forall|j: int|
                    0 <= j < i && online(#[trigger] self.devices@[j]) ==> self.devices@[b as int].queue_length
                        <= self.devices@[j].queue_length) && (forall|j: int|
                    0 <= j < b && online(#[trigger] self.devices@[j]) ==> self.devices@[b as int].queue_length
                        < self.devices@[j].queue_length),
                best is None ==> forall|j: int| 0 <= j < i ==> !online(#[trigger] self.devices@[j]),
            decreases self.devices@.len() - i,
        {
            let d = &self.devices[i];
            if d.status.name == online_name {
                match best {
                    None => {
                        best = Some(i);
                    },
                    Some(b) => {
                        if d.queue_length < self.devices[b].queue_length {
                            best = Some(i);
                        }
                    },
                }
            }
            i += 1;
        }
        match best {
            Some(b) => {
                assert(least_busy_at(self.devices@, b as int));
                Some(&self.devices[b])
            },
            None => None,
        }
    }
}

} // verus!
