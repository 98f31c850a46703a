//! An earlier, unauthenticated form of the client: backends as the
//! `/backends` endpoint describes them, and their selection.

use vstd::prelude::*;

verus! {

/// The way the service is reached.
#[derive(Debug, Clone, Copy, PartialEq, Eq, Structural)]
pub enum Channel {
    IbmQuantumPlatform,
    IbmCloud,
    Local,
}

/// A backend as the `/backends` endpoint describes it.
pub struct Backend {
    pub name: String,
    pub num_qubits: u32,
    pub simulator: bool,
    pub basis_gates: Vec<String>,
    pub coupling_map: Vec<(u32, u32)>,
    pub max_shots: u32,
    pub pending_jobs: Option<u32>,
    pub status: String,
}

/// The settings of the client.
pub struct Service {
    pub channel: Channel,
    pub token: String,
    pub backends: Backend,
    pub url: String,
    pub instance: String,
    pub region: String,
}

/// The settings of a client to build.
pub struct ServiceBuilder {
    pub token: Option<String>,
    pub channel: Option<Channel>,
    pub url: Option<String>,
    pub instance: Option<String>,
    pub region: Option<String>,
}

/// The backends offered.
pub struct BackendManager {
    pub backends: Vec<Backend>,
}

impl Backend {
    /// The placeholder backend: named `default_backend`, with nothing else set.
    pub open spec fn is_placeholder(&self) -> bool {
        &&& self.name@ == "default_backend"@
        &&& self.num_qubits == 0
        &&& !self.simulator
        &&& self.basis_gates@.len() == 0
        &&& self.coupling_map@.len() == 0
        &&& self.max_shots == 0
        &&& self.pending_jobs is None
        &&& self.status@ == Seq::<char>::empty()
    }
}

impl Default for Backend {
    /// A backend named `default_backend` with nothing else set.
    fn default() -> (r: Backend)
        ensures
            r.is_placeholder(),
    {
        Backend {
            name: "default_backend".to_owned(),
            num_qubits: 0,
            simulator: false,
            basis_gates: Vec::new(),
            coupling_map: Vec::new(),
            max_shots: 0,
            pending_jobs: None,
            status: String::new(),
        }
    }
}

/// The text of an optional setting, or the default.
pub open spec fn setting(o: Option<String>, d: Seq<char>) -> Seq<char> {
    match o {
        Some(s) => s@,
        None => d,
    }
}

fn string_or(o: Option<String>, d: &str) -> (r: String)
    ensures
        r@ == setting(o, d@),
{
    match o {
        Some(s) => s,
        None => d.to_owned(),
    }
}

impl ServiceBuilder {
    pub fn token(self, token: String) -> (r: ServiceBuilder)
        ensures
            r.token == Some(token),
            r.channel == self.channel,
            r.url == self.url,
            r.instance == self.instance,
            r.region == self.region,
    {
        ServiceBuilder { token: Some(token), ..self }
    }

    pub fn channel(self, channel: Channel) -> (r: ServiceBuilder)
        ensures
            r.token == self.token,
            r.channel == Some(channel),
            r.url == self.url,
            r.instance == self.instance,
            r.region == self.region,
    {
        ServiceBuilder { channel: Some(channel), ..self }
    }

    pub fn url(self, url: String) -> (r: ServiceBuilder)
        ensures
            r.token == self.token,
            r.channel == self.channel,
            r.url == Some(url),
            r.instance == self.instance,
            r.region == self.region,
    {
        ServiceBuilder { url: Some(url), ..self }
    }

    pub fn instance(self, instance: String) -> (r: ServiceBuilder)
        ensures
            r.token == self.token,
            r.channel == self.channel,
            r.url == self.url,
            r.instance == Some(instance),
            r.region == self.region,
    {
        ServiceBuilder { instance: Some(instance), ..self }
    }

    pub fn region(self, region: String) -> (r: ServiceBuilder)
        ensures
            r.token == self.token,
            r.channel == self.channel,
            r.url == self.url,
            r.instance == self.instance,
            r.region == Some(region),
    {
        ServiceBuilder { region: Some(region), ..self }
    }

    /// The settings, each the one given or its default.
    pub fn build(self) -> (r: Service)
        ensures
            r.token@ == setting(self.token, "no_token"@),
            r.channel == (match self.channel {
                Some(c) => c,
                None => Channel::IbmQuantumPlatform,
            }),
            r.url@ == setting(self.url, "https://quantum.cloud.ibm.com/api"@),
            r.instance@ == setting(self.instance, ""@),
            r.region@ == setting(self.region, "us-east"@),
            r.backends.is_placeholder(),
    {
        Service {
            token: string_or(self.token, "no_token"),
            channel: match self.channel {
                Some(c) => c,
                None => Channel::IbmQuantumPlatform,
            },
            url: string_or(self.url, "https://quantum.cloud.ibm.com/api"),
            instance: string_or(self.instance, ""),
            region: string_or(self.region, "us-east"),
            backends: Backend::default(),
        }
    }
}

impl Service {
    pub fn builder() -> (r: ServiceBuilder)
        ensures
            r.token is None,
            r.channel is None,
            r.url is None,
            r.instance is None,
            r.region is None,
    {
        ServiceBuilder { token: None, channel: None, url: None, instance: None, region: None }
    }

    pub fn use_backend(&mut self, backend: Backend)
        ensures
            final(self).backends == backend,
            final(self).token == old(self).token,
            final(self).channel == old(self).channel,
            final(self).url == old(self).url,
            final(self).instance == old(self).instance,
            final(self).region == old(self).region,
    {
        self.backends = backend;
    }
}

/// The backends of `s` whose simulator flag is `sim`, in order.
pub open spec fn with_flag(s: Seq<Backend>, sim: bool) -> Seq<Backend>
    decreases s.len(),
{
    if s.len() == 0 {
        Seq::empty()
    } else {
        let rest = with_flag(s.drop_last(), sim);
        if s.last().simulator == sim {
            rest.push(s.last())
        } else {
            rest
        }
    }
}

/// The backends that the references point to.
pub open spec fn backend_derefs(s: Seq<&Backend>) -> Seq<Backend> {
    s.map_values(|b: &Backend| *b)
}

/// The number of pending jobs of a backend, the largest number when unknown.
pub open spec fn pending(b: Backend) -> u32 {
    match b.pending_jobs {
        Some(n) => n,
        None => u32::MAX,
    }
}

/// `bs[i]` is the first real backend with the fewest pending jobs.
pub open spec fn least_pending_at(bs: Seq<Backend>, i: int) -> bool {
    &&& 0 <= i < bs.len()
    &&& !bs[i].simulator
    &&& forall|j: int| 0 <= j < bs.len() && !(#[trigger] bs[j]).simulator ==> pending(bs[i]) <= pending(bs[j])
    &&& forall|j: int| 0 <= j < i && !(#[trigger] bs[j]).simulator ==> pending(bs[i]) < pending(bs[j])
}

impl BackendManager {
    pub fn list(&self) -> (r: &Vec<Backend>)
        ensures
            r@ == self.backends@,
    {
        &self.backends
    }

    /// The simulators.
    pub fn simulators(&self) -> (r: Vec<&Backend>)
        ensures
            backend_derefs(r@) == with_flag(self.backends@, true),
    {
        self.select(true)
    }

    /// The real backends.
    pub fn real_backends(&self) -> (r: Vec<&Backend>)
        ensures
            backend_derefs(r@) == with_flag(self.backends@, false),
    {
        self.select(false)
    }

    fn select(&self, sim: bool) -> (r: Vec<&Backend>)
        ensures
            backend_derefs(r@) == with_flag(self.backends@, sim),
    {
        let mut out: Vec<&Backend> = Vec::new();
        let mut i: usize = 0;
        while i < self.backends.len()
            invariant
                i <= self.backends@.len(),
                backend_derefs(out@) == with_flag(self.backends@.take(i as int), sim),
            decreases self.backends@.len() - i,
        {
            assert(self.backends@.take(i + 1).drop_last() =~= self.backends@.take(i as int));
            assert(self.backends@.take(i + 1).last() == self.backends@[i as int]);
            let b = &self.backends[i];
            let ghost before = out@;
            if b.simulator == sim {
                out.push(b);
                assert(backend_derefs(out@) =~= backend_derefs(before).push(*b));
            }
            i += 1;
        }
        assert(self.backends@.take(i as int) =~= self.backends@);
        out
    }

    /// The real backend with the fewest pending jobs (the first such one),
    /// an unknown number counting as the largest; none without real backends.
    pub fn least_busy(&self) -> (r: Option<&Backend>)
        ensures
            r matches Some(b) ==> exists|i: int| least_pending_at(self.backends@, i) && *b == self.backends@[i],
            r is None ==> forall|j: int| 0 <= j < self.backends@.len() ==> (#[trigger] self.backends@[j]).simulator,
    {
        let mut best: Option<usize> = None;
        let mut i: usize = 0;
        while i < self.backends.len()
            invariant
                i <= self.backends@.len(),
                best matches Some(b) ==> b < i && !self.backends@[b as int].simulator && (forall|j: int|
                    0 <= j < i && !(#[trigger] self.backends@[j]).simulator ==> pending(self.backends@[b as int])
                        <= pending(self.backends@[j])) && (forall|j: int|
                    0 <= j < b && !(#[trigger] self.backends@[j]).simulator ==> pending(self.backends@[b as int])
                        < pending(self.backends@[j])),
                best is None ==> forall|j: int| 0 <= j < i ==> (#[trigger] self.backends@[j]).simulator,
            decreases self.backends@.len() - i,
        {
            let b = &self.backends[i];
            if !b.simulator {
                let p = match b.pending_jobs {
                    Some(n) => n,
                    None => u32::MAX,
                };
                match best {
                    None => {
                        best = Some(i);
                    },
                    Some(k) => {
                        let q = match self.backends[k].pending_jobs {
                            Some(n) => n,
                            None => u32::MAX,
                        };
                        if p < q {
                            best = Some(i);
                        }
                    },
                }
            }
            i += 1;
        }
        match best {
            Some(k) => {
                assert(least_pending_at(self.backends@, k as int));
                Some(&self.backends[k])
            },
            None => None,
        }
    }
}

} // verus!
