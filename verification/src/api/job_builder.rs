//! Builders of job requests for the Sampler and Estimator primitives, and
//! of their execution options.
//!
//! A request is built as a `JobPayload`, the structure of the JSON body that
//! the service expects; it is written in JSON where it is sent.

use vstd::prelude::*;

verus! {

/// Dynamical decoupling options.
pub struct DynamicalDecouplingOptions {
    pub enable: Option<bool>,
    pub sequence_type: Option<String>,
}

/// Zero-noise extrapolation options.
pub struct ZneOptions {
    pub extrapolator: Option<Vec<String>>,
    pub noise_factors: Option<Vec<u32>>,
}

/// Error mitigation options.
pub struct ResilienceOptions {
    pub measure_mitigation: Option<bool>,
    pub zne_mitigation: Option<bool>,
    pub zne: Option<ZneOptions>,
}

/// Transpilation options.
pub struct TranspilationOptions {
    pub optimization_level: Option<u8>,
    pub skip_transpilation: Option<bool>,
}

/// The execution options of a job.
pub struct JobOptions {
    pub dynamical_decoupling: Option<DynamicalDecouplingOptions>,
    pub resilience: Option<ResilienceOptions>,
}

impl Default for DynamicalDecouplingOptions {
    fn default() -> (r: DynamicalDecouplingOptions)
        ensures
            r.enable is None,
            r.sequence_type is None,
    {
        DynamicalDecouplingOptions { enable: None, sequence_type: None }
    }
}

impl Default for ZneOptions {
    fn default() -> (r: ZneOptions)
        ensures
            r.extrapolator is None,
            r.noise_factors is None,
    {
        ZneOptions { extrapolator: None, noise_factors: None }
    }
}

impl Default for ResilienceOptions {
    fn default() -> (r: ResilienceOptions)
        ensures
            r.measure_mitigation is None,
            r.zne_mitigation is None,
            r.zne is None,
    {
        ResilienceOptions { measure_mitigation: None, zne_mitigation: None, zne: None }
    }
}

impl Default for TranspilationOptions {
    fn default() -> (r: TranspilationOptions)
        ensures
            r.optimization_level is None,
            r.skip_transpilation is None,
    {
        TranspilationOptions { optimization_level: None, skip_transpilation: None }
    }
}

impl Default for JobOptions {
    fn default() -> (r: JobOptions)
        ensures
            r.dynamical_decoupling is None,
            r.resilience is None,
    {
        JobOptions { dynamical_decoupling: None, resilience: None }
    }
}

/// Builds `JobOptions` step by step.
pub struct JobOptionsBuilder {
    opts: JobOptions,
}

impl View for JobOptionsBuilder {
    type V = JobOptions;

    closed spec fn view(&self) -> JobOptions {
        self.opts
    }
}

/// The resilience options, with nothing set when there were none.
pub open spec fn resilience_or_default(r: Option<ResilienceOptions>) -> ResilienceOptions {
    match r {
        Some(x) => x,
        None => ResilienceOptions { measure_mitigation: None, zne_mitigation: None, zne: None },
    }
}

/// The texts of a list of strings.
pub open spec fn str_texts(v: Seq<&str>) -> Seq<Seq<char>> {
    v.map_values(|s: &str| s@)
}

impl JobOptionsBuilder {
    /// A builder with no option set.
    pub fn new() -> (r: JobOptionsBuilder)
        ensures
            r@.dynamical_decoupling is None,
            r@.resilience is None,
    {
        JobOptionsBuilder { opts: JobOptions::default() }
    }

    /// Enables or disables dynamical decoupling, dropping a sequence set before.
    pub fn dynamical_decoupling(self, enable: bool) -> (r: JobOptionsBuilder)
        ensures
            r@.dynamical_decoupling == Some(DynamicalDecouplingOptions { enable: Some(enable), sequence_type: None }),
            r@.resilience == self@.resilience,
    {
        let mut b = self;
        b.opts.dynamical_decoupling = Some(DynamicalDecouplingOptions { enable: Some(enable), sequence_type: None });
        b
    }

    /// Sets the dynamical decoupling sequence, keeping whether it is enabled.
    pub fn dynamical_decoupling_sequence(self, seq: String) -> (r: JobOptionsBuilder)
        ensures
            r@.dynamical_decoupling == Some(DynamicalDecouplingOptions {
                enable: match self@.dynamical_decoupling {
                    Some(d) => d.enable,
                    None => None,
                },
                sequence_type: Some(seq),
            }),
            r@.resilience == self@.resilience,
    {
        let mut b = self;
        let enable = match &b.opts.dynamical_decoupling {
            Some(d) => d.enable,
            None => None,
        };
        b.opts.dynamical_decoupling = Some(DynamicalDecouplingOptions { enable, sequence_type: Some(seq) });
        b
    }

    /// Enables or disables measurement error mitigation.
    pub fn measure_mitigation(self, enable: bool) -> (r: JobOptionsBuilder)
        ensures
            r@.dynamical_decoupling == self@.dynamical_decoupling,
            r@.resilience == Some(ResilienceOptions {
                measure_mitigation: Some(enable),
                ..resilience_or_default(self@.resilience)
            }),
    {
        let mut b = self;
        let r = match b.opts.resilience {
            Some(r) => r,
            None => ResilienceOptions::default(),
        };
        b.opts.resilience = Some(ResilienceOptions { measure_mitigation: Some(enable), ..r });
        b
    }

    /// Enables or disables zero-noise extrapolation.
    pub fn zne_mitigation(self, enable: bool) -> (r: JobOptionsBuilder)
        ensures
            r@.dynamical_decoupling == self@.dynamical_decoupling,
            r@.resilience == Some(ResilienceOptions {
                zne_mitigation: Some(enable),
                ..resilience_or_default(self@.resilience)
            }),
    {
        let mut b = self;
        let r = match b.opts.resilience {
            Some(r) => r,
            None => ResilienceOptions::default(),
        };
        b.opts.resilience = Some(ResilienceOptions { zne_mitigation: Some(enable), ..r });
        b
    }

    /// Sets the extrapolators and noise factors of zero-noise extrapolation.
    pub fn zne(self, extrapolators: Vec<&str>, noise_factors: Vec<u32>) -> (r: JobOptionsBuilder)
        ensures
            r@.dynamical_decoupling == self@.dynamical_decoupling,
            r@.resilience is Some,
            r@.resilience->Some_0.measure_mitigation == resilience_or_default(self@.resilience).measure_mitigation,
            r@.resilience->Some_0.zne_mitigation == resilience_or_default(self@.resilience).zne_mitigation,
            r@.resilience->Some_0.zne is Some,
            r@.resilience->Some_0.zne->Some_0.extrapolator is Some,
            texts_of(r@.resilience->Some_0.zne->Some_0.extrapolator->Some_0@) == str_texts(extrapolators@),
            r@.resilience->Some_0.zne->Some_0.noise_factors == Some(noise_factors),
    {
        let mut ex: Vec<String> = Vec::new();
        let mut i: usize = 0;
        while i < extrapolators.len()
            invariant
                i <= extrapolators@.len(),
                texts_of(ex@) == str_texts(extrapolators@.take(i as int)),
            decreases extrapolators@.len() - i,
        {
            let e: &str = extrapolators[i];
            let t: String = e.to_owned();
            assert(t@ == extrapolators@[i as int]@);
            let ghost old_ex = ex@;
            let ghost tv = t@;
            ex.push(t);
            assert(texts_of(ex@) =~= texts_of(old_ex).push(tv));
            assert(str_texts(extrapolators@.take(i + 1)) =~= str_texts(extrapolators@.take(i as int)).push(tv));
            i += 1;
        }
        assert(extrapolators@.take(i as int) =~= extrapolators@);
        let mut b = self;
        let r = match b.opts.resilience {
            Some(r) => r,
            None => ResilienceOptions::default(),
        };
        b.opts.resilience = Some(
            ResilienceOptions { zne: Some(ZneOptions { extrapolator: Some(ex), noise_factors: Some(noise_factors) }), ..r },
        );
        b
    }

    /// The options built.
    pub fn build(self) -> (r: JobOptions)
        ensures
            r == self@,
    {
        self.opts
    }
}

/// The texts of a list of strings.
pub open spec fn texts_of(v: Seq<String>) -> Seq<Seq<char>> {
    v.map_values(|s: String| s@)
}

/// A circuit to run on the Sampler: its QASM, shots and parameter values
/// (binary64 bits, one list per parameter set).
pub struct SamplerPub {
    pub circuit: String,
    pub shots: Option<u32>,
    pub parameter_values: Option<Vec<Vec<u64>>>,
}

/// A circuit to run on the Estimator: its QASM, observables and parameter
/// values.
pub struct EstimatorPub {
    pub circuit: String,
    pub observables: serde_json::Value,
    pub parameter_values: Option<Vec<Vec<u64>>>,
}

/// One PUB of a request body, as the JSON array the service reads.
pub enum PubPayload {
    /// `[circuit]`.
    Circuit(String),
    /// `[circuit, parameter_values]`.
    CircuitParams(String, Vec<Vec<u64>>),
    /// `[circuit, null, shots]`.
    CircuitShots(String, u32),
    /// `[circuit, parameter_values, shots]`.
    CircuitParamsShots(String, Vec<Vec<u64>>, u32),
    /// `[circuit, observables]`.
    Observables(String, serde_json::Value),
    /// `[circuit, observables, parameter_values]`.
    ObservablesParams(String, serde_json::Value, Vec<Vec<u64>>),
}

/// The `params` of a request body.
pub struct JobParams {
    /// Schema version, 2.
    pub version: u32,
    /// The PUBs.
    pub pubs: Vec<PubPayload>,
    /// Resilience level (Estimator).
    pub resilience_level: Option<u8>,
    /// Execution options.
    pub options: Option<JobOptions>,
}

/// The body of a job request.
pub struct JobPayload {
    /// `"sampler"` or `"estimator"`.
    pub program_id: String,
    /// Backend to run on.
    pub backend: String,
    /// Parameters.
    pub params: JobParams,
    /// Session to run in.
    pub session_id: Option<String>,
    /// Whether the job's results are private.
    pub private: Option<bool>,
}

/// The PUB of a Sampler circuit.
pub open spec fn sampler_pub_payload(p: SamplerPub) -> PubPayload {
    match (p.parameter_values, p.shots) {
        (None, None) => PubPayload::Circuit(p.circuit),
        (Some(pv), None) => PubPayload::CircuitParams(p.circuit, pv),
        (None, Some(s)) => PubPayload::CircuitShots(p.circuit, s),
        (Some(pv), Some(s)) => PubPayload::CircuitParamsShots(p.circuit, pv, s),
    }
}

/// The PUB of an Estimator circuit.
pub open spec fn estimator_pub_payload(p: EstimatorPub) -> PubPayload {
    match p.parameter_values {
        None => PubPayload::Observables(p.circuit, p.observables),
        Some(pv) => PubPayload::ObservablesParams(p.circuit, p.observables, pv),
    }
}

impl SamplerPub {
    /// A circuit given by its QASM, without shots or parameters.
    pub fn new(qasm: String) -> (r: SamplerPub)
        ensures
            r.circuit == qasm,
            r.shots is None,
            r.parameter_values is None,
    {
        SamplerPub { circuit: qasm, shots: None, parameter_values: None }
    }

    /// Sets the number of shots.
    pub fn shots(self, shots: u32) -> (r: SamplerPub)
        ensures
            r.circuit == self.circuit,
            r.shots == Some(shots),
            r.parameter_values == self.parameter_values,
    {
        SamplerPub { shots: Some(shots), ..self }
    }

    /// Sets the parameter values.
    pub fn parameter_values(self, values: Vec<Vec<u64>>) -> (r: SamplerPub)
        ensures
            r.circuit == self.circuit,
            r.shots == self.shots,
            r.parameter_values == Some(values),
    {
        SamplerPub { parameter_values: Some(values), ..self }
    }

    /// The PUB of the circuit in a request body.
    fn to_json(self) -> (r: PubPayload)
        ensures
            r == sampler_pub_payload(self),
    {
        match (self.parameter_values, self.shots) {
            (None, None) => PubPayload::Circuit(self.circuit),
            (Some(pv), None) => PubPayload::CircuitParams(self.circuit, pv),
            (None, Some(s)) => PubPayload::CircuitShots(self.circuit, s),
            (Some(pv), Some(s)) => PubPayload::CircuitParamsShots(self.circuit, pv, s),
        }
    }
}

impl EstimatorPub {
    /// A circuit given by its QASM and the observables to estimate.
    pub fn new(qasm: String, observables: serde_json::Value) -> (r: EstimatorPub)
        ensures
            r.circuit == qasm,
            r.observables == observables,
            r.parameter_values is None,
    {
        EstimatorPub { circuit: qasm, observables, parameter_values: None }
    }

    /// Sets the parameter values.
    pub fn parameter_values(self, values: Vec<Vec<u64>>) -> (r: EstimatorPub)
        ensures
            r.circuit == self.circuit,
            r.observables == self.observables,
            r.parameter_values == Some(values),
    {
        EstimatorPub { parameter_values: Some(values), ..self }
    }

    /// The PUB of the circuit in a request body.
    fn to_json(self) -> (r: PubPayload)
        ensures
            r == estimator_pub_payload(self),
    {
        match self.parameter_values {
            None => PubPayload::Observables(self.circuit, self.observables),
            Some(pv) => PubPayload::ObservablesParams(self.circuit, self.observables, pv),
        }
    }
}

/// A request for a Sampler job.
pub struct SamplerJobBuilder {
    pub backend: String,
    pub pubs: Vec<SamplerPub>,
    pub session_id: Option<String>,
    pub private: Option<bool>,
    pub options: Option<JobOptions>,
}

/// A request for an Estimator job.
pub struct EstimatorJobBuilder {
    pub backend: String,
    pub pubs: Vec<EstimatorPub>,
    pub session_id: Option<String>,
    pub private: Option<bool>,
    pub resilience_level: Option<u8>,
    pub options: Option<JobOptions>,
}

/// A job request of either primitive.
pub enum JobRequest {
    Sampler(SamplerJobBuilder),
    Estimator(EstimatorJobBuilder),
}

/// The error for a request without PUB.
pub open spec fn no_pub_text() -> Seq<char> {
    "Au moins un PUB est requis"@
}

/// `p` is the sampler job that `b` describes: its PUBs in order, its
/// options, session and privacy, and no resilience level.
pub open spec fn sampler_payload_of(b: SamplerJobBuilder, p: JobPayload) -> bool {
    &&& p.program_id@ == "sampler"@
    &&& p.backend == b.backend
    &&& p.params.version == 2
    &&& p.params.pubs@ == b.pubs@.map_values(|q: SamplerPub| sampler_pub_payload(q))
    &&& p.params.resilience_level is None
    &&& p.params.options == b.options
    &&& p.session_id == b.session_id
    &&& p.private == b.private
}

/// `p` is the estimator job that `b` describes: its PUBs in order, its
/// resilience level, options, session and privacy.
pub open spec fn estimator_payload_of(b: EstimatorJobBuilder, p: JobPayload) -> bool {
    &&& p.program_id@ == "estimator"@
    &&& p.backend == b.backend
    &&& p.params.version == 2
    &&& p.params.pubs@ == b.pubs@.map_values(|q: EstimatorPub| estimator_pub_payload(q))
    &&& p.params.resilience_level == b.resilience_level
    &&& p.params.options == b.options
    &&& p.session_id == b.session_id
    &&& p.private == b.private
}

impl SamplerJobBuilder {
    /// A request for `backend`, with no PUB and nothing else set.
    pub fn new(backend: String) -> (r: SamplerJobBuilder)
        ensures
            r.backend == backend,
            r.pubs@.len() == 0,
            r.session_id is None,
            r.private is None,
            r.options is None,
    {
        SamplerJobBuilder { backend, pubs: Vec::new(), session_id: None, private: None, options: None }
    }

    /// Adds a circuit.
    pub fn add_pub(self, pub_: SamplerPub) -> (r: SamplerJobBuilder)
        ensures
            r.pubs@ == self.pubs@.push(pub_),
            r.backend == self.backend,
            r.session_id == self.session_id,
            r.private == self.private,
            r.options == self.options,
    {
        let mut b = self;
        b.pubs.push(pub_);
        b
    }

    /// Runs the job in a session.
    pub fn session_id(self, id: String) -> (r: SamplerJobBuilder)
        ensures
            r.session_id == Some(id),
            r.backend == self.backend,
            r.pubs == self.pubs,
            r.private == self.private,
            r.options == self.options,
    {
        SamplerJobBuilder { session_id: Some(id), ..self }
    }

    /// Makes the job's results private or not.
    pub fn private(self, private: bool) -> (r: SamplerJobBuilder)
        ensures
            r.private == Some(private),
            r.backend == self.backend,
            r.pubs == self.pubs,
            r.session_id == self.session_id,
            r.options == self.options,
    {
        SamplerJobBuilder { private: Some(private), ..self }
    }

    /// Sets the execution options.
    pub fn options(self, opts: JobOptions) -> (r: SamplerJobBuilder)
        ensures
            r.options == Some(opts),
            r.backend == self.backend,
            r.pubs == self.pubs,
            r.session_id == self.session_id,
            r.private == self.private,
    {
        SamplerJobBuilder { options: Some(opts), ..self }
    }

    /// The request body: program `sampler`, the backend, version 2, the
    /// PUBs in order and the options, session and privacy set. Fails without
    /// PUB.
    pub fn build(self) -> (r: Result<JobPayload, String>)
        ensures
            self.pubs@.len() == 0 ==> r is Err && r->Err_0@ == no_pub_text(),
            self.pubs@.len() > 0 ==> (r matches Ok(p) && sampler_payload_of(self, p)),
    {
        if self.pubs.len() == 0 {
            return Err("Au moins un PUB est requis".to_owned());
        }
        let ghost old_pubs = self.pubs@;
        let mut pubs = self.pubs;
        let mut out: Vec<PubPayload> = Vec::new();
        while pubs.len() > 0
            invariant
                out@ + pubs@.map_values(|q: SamplerPub| sampler_pub_payload(q)) == old_pubs.map_values(
                    |q: SamplerPub| sampler_pub_payload(q),
                ),
            decreases pubs@.len(),
        {
            let ghost before = pubs@;
            let p = pubs.remove(0);
            assert(before.map_values(|q: SamplerPub| sampler_pub_payload(q)) =~= seq![sampler_pub_payload(p)]
                + pubs@.map_values(|q: SamplerPub| sampler_pub_payload(q)));
            out.push(p.to_json());
        }
        assert(out@ =~= old_pubs.map_values(|q: SamplerPub| sampler_pub_payload(q)));
        Ok(JobPayload {
            program_id: "sampler".to_owned(),
            backend: self.backend,
            params: JobParams { version: 2, pubs: out, resilience_level: None, options: self.options },
            session_id: self.session_id,
            private: self.private,
        })
    }
}

impl EstimatorJobBuilder {
    /// A request for `backend`, with no PUB and nothing else set.
    pub fn new(backend: String) -> (r: EstimatorJobBuilder)
        ensures
            r.backend == backend,
            r.pubs@.len() == 0,
            r.session_id is None,
            r.private is None,
            r.resilience_level is None,
            r.options is None,
    {
        EstimatorJobBuilder {
            backend,
            pubs: Vec::new(),
            session_id: None,
            private: None,
            resilience_level: None,
            options: None,
        }
    }

    /// Adds a circuit.
    pub fn add_pub(self, pub_: EstimatorPub) -> (r: EstimatorJobBuilder)
        ensures
            r.pubs@ == self.pubs@.push(pub_),
            r.backend == self.backend,
            r.session_id == self.session_id,
            r.private == self.private,
            r.resilience_level == self.resilience_level,
            r.options == self.options,
    {
        let mut b = self;
        b.pubs.push(pub_);
        b
    }

    /// Runs the job in a session.
    pub fn session_id(self, id: String) -> (r: EstimatorJobBuilder)
        ensures
            r.session_id == Some(id),
            r.backend == self.backend,
            r.pubs == self.pubs,
            r.private == self.private,
            r.resilience_level == self.resilience_level,
            r.options == self.options,
    {
        EstimatorJobBuilder { session_id: Some(id), ..self }
    }

    /// Makes the job's results private or not.
    pub fn private(self, private: bool) -> (r: EstimatorJobBuilder)
        ensures
            r.private == Some(private),
            r.backend == self.backend,
            r.pubs == self.pubs,
            r.session_id == self.session_id,
            r.resilience_level == self.resilience_level,
            r.options == self.options,
    {
        EstimatorJobBuilder { private: Some(private), ..self }
    }

    /// Sets the resilience level.
    pub fn resilience_level(self, level: u8) -> (r: EstimatorJobBuilder)
        ensures
            r.resilience_level == Some(level),
            r.backend == self.backend,
            r.pubs == self.pubs,
            r.session_id == self.session_id,
            r.private == self.private,
            r.options == self.options,
    {
        EstimatorJobBuilder { resilience_level: Some(level), ..self }
    }

    /// Sets the execution options.
    pub fn options(self, opts: JobOptions) -> (r: EstimatorJobBuilder)
        ensures
            r.options == Some(opts),
            r.backend == self.backend,
            r.pubs == self.pubs,
            r.session_id == self.session_id,
            r.private == self.private,
            r.resilience_level == self.resilience_level,
    {
        EstimatorJobBuilder { options: Some(opts), ..self }
    }

    /// The request body: program `estimator`, the backend, version 2, the
    /// PUBs in order, the resilience level and the options, session and
    /// privacy set. Fails without PUB.
    pub fn build(self) -> (r: Result<JobPayload, String>)
        ensures
            self.pubs@.len() == 0 ==> r is Err && r->Err_0@ == no_pub_text(),
            self.pubs@.len() > 0 ==> (r matches Ok(p) && estimator_payload_of(self, p)),
    {
        if self.pubs.len() == 0 {
            return Err("Au moins un PUB est requis".to_owned());
        }
        let ghost old_pubs = self.pubs@;
        let mut pubs = self.pubs;
        let mut out: Vec<PubPayload> = Vec::new();
        while pubs.len() > 0
            invariant
                out@ + pubs@.map_values(|q: EstimatorPub| estimator_pub_payload(q)) == old_pubs.map_values(
                    |q: EstimatorPub| estimator_pub_payload(q),
                ),
            decreases pubs@.len(),
        {
            let ghost before = pubs@;
            let p = pubs.remove(0);
            assert(before.map_values(|q: EstimatorPub| estimator_pub_payload(q)) =~= seq![
                estimator_pub_payload(p),
            ] + pubs@.map_values(|q: EstimatorPub| estimator_pub_payload(q)));
            out.push(p.to_json());
        }
        assert(out@ =~= old_pubs.map_values(|q: EstimatorPub| estimator_pub_payload(q)));
        Ok(JobPayload {
            program_id: "estimator".to_owned(),
            backend: self.backend,
            params: JobParams {
                version: 2,
                pubs: out,
                resilience_level: self.resilience_level,
                options: self.options,
            },
            session_id: self.session_id,
            private: self.private,
        })
    }
}

impl JobRequest {
    /// The request body of the job.
    pub fn build(self) -> (r: Result<JobPayload, String>)
        ensures
            match self {
                JobRequest::Sampler(b) => b.pubs@.len() == 0 <==> r is Err,
                JobRequest::Estimator(b) => b.pubs@.len() == 0 <==> r is Err,
            },
            r matches Err(m) ==> m@ == no_pub_text(),
            r matches Ok(p) ==> match self {
                JobRequest::Sampler(b) => sampler_payload_of(b, p),
                JobRequest::Estimator(b) => estimator_payload_of(b, p),
            },
    {
        match self {
            JobRequest::Sampler(b) => b.build(),
            JobRequest::Estimator(b) => b.build(),
        }
    }
}

} // verus!
