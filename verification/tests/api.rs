use rusty_quantum::api::backend_manager::BackendManager;
use rusty_quantum::api::connection;
use rusty_quantum::api::device::{Device, DeviceStatus, Processortype};
use rusty_quantum::api::iam::IAM;
use rusty_quantum::api::job::{wait_step, JobStatus, WaitStep};
use rusty_quantum::api::job_builder::{
    EstimatorJobBuilder, JobOptionsBuilder, JobRequest, PubPayload, SamplerJobBuilder, SamplerPub,
};
use rusty_quantum::api::job_struct::{read_sample, ClassicalRegister, HexError, PubData, PubResult, ResultRoot};
use rusty_quantum::api::service::Service;
use rusty_quantum::api::structs::{Channel, InstancesResponse, Resource};

fn device(name: &str, queue: u32, status: &str, real: bool) -> Device {
    Device {
        name: name.to_string(),
        qubits: 5,
        queue_length: queue,
        status: DeviceStatus { name: status.to_string(), reason: String::new() },
        processor_type: if real {
            Some(Processortype { family: "Heron".to_string(), revision: "2".to_string() })
        } else {
            None
        },
    }
}

fn results(samples: &[&str], num_bits: u32) -> ResultRoot {
    ResultRoot {
        results: vec![PubResult {
            data: PubData {
                c: ClassicalRegister { samples: samples.iter().map(|s| s.to_string()).collect(), num_bits },
            },
            metadata: serde_json::Value::Null,
        }],
        metadata: serde_json::Value::Null,
    }
}

fn count(c: &[(String, u32)], key: &str) -> u32 {
    c.iter().filter(|(k, _)| k == key).map(|(_, n)| *n).sum()
}

#[test]
fn counts_from_hex_samples() {
    let counts = results(&["0x3", "0x0", "0x3"], 2).to_counts().unwrap();
    assert_eq!(counts.len(), 2);
    assert_eq!(count(&counts, "11"), 2);
    assert_eq!(count(&counts, "00"), 1);
    assert_eq!(counts.iter().map(|(_, n)| *n).sum::<u32>(), 3);
}

#[test]
fn counts_width_from_largest_sample() {
    let counts = results(&["0x5", "0x1"], 0).to_counts().unwrap();
    assert_eq!(count(&counts, "101"), 1);
    assert_eq!(count(&counts, "001"), 1);
    let zeros = results(&["0x0", "0x0"], 0).to_counts().unwrap();
    assert_eq!(zeros, vec![("0".to_string(), 2)]);
    let wide = results(&["0x1"], 4).to_counts().unwrap();
    assert_eq!(wide, vec![("0001".to_string(), 1)]);
}

#[test]
fn counts_errors() {
    let empty = ResultRoot { results: vec![], metadata: serde_json::Value::Null };
    assert_eq!(empty.to_counts().unwrap_err(), "results est vide");
    assert_eq!(results(&[], 2).to_counts().unwrap_err(), "samples est vide — aucune mesure disponible");
    assert_eq!(
        results(&["0x1", "0xg"], 2).to_counts().unwrap_err(),
        "Sample hex invalide '0xg' : invalid digit found in string"
    );
    assert_eq!(results(&["0x"], 2).to_counts().unwrap_err(), "Sample hex invalide '0x' : cannot parse integer from empty string");
    assert_eq!(
        results(&["0x10000000000000000"], 2).to_counts().unwrap_err(),
        "Sample hex invalide '0x10000000000000000' : number too large to fit in target type"
    );
}

#[test]
fn counts_of_every_circuit() {
    let mut r = results(&["0x1"], 1);
    r.results.push(PubResult {
        data: PubData { c: ClassicalRegister { samples: vec!["0x2".to_string(), "0x2".to_string()], num_bits: 2 } },
        metadata: serde_json::Value::Null,
    });
    let all = r.to_counts_all().unwrap();
    assert_eq!(all.len(), 2);
    assert_eq!(all[0], vec![("1".to_string(), 1)]);
    assert_eq!(all[1], vec![("10".to_string(), 2)]);
    r.results.push(PubResult {
        data: PubData { c: ClassicalRegister { samples: vec![], num_bits: 2 } },
        metadata: serde_json::Value::Null,
    });
    assert_eq!(r.to_counts_all().unwrap_err(), "PUB 2 : samples vide");
    let bad = results(&["zz"], 1);
    assert_eq!(bad.to_counts_all().unwrap_err(), "PUB 0 — sample invalide 'zz' : invalid digit found in string");
}

#[test]
fn hexadecimal_samples() {
    assert_eq!(read_sample("0xff").ok(), Some(255));
    assert_eq!(read_sample("0x0xA").ok(), Some(10));
    assert_eq!(read_sample("+1f").ok(), Some(31));
    assert!(matches!(read_sample("+"), Err(HexError::InvalidDigit)));
    assert!(matches!(read_sample("-1"), Err(HexError::InvalidDigit)));
    assert!(matches!(read_sample(""), Err(HexError::Empty)));
    assert_eq!(read_sample("0xffffffffffffffff").ok(), Some(u64::MAX));
}

#[test]
fn job_status_from_text() {
    assert_eq!(JobStatus::from_str("COMPLETED"), JobStatus::Completed);
    assert_eq!(JobStatus::from_str("Queued"), JobStatus::Queued);
    assert_eq!(JobStatus::from_str("running"), JobStatus::Running);
    assert_eq!(JobStatus::from_str("Failed"), JobStatus::Failed);
    assert_eq!(JobStatus::from_str("Canceled"), JobStatus::Cancelled);
    assert_eq!(JobStatus::from_str("cancelled"), JobStatus::Cancelled);
    assert_eq!(JobStatus::from_str("Paused"), JobStatus::Unknown("Paused".to_string()));
    assert_eq!(JobStatus::from_str("Foo"), JobStatus::Unknown("Foo".to_string()));
    assert!(JobStatus::Completed.is_terminal() && JobStatus::Completed.is_success());
    assert!(JobStatus::Failed.is_terminal() && !JobStatus::Failed.is_success());
    assert!(!JobStatus::Running.is_terminal());
}

#[test]
fn job_status_from_lowercase_text() {
    assert_eq!(JobStatus::from_lowercase("completed", "COMPLETED"), JobStatus::Completed);
    assert_eq!(JobStatus::from_lowercase("canceled", "Canceled"), JobStatus::Cancelled);
    // the name is expected lowercased already; an unknown status keeps the raw text
    assert_eq!(JobStatus::from_lowercase("Completed", "Completed"), JobStatus::Unknown("Completed".to_string()));
    assert_eq!(JobStatus::from_lowercase("paused", "PAUSED"), JobStatus::Unknown("PAUSED".to_string()));
}

#[test]
fn waiting_decisions() {
    assert!(matches!(wait_step("j1", &JobStatus::Queued), WaitStep::Poll));
    assert!(matches!(wait_step("j1", &JobStatus::Unknown("x".to_string())), WaitStep::Poll));
    assert!(matches!(wait_step("j1", &JobStatus::Completed), WaitStep::Done));
    match wait_step("j1", &JobStatus::Cancelled) {
        WaitStep::Stop(m) => assert_eq!(m, "Job j1 terminé avec statut Cancelled"),
        _ => panic!("expected a stop"),
    }
}

#[test]
fn backend_selection() {
    let m = BackendManager {
        devices: vec![
            device("sim", 0, "online", false),
            device("a", 7, "online", true),
            device("b", 3, "offline", true),
            device("c", 3, "online", true),
            device("d", 3, "online", true),
        ],
    };
    assert_eq!(m.list().len(), 5);
    assert_eq!(m.simulators().len(), 1);
    assert_eq!(m.real_backends().iter().map(|d| d.name.clone()).collect::<Vec<_>>(), vec!["a", "b", "c", "d"]);
    assert_eq!(m.least_busy().unwrap().name, "sim");
    let none_online = BackendManager { devices: vec![device("b", 3, "offline", true)] };
    assert!(none_online.least_busy().is_none());
    assert_eq!(device("x", 2, "online", false).describe(), "Backend: x, Qubits: 5, Simulator: true, Status: online");
    assert_eq!(Device::default().name, "default_backend");
}

#[test]
fn least_busy_prefers_the_first_shortest_queue() {
    let m = BackendManager { devices: vec![device("a", 7, "online", true), device("c", 3, "online", true), device("d", 3, "online", true)] };
    assert_eq!(m.least_busy().unwrap().name, "c");
}

#[test]
fn connection_backends() {
    let mut real = connection::Backend::default();
    real.name = "real".to_string();
    real.pending_jobs = Some(4);
    let mut unknown = connection::Backend::default();
    unknown.name = "unknown".to_string();
    let mut sim = connection::Backend::default();
    sim.simulator = true;
    let m = connection::BackendManager { backends: vec![unknown, sim, real] };
    assert_eq!(m.simulators().len(), 1);
    assert_eq!(m.real_backends().len(), 2);
    assert_eq!(m.least_busy().unwrap().name, "real");
    let s = connection::Service::builder().token("t".to_string()).instance("i".to_string()).build();
    assert_eq!(s.token, "t");
    assert_eq!(s.instance, "i");
    assert_eq!(s.url, "https://quantum.cloud.ibm.com/api");
    assert_eq!(s.region, "us-east");
    assert_eq!(s.channel, connection::Channel::IbmQuantumPlatform);
}

#[test]
fn service_from_builder() {
    let b = Service::builder().region("eu-de".to_string());
    assert_eq!(b.api_key(), "no_token");
    let iam = IAM { access_token: "a".to_string(), refresh_token: "r".to_string(), expires_in: 3600, expiration: 10 };
    let none = InstancesResponse { rows_count: 0, resources: vec![] };
    assert_eq!(b.finish(iam, none).err().unwrap(), "No resource instance found for the provided API key.");
    let b = Service::builder().token("key".to_string()).channel(Channel::IbmCloud);
    let iam = IAM { access_token: "a".to_string(), refresh_token: "r".to_string(), expires_in: 3600, expiration: 10 };
    let some = InstancesResponse { rows_count: 1, resources: vec![Resource { crn: "crn:1".to_string() }] };
    let mut s = b.finish(iam, some).unwrap();
    assert_eq!(s.instance, "crn:1");
    assert_eq!(s._token, "key");
    assert_eq!(s._region, "us-east");
    assert_eq!(s._channel, Channel::IbmCloud);
    assert_eq!(s.backend_name(), "default_backend");
    s.use_backend(device("ibm_fez", 0, "online", true));
    assert_eq!(s.backend_name(), "ibm_fez");
    let d = Service::default();
    assert_eq!(d._url, "https://quantum.cloud.ibm.com/api/v1");
}

#[test]
fn job_options() {
    let o = JobOptionsBuilder::new()
        .dynamical_decoupling(true)
        .dynamical_decoupling_sequence("XX".to_string())
        .measure_mitigation(true)
        .zne(vec!["linear", "exponential"], vec![1, 3])
        .build();
    let dd = o.dynamical_decoupling.unwrap();
    assert_eq!(dd.enable, Some(true));
    assert_eq!(dd.sequence_type, Some("XX".to_string()));
    let r = o.resilience.unwrap();
    assert_eq!(r.measure_mitigation, Some(true));
    assert_eq!(r.zne_mitigation, None);
    let z = r.zne.unwrap();
    assert_eq!(z.extrapolator, Some(vec!["linear".to_string(), "exponential".to_string()]));
    assert_eq!(z.noise_factors, Some(vec![1, 3]));
    let o2 = JobOptionsBuilder::new().dynamical_decoupling_sequence("XY4".to_string()).dynamical_decoupling(false).zne_mitigation(true).build();
    let dd2 = o2.dynamical_decoupling.unwrap();
    assert_eq!(dd2.enable, Some(false));
    assert_eq!(dd2.sequence_type, None);
    assert_eq!(o2.resilience.unwrap().zne_mitigation, Some(true));
}

#[test]
fn sampler_request() {
    let empty = SamplerJobBuilder::new("ibm_fez".to_string()).build();
    assert_eq!(empty.err().unwrap(), "Au moins un PUB est requis");
    let job = SamplerJobBuilder::new("ibm_fez".to_string())
        .add_pub(SamplerPub::new("qasm".to_string()).shots(100))
        .add_pub(SamplerPub::new("qasm2".to_string()))
        .session_id("s".to_string())
        .private(true)
        .build()
        .unwrap();
    assert_eq!(job.program_id, "sampler");
    assert_eq!(job.backend, "ibm_fez");
    assert_eq!(job.params.version, 2);
    assert_eq!(job.params.pubs.len(), 2);
    assert!(matches!(&job.params.pubs[0], PubPayload::CircuitShots(c, 100) if c == "qasm"));
    assert!(matches!(&job.params.pubs[1], PubPayload::Circuit(c) if c == "qasm2"));
    assert_eq!(job.session_id, Some("s".to_string()));
    assert_eq!(job.private, Some(true));
}

#[test]
fn estimator_request() {
    let e = EstimatorJobBuilder::new("b".to_string()).resilience_level(1);
    assert!(JobRequest::Estimator(e).build().is_err());
    let pub_ = rusty_quantum::api::job_builder::EstimatorPub::new("q".to_string(), serde_json::Value::Null)
        .parameter_values(vec![vec![0.5f64.to_bits()]]);
    let job = JobRequest::Estimator(EstimatorJobBuilder::new("b".to_string()).add_pub(pub_).resilience_level(2)).build().unwrap();
    assert_eq!(job.program_id, "estimator");
    assert_eq!(job.params.resilience_level, Some(2));
    assert!(matches!(&job.params.pubs[0], PubPayload::ObservablesParams(c, _, pv) if c == "q" && pv[0][0] == 0.5f64.to_bits()));
}


#[test]
fn backend_list_one_line_each() {
    let m = BackendManager { devices: vec![device("ibm_a", 1, "online", true), device("sim", 0, "online", false)] };
    assert_eq!(
        m.describe(),
        "Backend: ibm_a, Qubits: 5, Simulator: false, Status: online\nBackend: sim, Qubits: 5, Simulator: true, Status: online\n"
    );
    assert_eq!(BackendManager { devices: vec![] }.describe(), "");
}

#[test]
fn counts_all_agrees_with_counts() {
    let mut r = results(&["0x3", "0x1", "0x3"], 2);
    r.results.push(PubResult {
        data: PubData { c: ClassicalRegister { samples: vec!["0x0".to_string()], num_bits: 1 } },
        metadata: serde_json::Value::Null,
    });
    let all = r.to_counts_all().unwrap();
    assert_eq!(all.len(), r.results.len());
    assert_eq!(all[0], r.to_counts().unwrap());
    let none = ResultRoot { results: vec![], metadata: serde_json::Value::Null };
    assert_eq!(none.to_counts_all().unwrap(), Vec::<Vec<(String, u32)>>::new());
    r.results.push(PubResult {
        data: PubData { c: ClassicalRegister { samples: vec!["0xq".to_string()], num_bits: 1 } },
        metadata: serde_json::Value::Null,
    });
    assert_eq!(r.to_counts_all().unwrap_err(), "PUB 2 — sample invalide '0xq' : invalid digit found in string");
}

#[test]
fn kinds_partition_the_devices() {
    let m = BackendManager {
        devices: vec![
            device("a", 1, "online", true),
            device("s1", 0, "online", false),
            device("b", 2, "online", true),
            device("s2", 0, "offline", false),
        ],
    };
    let sims: Vec<String> = m.simulators().iter().map(|d| d.name.clone()).collect();
    let reals: Vec<String> = m.real_backends().iter().map(|d| d.name.clone()).collect();
    assert_eq!(sims, vec!["s1", "s2"]);
    assert_eq!(reals, vec!["a", "b"]);
    assert_eq!(sims.len() + reals.len(), m.devices.len());
    assert!(sims.iter().all(|s| !reals.contains(s)));
}
