# rusty_quantum

A small quantum computing framework: circuit construction, transpilation to
the coupling map of a backend, OpenQASM 3 generation and parsing, job
payloads and results of the IBM Quantum service, and statevector simulation.

## Layout

- `src/` is the library, verified with Verus: every function carries a
  contract over a mathematical model of its data.
  - `instruction/`: instructions and their models, angles, matrices.
  - `circuit/`: `QuantumCircuit` (gates, measurements, composition,
    remapping) and unitary gates.
  - `transpiler/`: coupling maps and their breadth-first shortest walks
    (the walk is fixed by edge order), decomposition into
    `U3 + CX`, greedy placement, SWAP routing, and the transpiler that writes
    OpenQASM 3 for the backend's native two-qubit gate.
  - `simulator/`: the OpenQASM 3 reader (with the law that reading back a
    generated program gives its instructions), and the index-only parts of a
    statevector simulation.
  - `api/`: the records of the service (devices, backends, jobs, results),
    job payload builders, job status decisions, and histograms of counts.
  - `text.rs`: text assembled from pieces, decimal and binary renderings.
  - `visualizer.rs`: the integer and text logic of the result views (states
    in text order, the dominant state, HTML escaping, the circuit submitted
    with a job).
- `app/` is ordinary Rust around the library: the command-line demo, HTTP
  calls, JSON (de)serialisation, floating-point work (angles, unitarity,
  amplitudes) and the files and terminal output of the result visualizer.
- `tests/` exercises the library.
