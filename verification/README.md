# quantaforge

A verified core for a quantum error-correction and orchestration toolkit,
written in Verus.

`src/` is the verified library:

- `ldpc` — GF(2) parity-check matrices, repetition and Hamming codes,
  classical and CSS/quantum LDPC codes, GF(2) rank by elimination (with
  proofs that it is the largest number of independent rows and that it is
  unchanged by transposition), and the bit-flip decoder.
- `surface` — the rotated surface code (layout, stabilizer supports),
  syndrome extraction, greedy peeling decoding with its termination proof,
  the commutation of X and Z stabilizers, logical-error tracking, and the
  failure count of greedy decoding over given error patterns.
- `logical` — logical qubits on surface or CSS codes, logical gates and
  CNOT, and resource estimates.
- `agent` — the keyword workload classifier, the built-in solvers, routing
  of a domain to the first solver that handles it, the orchestration engine
  (single tasks and workflows that stop at the first failing step) and
  result aggregation.
- `circuit` — gates, instructions, circuits (depth, gate statistics), the
  builder, the line-oriented circuit text format, gate lists and gate
  requests.
- `text` — Unicode whitespace, words, lines and unsigned decimal numbers.

Rotation angles are held as the bit pattern of their binary64 value, so
that circuits carry no floating-point arithmetic; the callers that read
angles from text hand the library a reader for them.

`app/` is the ordinary Rust around it: the `qf` command line, the HTTP
service for circuits, JSON/YAML encodings, gate matrices, the complex
linear algebra and noise channels (floating point), drawing the random
errors of experiments, and a router over solvers that users register as
trait objects (it picks the solver through the library's routing).

The state-vector simulator, the scheduler, the topology crate and the
shared API types that the wider project uses are not part of this tree.
So the `sim run` and `estimate` commands and the job routes of the HTTP
service are absent. The simulation solver reports a failure for a task that
carries a valid circuit, because the resource estimate comes from the
scheduler.
