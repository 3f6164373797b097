use quantaforge::circuit::builder::CircuitBuilder;
use quantaforge::circuit::circuit::Circuit;
use quantaforge::circuit::error::CircuitError;
use quantaforge::circuit::gate::Gate;
use quantaforge::circuit::instruction::Instruction;
use quantaforge::circuit::compose::{
    circuit_from_gate_list, circuit_from_requests, ensure_measured, GateListError, GateRequest, RequestError,
};
use quantaforge::circuit::gate_spec::{add_to_builder, build_gate, builder_add_instruction, parse_gate_str};
use quantaforge::circuit::parser::{check_lines_complete, parse_circuit, parse_circuit_checked, read_gate_words, Reading};

fn read_angle(text: &str) -> Option<u64> {
    text.parse::<f64>().ok().map(f64::to_bits)
}

fn parse(input: &str, num_qubits: usize) -> Result<Circuit, CircuitError> {
    parse_circuit_checked(input, num_qubits, read_angle)
}

fn parse_message(input: &str, num_qubits: usize) -> String {
    match parse(input, num_qubits) {
        Err(CircuitError::ParseError(msg)) => msg,
        Err(other) => panic!("expected a parse error, got {:?}", other),
        Ok(_) => panic!("expected a parse error"),
    }
}

#[test]
fn bell_state_circuit() {
    let circuit = CircuitBuilder::new(2).unwrap().h(0).unwrap().cnot(0, 1).unwrap().build();
    assert_eq!(circuit.instructions().len(), 2);
    assert_eq!(circuit.num_qubits(), 2);
}

#[test]
fn all_gate_types() {
    let circuit = CircuitBuilder::new(3)
        .unwrap()
        .h(0)
        .unwrap()
        .x(0)
        .unwrap()
        .y(0)
        .unwrap()
        .z(0)
        .unwrap()
        .s(0)
        .unwrap()
        .t(0)
        .unwrap()
        .rx(1, 1.0f64.to_bits())
        .unwrap()
        .ry(1, 2.0f64.to_bits())
        .unwrap()
        .rz(1, 3.0f64.to_bits())
        .unwrap()
        .cnot(0, 1)
        .unwrap()
        .cz(1, 2)
        .unwrap()
        .measure(0)
        .unwrap()
        .build();
    assert_eq!(circuit.gate_count(), 12);
}

#[test]
fn clifford_only_true() {
    let circuit = CircuitBuilder::new(2).unwrap().h(0).unwrap().cnot(0, 1).unwrap().build();
    assert!(circuit.is_clifford_only());
}

#[test]
fn clifford_only_false_with_t() {
    let circuit = CircuitBuilder::new(2).unwrap().h(0).unwrap().cnot(0, 1).unwrap().t(0).unwrap().build();
    assert!(!circuit.is_clifford_only());
}

#[test]
fn circuit_depth() {
    // H on q0 (depth 1), then CNOT 0,1 (depth 2 for both q0 and q1)
    let circuit = CircuitBuilder::new(2).unwrap().h(0).unwrap().cnot(0, 1).unwrap().build();
    assert_eq!(circuit.depth(), 2);
}

#[test]
fn parse_circuit_valid() {
    let input = "H 0\nCNOT 0 1";
    assert!(check_lines_complete(input));
    let circuit = parse_circuit(input, 2, read_angle).unwrap();
    assert_eq!(circuit.instructions().len(), 2);
    assert_eq!(circuit.instructions()[0].gate, Gate::H);
    assert_eq!(circuit.instructions()[1].gate, Gate::CNOT);
}

#[test]
fn qubit_out_of_range() {
    let result = CircuitBuilder::new(2).unwrap().h(5);
    match result {
        Err(CircuitError::QubitOutOfRange { index, num_qubits }) => {
            assert_eq!(index, 5);
            assert_eq!(num_qubits, 2);
        }
        Err(other) => panic!("expected QubitOutOfRange, got {:?}", other),
        Ok(_) => panic!("expected error"),
    }
}

#[test]
fn zero_qubit_circuit() {
    let result = Circuit::new(0);
    assert!(result.is_err());
    assert!(matches!(result.unwrap_err(), CircuitError::ZeroQubits));
}

// ── Further cases ─────────────────────────────────────────────────

#[test]
fn depth_of_parallel_and_serial_layers() {
    // Layer 1: H 0, H 1, H 2 in parallel; layer 2: CNOT 0 1; layer 3: CNOT 1 2; X 0 in layer 3.
    let circuit = CircuitBuilder::new(3)
        .unwrap()
        .h(0)
        .unwrap()
        .h(1)
        .unwrap()
        .h(2)
        .unwrap()
        .cnot(0, 1)
        .unwrap()
        .cnot(1, 2)
        .unwrap()
        .x(0)
        .unwrap()
        .build();
    assert_eq!(circuit.depth(), 3);
    assert!(circuit.depth() <= circuit.gate_count());
}

#[test]
fn empty_circuit_has_depth_zero() {
    let circuit = Circuit::new(4).unwrap();
    assert_eq!(circuit.depth(), 0);
    assert_eq!(circuit.gate_count(), 0);
    assert!(!circuit.has_measurements());
    assert!(circuit.is_clifford_only());
}

#[test]
fn cnot_out_of_range_reports_first_missing_qubit() {
    match CircuitBuilder::new(2).unwrap().cnot(7, 9) {
        Err(CircuitError::QubitOutOfRange { index, num_qubits }) => {
            assert_eq!(index, 7);
            assert_eq!(num_qubits, 2);
        }
        _ => panic!("expected QubitOutOfRange"),
    }
    match CircuitBuilder::new(2).unwrap().cz(1, 4) {
        Err(CircuitError::QubitOutOfRange { index, .. }) => assert_eq!(index, 4),
        _ => panic!("expected QubitOutOfRange"),
    }
}

#[test]
fn measure_all_measures_every_qubit_in_order() {
    let circuit = CircuitBuilder::new(3).unwrap().h(0).unwrap().measure_all().unwrap().build();
    assert_eq!(circuit.gate_count(), 4);
    assert!(circuit.has_measurements());
    for q in 0..3 {
        let instr = &circuit.instructions()[1 + q];
        assert_eq!(instr.gate, Gate::Measure);
        assert_eq!(instr.qubits, vec![q]);
    }
}

#[test]
fn rotation_keeps_its_angle_bits() {
    let circuit = CircuitBuilder::new(1).unwrap().rz(0, 0.25f64.to_bits()).unwrap().build();
    assert_eq!(circuit.instructions()[0].gate, Gate::Rz(0.25f64.to_bits()));
    assert!(!circuit.is_clifford_only());
}

#[test]
fn instruction_with_wrong_qubit_count() {
    match Instruction::new(Gate::CNOT, vec![0]) {
        Err(CircuitError::WrongQubitCount { expected, got }) => {
            assert_eq!(expected, 2);
            assert_eq!(got, 1);
        }
        _ => panic!("expected WrongQubitCount"),
    }
    assert!(Instruction::new(Gate::H, vec![3]).is_ok());
}

#[test]
fn gate_properties() {
    assert_eq!(Gate::CZ.num_qubits(), 2);
    assert_eq!(Gate::T.num_qubits(), 1);
    assert!(Gate::Ry(0).is_parameterized());
    assert!(!Gate::S.is_parameterized());
    assert!(Gate::Measure.is_measurement());
    assert_eq!(Gate::Rx(5).name(), "RX");
    assert_eq!(Gate::Measure.name(), "MEASURE");
}

#[test]
fn named_circuit() {
    let circuit = Circuit::with_name(2, "bell").unwrap();
    assert_eq!(circuit.num_qubits(), 2);
    assert!(Circuit::with_name(0, "none").is_err());
}

#[test]
fn parse_skips_comments_and_blank_lines_and_ignores_case() {
    let input = "# a comment\n\n  h 0  \ncx 0 1\r\nRz 1 0.5\nmeasure 1\n";
    let circuit = parse(input, 2).unwrap();
    assert_eq!(circuit.gate_count(), 4);
    assert_eq!(circuit.instructions()[0].gate, Gate::H);
    assert_eq!(circuit.instructions()[1].gate, Gate::CNOT);
    assert_eq!(circuit.instructions()[1].qubits, vec![0, 1]);
    assert_eq!(circuit.instructions()[2].gate, Gate::Rz(0.5f64.to_bits()));
    assert_eq!(circuit.instructions()[2].qubits, vec![1]);
    assert_eq!(circuit.instructions()[3].gate, Gate::Measure);
}

#[test]
fn parse_errors_name_the_line() {
    assert_eq!(parse_message("H 0\nFOO 1", 2), "line 2: unknown gate 'FOO'");
    assert_eq!(parse_message("RX 0", 1), "line 1: RX requires qubit and angle");
    assert_eq!(parse_message("\n\nRY 0 abc", 1), "line 3: invalid angle 'abc'");
    assert_eq!(parse_message("H x", 1), "line 1: invalid qubit index 'x'");
    assert_eq!(parse_message("CZ 0 -1", 2), "line 1: invalid qubit index '-1'");
}

#[test]
fn parse_out_of_range_qubit() {
    match parse("H 0\nCNOT 0 3", 2) {
        Err(CircuitError::QubitOutOfRange { index, num_qubits }) => {
            assert_eq!(index, 3);
            assert_eq!(num_qubits, 2);
        }
        _ => panic!("expected QubitOutOfRange"),
    }
    assert!(matches!(parse("H 0", 0), Err(CircuitError::ZeroQubits)));
}

#[test]
fn parse_accepts_plus_sign_and_extra_words() {
    let circuit = parse("H +1 trailing words", 2).unwrap();
    assert_eq!(circuit.instructions()[0].qubits, vec![1]);
}

#[test]
fn lines_complete_check() {
    assert!(check_lines_complete("H 0\nCNOT 0 1\n# CNOT\nRX 0"));
    assert!(!check_lines_complete("H 0\nCNOT 0"));
    assert!(!check_lines_complete("h"));
}

fn gate_str(token: &str) -> Result<(Gate, Vec<usize>), String> {
    parse_gate_str(token, &read_angle)
}

#[test]
fn gate_specifications() {
    assert_eq!(gate_str("h 2"), Ok((Gate::H, vec![2])));
    assert_eq!(gate_str("  measure 0 "), Ok((Gate::Measure, vec![0])));
    assert_eq!(gate_str("M 0"), Ok((Gate::Measure, vec![0])));
    assert_eq!(gate_str("m 2"), Ok((Gate::Measure, vec![2])));
    assert_eq!(gate_str("M"), Err("Missing qubit index".to_string()));
    assert_eq!(gate_str("RX 1 0.5"), Ok((Gate::Rx(0.5f64.to_bits()), vec![1])));
    assert_eq!(gate_str("cx 0 1"), Ok((Gate::CNOT, vec![0, 1])));
    assert_eq!(gate_str("CZ 3 4 extra"), Ok((Gate::CZ, vec![3, 4])));
}

#[test]
fn gate_specification_errors() {
    assert_eq!(gate_str("   "), Err("Empty gate specification".to_string()));
    assert_eq!(gate_str("H"), Err("Missing qubit index".to_string()));
    assert_eq!(gate_str("H q"), Err("Invalid qubit index".to_string()));
    assert_eq!(gate_str("RY 0"), Err("Missing angle parameter".to_string()));
    assert_eq!(gate_str("RY x 1.0"), Err("Invalid qubit index".to_string()));
    assert_eq!(gate_str("RZ 0 pi"), Err("Invalid angle".to_string()));
    assert_eq!(gate_str("CNOT"), Err("Missing control qubit".to_string()));
    assert_eq!(gate_str("CNOT a 1"), Err("Invalid control qubit".to_string()));
    assert_eq!(gate_str("CNOT 0"), Err("Missing target qubit".to_string()));
    assert_eq!(gate_str("CNOT 0 b"), Err("Invalid target qubit".to_string()));
    assert_eq!(gate_str("CZ"), Err("Missing first qubit".to_string()));
    assert_eq!(gate_str("CZ 0"), Err("Missing second qubit".to_string()));
    assert_eq!(gate_str("CZ 0 z"), Err("Invalid qubit".to_string()));
    assert_eq!(gate_str("swap 0 1"), Err("Unknown gate: SWAP".to_string()));
}

#[test]
fn gates_by_name() {
    assert_eq!(build_gate("h", &[0], None), Ok((Gate::H, vec![0])));
    assert_eq!(build_gate("Rz", &[1], Some(7)), Ok((Gate::Rz(7), vec![1])));
    assert_eq!(build_gate("RX", &[1], None), Err("RX requires a parameter".to_string()));
    assert_eq!(build_gate("cx", &[0, 1], None), Ok((Gate::CNOT, vec![0, 1])));
    assert_eq!(build_gate("toffoli", &[0, 1, 2], None), Err("Unknown gate: TOFFOLI".to_string()));
    // The number of qubits is not checked here.
    assert_eq!(build_gate("CZ", &[0], None), Ok((Gate::CZ, vec![0])));
}

#[test]
fn adding_to_a_builder() {
    let b = CircuitBuilder::new(2).unwrap();
    let b = add_to_builder(b, &Gate::CZ, &[1, 0, 9]).unwrap();
    let b = builder_add_instruction(b, Instruction::new(Gate::Rx(3), vec![1]).unwrap()).unwrap();
    let c = b.build();
    assert_eq!(c.gate_count(), 2);
    assert_eq!(c.instructions()[0].qubits, vec![1, 0]);
    assert!(matches!(
        add_to_builder(CircuitBuilder::new(2).unwrap(), &Gate::H, &[2]),
        Err(CircuitError::QubitOutOfRange { index: 2, num_qubits: 2 })
    ));
}

#[test]
fn gate_lists() {
    let c = circuit_from_gate_list(2, "H 0; CNOT 0 1;; rz 1 1.5 ;", read_angle).unwrap();
    assert_eq!(c.gate_count(), 3);
    assert_eq!(c.instructions()[2].gate, Gate::Rz(1.5f64.to_bits()));
    assert_eq!(c.depth(), 3);
    let ghz = circuit_from_gate_list(3, "H 0; CNOT 0 1; CNOT 1 2; M 0; M 1; M 2", read_angle).unwrap();
    assert_eq!(ghz.gate_count(), 6);
    assert_eq!(ghz.instructions()[5].gate, Gate::Measure);
    assert_eq!(ghz.instructions()[5].qubits, vec![2]);
    match circuit_from_gate_list(2, "H 0; FOO 1", read_angle) {
        Err(GateListError::Gate(m)) => assert_eq!(m, "Unknown gate: FOO"),
        _ => panic!("expected a gate error"),
    }
    assert!(matches!(
        circuit_from_gate_list(2, "H 0; X 5; H 9", read_angle),
        Err(GateListError::Circuit(CircuitError::QubitOutOfRange { index: 5, num_qubits: 2 }))
    ));
    assert!(matches!(
        circuit_from_gate_list(0, "H 0", read_angle),
        Err(GateListError::Circuit(CircuitError::ZeroQubits))
    ));
}

fn request(gate: &str, qubits: Vec<usize>, parameter: Option<u64>) -> GateRequest {
    GateRequest { gate: gate.to_string(), qubits, parameter }
}

#[test]
fn gate_requests() {
    let reqs = vec![request("h", vec![0], None), request("cnot", vec![0, 1], None), request("ry", vec![1], Some(9))];
    let c = circuit_from_requests(2, &reqs).unwrap();
    assert_eq!(c.gate_count(), 3);
    assert_eq!(c.instructions()[2].gate, Gate::Ry(9));
    match circuit_from_requests(2, &vec![request("nope", vec![0], None)]) {
        Err(RequestError::InvalidGate(m)) => assert_eq!(m, "Unknown gate: NOPE"),
        other => panic!("unexpected {:?}", other.err()),
    }
    assert!(matches!(
        circuit_from_requests(2, &vec![request("cz", vec![0], None)]),
        Err(RequestError::InvalidInstruction(CircuitError::WrongQubitCount { expected: 2, got: 1 }))
    ));
    assert!(matches!(
        circuit_from_requests(2, &vec![request("x", vec![4], None)]),
        Err(RequestError::AddFailed(CircuitError::QubitOutOfRange { index: 4, num_qubits: 2 }))
    ));
    assert!(matches!(circuit_from_requests(0, &vec![]), Err(RequestError::InvalidCircuit(CircuitError::ZeroQubits))));
}

#[test]
fn measurement_completion() {
    let c = CircuitBuilder::new(2).unwrap().h(0).unwrap().cnot(0, 1).unwrap().build();
    let m = ensure_measured(c).unwrap();
    assert_eq!(m.gate_count(), 4);
    assert!(m.has_measurements());
    assert_eq!(m.instructions()[3].qubits, vec![1]);
    let already = CircuitBuilder::new(1).unwrap().measure(0).unwrap().build();
    assert_eq!(ensure_measured(already).unwrap().gate_count(), 1);
}

#[test]
fn circuit_error_messages() {
    assert_eq!(
        CircuitError::QubitOutOfRange { index: 5, num_qubits: 2 }.message(),
        "qubit index 5 out of range for 2-qubit circuit"
    );
    assert_eq!(CircuitError::WrongQubitCount { expected: 2, got: 1 }.message(), "gate requires 2 qubits, got 1");
    assert_eq!(CircuitError::ZeroQubits.message(), "circuit must have at least 1 qubit");
    assert_eq!(CircuitError::ParseError("line 1: x".to_string()).message(), "parse error: line 1: x");
    assert_eq!(CircuitError::SerializationError("bad".to_string()).message(), "serialization error: bad");
}

#[test]
fn circuit_names() {
    assert_eq!(Circuit::with_name(1, "ghz").unwrap().name(), &Some("ghz".to_string()));
    assert_eq!(Circuit::new(1).unwrap().name(), &None);
}

#[test]
fn checked_parse_refuses_lines_without_their_qubits() {
    assert_eq!(parse_message("H 0\nCNOT 0\nX 1", 2), "line 2: CNOT requires 2 qubit(s), got 1");
    assert_eq!(parse_message("# c\n\nmeasure", 1), "line 3: MEASURE requires 1 qubit(s), got 0");
    assert_eq!(parse_message("cx 1", 2), "line 1: CNOT requires 2 qubit(s), got 1");
}

#[test]
fn checked_parse_reports_the_first_problem_it_reaches() {
    assert_eq!(parse_message("FOO 0\nH", 1), "line 1: unknown gate 'FOO'");
    assert!(matches!(
        parse("H 5\nCNOT 0", 2),
        Err(CircuitError::QubitOutOfRange { index: 5, num_qubits: 2 })
    ));
    assert!(matches!(parse("H", 0), Err(CircuitError::ZeroQubits)));
}

fn chars(s: &str) -> Vec<char> {
    s.chars().collect()
}

fn words(list: &[&str]) -> Vec<Vec<char>> {
    list.iter().map(|w| chars(w)).collect()
}

#[test]
fn gate_words_read_by_upper_cased_name() {
    match read_gate_words(&chars("CNOT"), &words(&["cx", "0", "1"]), None) {
        Reading::Read(Gate::CNOT, qs) => assert_eq!(qs, vec![0, 1]),
        other => panic!("unexpected {:?}", other),
    }
    match read_gate_words(&chars("CNOT"), &words(&["cnot", "0"]), None) {
        Reading::Malformed(m) => assert_eq!(m, chars("CNOT requires 2 qubit(s), got 1")),
        other => panic!("unexpected {:?}", other),
    }
    match read_gate_words(&chars("RY"), &words(&["ry", "2", "0.5"]), Some(7)) {
        Reading::Read(Gate::Ry(7), qs) => assert_eq!(qs, vec![2]),
        other => panic!("unexpected {:?}", other),
    }
    match read_gate_words(&chars("RX"), &words(&["rx", "0", "abc"]), None) {
        Reading::Malformed(m) => assert_eq!(m, chars("invalid angle 'abc'")),
        other => panic!("unexpected {:?}", other),
    }
    match read_gate_words(&chars("RZ"), &words(&["rz", "0"]), None) {
        Reading::Malformed(m) => assert_eq!(m, chars("RZ requires qubit and angle")),
        other => panic!("unexpected {:?}", other),
    }
    match read_gate_words(&chars("H"), &words(&["h", "q"]), None) {
        Reading::Malformed(m) => assert_eq!(m, chars("invalid qubit index 'q'")),
        other => panic!("unexpected {:?}", other),
    }
    match read_gate_words(&chars("FOO"), &words(&["foo", "0"]), None) {
        Reading::Malformed(m) => assert_eq!(m, chars("unknown gate 'FOO'")),
        other => panic!("unexpected {:?}", other),
    }
}
