use quantaforge::surface::code::SurfaceCode;
use quantaforge::surface::decoder::{Decoder, GreedyDecoder};
use quantaforge::surface::logical::LogicalErrorTracker;
use quantaforge::surface::syndrome::extract_syndrome;

// ── Construction ──────────────────────────────────────────────────

#[test]
fn distance3_has_9_data_qubits() {
    let code = SurfaceCode::new(3).unwrap();
    assert_eq!(code.num_data_qubits(), 9);
}

#[test]
fn distance3_stabilizer_counts() {
    let code = SurfaceCode::new(3).unwrap();
    // (d²-1)/2 = 4 of each type
    assert_eq!(code.num_x_stabilizers(), 4);
    assert_eq!(code.num_z_stabilizers(), 4);
    assert_eq!(code.num_ancilla_qubits(), 8);
}

#[test]
fn distance5_has_25_data_qubits() {
    let code = SurfaceCode::new(5).unwrap();
    assert_eq!(code.num_data_qubits(), 25);
    assert_eq!(code.num_x_stabilizers(), 12);
    assert_eq!(code.num_z_stabilizers(), 12);
    assert_eq!(code.total_qubits(), 25 + 24);
}

#[test]
fn invalid_distance_too_small() {
    assert!(SurfaceCode::new(1).is_err());
    assert!(SurfaceCode::new(2).is_err());
}

#[test]
fn invalid_distance_even() {
    assert!(SurfaceCode::new(4).is_err());
    assert!(SurfaceCode::new(6).is_err());
}

// ── Stabilizer commutativity ─────────────────────────────────────

#[test]
fn stabilizers_commute_d3() {
    stabilizers_commute(3);
}

#[test]
fn stabilizers_commute_d5() {
    stabilizers_commute(5);
}

fn stabilizers_commute(d: usize) {
    let code = SurfaceCode::new(d).unwrap();
    // Every X stabilizer must overlap with every Z stabilizer
    // on an EVEN number of qubits (so they commute).
    for xi in 0..code.num_x_stabilizers() {
        let x_sup = code.x_stabilizer_qubits(xi);
        for zi in 0..code.num_z_stabilizers() {
            let z_sup = code.z_stabilizer_qubits(zi);
            let overlap = x_sup.iter().filter(|q| z_sup.contains(q)).count();
            assert!(
                overlap % 2 == 0,
                "X-stab {xi} and Z-stab {zi} overlap on {overlap} qubits (must be even)"
            );
        }
    }
}

// ── Syndrome extraction ──────────────────────────────────────────

#[test]
fn no_errors_gives_zero_syndrome() {
    let code = SurfaceCode::new(3).unwrap();
    let n = code.num_data_qubits();
    let x_err = vec![false; n];
    let z_err = vec![false; n];
    let syn = extract_syndrome(&code, &x_err, &z_err);

    assert!(syn.x_syndrome.iter().all(|&b| !b));
    assert!(syn.z_syndrome.iter().all(|&b| !b));
}

#[test]
fn single_x_error_triggers_z_syndrome() {
    let code = SurfaceCode::new(3).unwrap();
    let n = code.num_data_qubits();
    // X error on qubit 4 (centre)
    let mut x_err = vec![false; n];
    x_err[4] = true;
    let z_err = vec![false; n];

    let syn = extract_syndrome(&code, &x_err, &z_err);
    // X syndrome should be all zero (X errors don't trigger X stabilizers)
    assert!(syn.x_syndrome.iter().all(|&b| !b));
    // At least one Z stabilizer should flag
    assert!(syn.z_syndrome.iter().any(|&b| b));
}

#[test]
fn single_z_error_triggers_x_syndrome() {
    let code = SurfaceCode::new(3).unwrap();
    let n = code.num_data_qubits();
    let x_err = vec![false; n];
    let mut z_err = vec![false; n];
    z_err[4] = true;

    let syn = extract_syndrome(&code, &x_err, &z_err);
    assert!(syn.x_syndrome.iter().any(|&b| b));
    assert!(syn.z_syndrome.iter().all(|&b| !b));
}

// ── Greedy decoder ───────────────────────────────────────────────

#[test]
fn greedy_corrects_single_x_error_d3() {
    let code = SurfaceCode::new(3).unwrap();
    let decoder = GreedyDecoder;
    let n = code.num_data_qubits();

    for q in 0..n {
        let mut x_err = vec![false; n];
        x_err[q] = true;
        let z_err = vec![false; n];
        let syn = extract_syndrome(&code, &x_err, &z_err);
        let res = decoder.decode(&code, &syn).unwrap();

        // After correction the residual should not be a logical error
        let tracker = LogicalErrorTracker::new(3);
        assert!(
            !tracker.has_logical_x_error(&x_err, &res.x_correction),
            "logical X error after correcting single X on qubit {q}"
        );
    }
}

#[test]
fn greedy_corrects_single_z_error_d3() {
    let code = SurfaceCode::new(3).unwrap();
    let decoder = GreedyDecoder;
    let n = code.num_data_qubits();

    for q in 0..n {
        let x_err = vec![false; n];
        let mut z_err = vec![false; n];
        z_err[q] = true;
        let syn = extract_syndrome(&code, &x_err, &z_err);
        let res = decoder.decode(&code, &syn).unwrap();

        let tracker = LogicalErrorTracker::new(3);
        assert!(
            !tracker.has_logical_z_error(&z_err, &res.z_correction),
            "logical Z error after correcting single Z on qubit {q}"
        );
    }
}

// ── Logical error tracker ────────────────────────────────────────

#[test]
fn no_error_no_logical_error() {
    let n = 9;
    let tracker = LogicalErrorTracker::new(3);
    let zeros = vec![false; n];
    assert!(!tracker.has_logical_x_error(&zeros, &zeros));
    assert!(!tracker.has_logical_z_error(&zeros, &zeros));
}

#[test]
fn greedy_decoding_stops_on_every_distance3_syndrome() {
    let code = SurfaceCode::new(3).unwrap();
    let decoder = GreedyDecoder;
    let nx = code.num_x_stabilizers();
    let nz = code.num_z_stabilizers();
    for xbits in 0u32..(1 << nx) {
        for zbits in 0u32..(1 << nz) {
            let syndrome = quantaforge::surface::syndrome::Syndrome {
                x_syndrome: (0..nx).map(|i| xbits & (1 << i) != 0).collect(),
                z_syndrome: (0..nz).map(|i| zbits & (1 << i) != 0).collect(),
            };
            let result = decoder.decode(&code, &syndrome).unwrap();
            assert!(result.success);
            assert_eq!(result.x_correction.len(), 9);
        }
    }
}

#[test]
fn greedy_decoding_clears_syndromes_of_distance5_errors() {
    let code = SurfaceCode::new(5).unwrap();
    let decoder = GreedyDecoder;
    let mut state: u64 = 12345;
    for _ in 0..200 {
        let mut x_errors = vec![false; 25];
        let mut z_errors = vec![false; 25];
        for q in 0..25 {
            state = state.wrapping_mul(6364136223846793005).wrapping_add(1442695040888963407);
            x_errors[q] = (state >> 33) % 10 == 0;
            state = state.wrapping_mul(6364136223846793005).wrapping_add(1442695040888963407);
            z_errors[q] = (state >> 33) % 10 == 0;
        }
        let syndrome = extract_syndrome(&code, &x_errors, &z_errors);
        let result = decoder.decode(&code, &syndrome).unwrap();
        // The correction reproduces the syndrome of the errors.
        let residual = extract_syndrome(&code, &result.x_correction, &result.z_correction);
        assert_eq!(residual.x_syndrome, syndrome.x_syndrome);
        assert_eq!(residual.z_syndrome, syndrome.z_syndrome);
    }
}

#[test]
fn stabilizer_supports_overlap_evenly_at_distance7() {
    let code = SurfaceCode::new(7).unwrap();
    for i in 0..code.num_x_stabilizers() {
        for j in 0..code.num_z_stabilizers() {
            let xs = code.x_stabilizer_qubits(i);
            let zs = code.z_stabilizer_qubits(j);
            let shared = xs.iter().filter(|q| zs.contains(q)).count();
            assert_eq!(shared % 2, 0);
        }
    }
}

#[test]
fn x_stabilizers_even_on_columns_z_stabilizers_even_on_rows() {
    let d = 5;
    let code = SurfaceCode::new(d).unwrap();
    for line in 0..d {
        let column: Vec<usize> = (0..d).map(|r| r * d + line).collect();
        let row: Vec<usize> = (0..d).map(|c| line * d + c).collect();
        for i in 0..code.num_x_stabilizers() {
            let n = code.x_stabilizer_qubits(i).iter().filter(|q| column.contains(q)).count();
            assert_eq!(n % 2, 0);
        }
        for j in 0..code.num_z_stabilizers() {
            let n = code.z_stabilizer_qubits(j).iter().filter(|q| row.contains(q)).count();
            assert_eq!(n % 2, 0);
        }
    }
}

#[test]
fn greedy_decoder_name() {
    assert_eq!(GreedyDecoder.name(), "greedy");
}

#[test]
fn greedy_failures_count_logical_chains_only() {
    let code = SurfaceCode::new(3).unwrap();
    let tracker = LogicalErrorTracker::new(3);
    let none = (vec![false; 9], vec![false; 9]);
    // X on the whole of row 0 meets every Z stabilizer evenly: a logical X.
    let mut row = vec![false; 9];
    row[0] = true;
    row[1] = true;
    row[2] = true;
    let chain = (row, vec![false; 9]);
    assert_eq!(tracker.count_greedy_failures(&code, &[]), 0);
    assert_eq!(tracker.count_greedy_failures(&code, &[none.clone(), none.clone()]), 0);
    assert_eq!(tracker.count_greedy_failures(&code, &[none.clone(), chain.clone(), none]), 1);
    assert_eq!(tracker.count_greedy_failures(&code, &[chain.clone(), chain]), 2);
}

#[test]
fn generic_failure_count_agrees_with_greedy_count() {
    let code = SurfaceCode::new(3).unwrap();
    let tracker = LogicalErrorTracker::new(3);
    let none = (vec![false; 9], vec![false; 9]);
    let mut row = vec![false; 9];
    row[0] = true;
    row[1] = true;
    row[2] = true;
    let chain = (row, vec![false; 9]);
    let mut single = vec![false; 9];
    single[4] = true;
    let one = (single, vec![false; 9]);
    let trials = vec![none, chain.clone(), one, chain];
    let generic = tracker.count_failures(&code, &GreedyDecoder, &trials);
    assert_eq!(generic, tracker.count_greedy_failures(&code, &trials));
    assert!(generic >= 2 && generic <= trials.len());
}
