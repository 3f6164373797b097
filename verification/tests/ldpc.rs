use quantaforge::ldpc::code::{gf2_rank, CssCode};
use quantaforge::ldpc::decoder::{BitFlipDecoder, Decoder};
use quantaforge::ldpc::error::LdpcError;
use quantaforge::ldpc::parity_check::{hamming_code, repetition_code, ParityCheckMatrix};

#[test]
fn repetition_code_dimensions() {
    let n = 5;
    let h = repetition_code(n);
    assert_eq!(h.rows(), n - 1);
    assert_eq!(h.cols(), n);
}

#[test]
fn repetition_code_single_bit_error_nonzero_syndrome() {
    let n = 5;
    let h = repetition_code(n);
    let mut error = vec![0u8; n];
    error[2] = 1;
    let syn = h.syndrome(&error).unwrap();
    assert!(syn.iter().any(|&s| s != 0));
}

#[test]
fn repetition_code_no_error_zero_syndrome() {
    let n = 5;
    let h = repetition_code(n);
    let error = vec![0u8; n];
    let syn = h.syndrome(&error).unwrap();
    assert!(syn.iter().all(|&s| s == 0));
}

#[test]
fn hamming_code_7_4_dimensions() {
    let h = hamming_code(3);
    assert_eq!(h.rows(), 3);
    assert_eq!(h.cols(), 7);
}

#[test]
fn bit_flip_decoder_corrects_single_error_repetition() {
    let n = 7;
    let h = repetition_code(n);
    let decoder = BitFlipDecoder::new(50);

    // Single-bit error at position 3
    let mut error = vec![0u8; n];
    error[3] = 1;
    let syn = h.syndrome(&error).unwrap();

    let correction = decoder.decode(&h, &syn).unwrap();
    // After applying correction, syndrome should be zero
    let corrected_syn = h.syndrome(&correction).unwrap();
    assert_eq!(corrected_syn, syn);
}

#[test]
fn css_orthogonality_valid() {
    // Hx = [[1,1,1,1]], Hz = [[1,1,0,0],[0,0,1,1]]: Hx * Hz^T = [2, 2] mod 2 = [0, 0]
    let hx = ParityCheckMatrix::from_dense(vec![vec![1, 1, 1, 1]]).unwrap();
    let hz = ParityCheckMatrix::from_dense(vec![vec![1, 1, 0, 0], vec![0, 0, 1, 1]]).unwrap();
    let css = CssCode::new(hx, hz, "test-css");
    assert!(css.is_ok());
}

#[test]
fn css_orthogonality_violated() {
    let hx = ParityCheckMatrix::from_dense(vec![vec![1, 1, 0], vec![0, 1, 1]]).unwrap();
    let hz = ParityCheckMatrix::from_dense(vec![vec![1, 0, 1]]).unwrap();
    // Hx * Hz^T = [1, 1] mod 2 -- not zero
    let css = CssCode::new(hx, hz, "bad-css");
    assert!(matches!(css, Err(LdpcError::CssOrthogonalityViolated)));
}

#[test]
fn css_num_physical_qubits() {
    let hx = ParityCheckMatrix::from_dense(vec![vec![1, 1, 1, 1]]).unwrap();
    let hz = ParityCheckMatrix::from_dense(vec![vec![1, 1, 0, 0], vec![0, 0, 1, 1]]).unwrap();
    let css = CssCode::new(hx, hz, "test-css").unwrap();
    assert_eq!(css.num_physical_qubits(), 4);
}

#[test]
fn gf2_rank_identity() {
    let n = 4;
    let mut data = vec![vec![0u8; n]; n];
    for i in 0..n {
        data[i][i] = 1;
    }
    let m = ParityCheckMatrix::from_dense(data).unwrap();
    assert_eq!(gf2_rank(&m), n);
}

#[test]
fn parity_check_row_col_weights() {
    let h =
        ParityCheckMatrix::from_dense(vec![vec![1, 1, 0, 0], vec![0, 1, 1, 0], vec![0, 0, 1, 1]])
            .unwrap();
    assert_eq!(h.row_weight(0), 2);
    assert_eq!(h.row_weight(1), 2);
    assert_eq!(h.row_weight(2), 2);
    assert_eq!(h.col_weight(0), 1);
    assert_eq!(h.col_weight(1), 2);
    assert_eq!(h.col_weight(2), 2);
    assert_eq!(h.col_weight(3), 1);
}

#[test]
fn is_ldpc_check() {
    let h =
        ParityCheckMatrix::from_dense(vec![vec![1, 1, 0, 0], vec![0, 1, 1, 0], vec![0, 0, 1, 1]])
            .unwrap();
    assert!(h.is_ldpc(2));
    assert!(!h.is_ldpc(1));
}

#[test]
fn invalid_dimensions_zero_rows() {
    let result = ParityCheckMatrix::new(0, 5);
    assert!(matches!(
        result,
        Err(LdpcError::InvalidDimensions { rows: 0, cols: 5 })
    ));
}

#[test]
fn bit_flip_decoder_name() {
    assert_eq!(BitFlipDecoder::new(3).name(), "BitFlipDecoder");
}

#[test]
fn bit_flip_zero_syndrome_gives_zero_estimate() {
    let h = hamming_code(3);
    let decoder = BitFlipDecoder::new(5);
    let estimate = decoder.decode(&h, &[0, 0, 0]).unwrap();
    assert_eq!(estimate, vec![0; 7]);
}

#[test]
fn bit_flip_estimate_shape_and_syndrome() {
    let h = hamming_code(3);
    let decoder = BitFlipDecoder::new(10);
    for bit in 0..7 {
        let mut error = vec![0u8; 7];
        error[bit] = 1;
        let syndrome = h.syndrome(&error).unwrap();
        if let Ok(estimate) = decoder.decode(&h, &syndrome) {
            assert_eq!(estimate.len(), 7);
            assert!(estimate.iter().all(|&b| b <= 1));
            assert_eq!(h.syndrome(&estimate).unwrap(), syndrome);
        }
    }
}

#[test]
fn gf2_rank_of_dependent_rows_and_transposes() {
    let m = ParityCheckMatrix::from_dense(vec![vec![1, 1, 0], vec![0, 1, 1], vec![1, 0, 1]]).unwrap();
    assert_eq!(gf2_rank(&m), 2);
    assert_eq!(gf2_rank(&m.transpose()), 2);
    let wide = ParityCheckMatrix::from_dense(vec![vec![1, 0, 1, 1], vec![0, 1, 1, 0]]).unwrap();
    assert_eq!(gf2_rank(&wide), 2);
    assert_eq!(gf2_rank(&wide.transpose()), 2);
    let h = hamming_code(3);
    assert_eq!(gf2_rank(&h), 3);
    assert_eq!(gf2_rank(&h.transpose()), 3);
}

#[test]
fn gf2_rank_zero_exactly_for_zero_matrix() {
    let zero = ParityCheckMatrix::new(3, 5).unwrap();
    assert_eq!(gf2_rank(&zero), 0);
    let one = ParityCheckMatrix::from_dense(vec![vec![0, 0], vec![0, 1]]).unwrap();
    assert_eq!(gf2_rank(&one), 1);
}

#[test]
fn bit_flip_with_zero_row_and_unflagged_bit_reproduces_syndrome() {
    let h = ParityCheckMatrix::from_dense(vec![vec![1, 1, 0], vec![0, 0, 0], vec![0, 1, 1]]).unwrap();
    let error = vec![0u8, 1, 0];
    let syndrome = h.syndrome(&error).unwrap();
    assert_eq!(syndrome, vec![1, 0, 1]);
    let estimate = BitFlipDecoder::new(10).decode(&h, &syndrome).unwrap();
    assert_eq!(h.syndrome(&estimate).unwrap(), syndrome);
}

#[test]
fn bit_flip_with_flagged_zero_row_stops_at_current_estimate() {
    let h = ParityCheckMatrix::from_dense(vec![vec![1, 1, 0], vec![0, 0, 0]]).unwrap();
    let estimate = BitFlipDecoder::new(4).decode(&h, &[0, 1]).unwrap();
    assert_eq!(estimate, vec![0, 0, 0]);
    assert_ne!(h.syndrome(&estimate).unwrap(), vec![0, 1]);
}
