use ldpc_decoder::code::LDPCCode;
use ldpc_decoder::decoders::{Decoder, DecoderMinSumBP};
use ldpc_decoder::relation::relation_syndrome;
use ldpc_decoder::syndrome::implied_syndrome;

fn code_of(n: usize, m: usize, dv: usize, dc: usize, checks: Vec<Vec<usize>>) -> LDPCCode {
    match LDPCCode::new(n, m, dv, dc, checks) {
        Ok(code) => code,
        Err(_) => panic!("the description is regular"),
    }
}

fn small_code() -> LDPCCode {
    code_of(6, 3, 2, 4, vec![vec![0, 1, 2, 3], vec![2, 3, 4, 5], vec![0, 1, 4, 5]])
}

#[test]
fn relation_holds_a_one_for_every_edge() {
    let relation = small_code().parity_check_matrix();
    assert_eq!(relation.nrows(), 3);
    assert_eq!(relation.ncols(), 6);
    assert_eq!(relation.nnz(), 12);
    let entries: Vec<(usize, usize, u8)> =
        relation.triplet_iter().map(|(row, col, value)| (row, col, *value)).collect();
    assert_eq!(
        entries,
        vec![
            (0, 0, 1),
            (0, 1, 1),
            (0, 2, 1),
            (0, 3, 1),
            (1, 2, 1),
            (1, 3, 1),
            (1, 4, 1),
            (1, 5, 1),
            (2, 0, 1),
            (2, 1, 1),
            (2, 4, 1),
            (2, 5, 1),
        ]
    );
}

#[test]
fn relation_of_unsorted_lists_holds_the_same_entries() {
    let code = code_of(4, 2, 1, 2, vec![vec![3, 0], vec![2, 1]]);
    let relation = code.parity_check_matrix();
    let entries: Vec<(usize, usize, u8)> =
        relation.triplet_iter().map(|(row, col, value)| (row, col, *value)).collect();
    assert_eq!(entries, vec![(0, 0, 1), (0, 3, 1), (1, 1, 1), (1, 2, 1)]);
}

#[test]
fn product_with_the_relation_is_the_implied_syndrome() {
    let code = small_code();
    let relation = code.parity_check_matrix();
    for pattern in 0u8..64 {
        let flips: Vec<u8> = (0..6).map(|b| (pattern >> b) & 1).collect();
        assert_eq!(relation_syndrome(&code, &relation, &flips), implied_syndrome(&code, &flips));
    }
    assert_eq!(relation_syndrome(&code, &relation, &vec![1, 0, 0, 0, 0, 0]), vec![true, false, true]);
    assert_eq!(relation_syndrome(&code, &relation, &vec![1, 1, 1, 0, 0, 0]), vec![true, true, false]);
}

#[test]
fn relation_confirms_what_the_decoder_returns() {
    let code = small_code();
    let syndrome = vec![true, false, true];
    let flips = match DecoderMinSumBP::new(10).decode(&code, &vec![100, 400, 400, 400, 400, 400], &syndrome) {
        Ok(flips) => flips,
        Err(_) => panic!("the flip of bit 0 explains the syndrome"),
    };
    assert_eq!(code.relation_confirms(&flips, &syndrome), Some(true));
    assert_eq!(code.relation_confirms(&flips, &vec![true, true, true]), Some(false));
    assert_eq!(code.relation_confirms(&flips, &vec![true, false]), Some(false));
    assert_eq!(code.relation_confirms(&vec![0; 6], &syndrome), Some(false));
    assert_eq!(code.relation_confirms(&vec![0; 6], &vec![false; 3]), Some(true));
}

#[test]
fn there_is_no_verdict_on_what_is_no_flip_pattern() {
    let code = small_code();
    assert_eq!(code.relation_confirms(&vec![0; 5], &vec![false; 3]), None);
    assert_eq!(code.relation_confirms(&vec![0; 7], &vec![false; 3]), None);
    assert_eq!(code.relation_confirms(&vec![0, 0, 2, 0, 0, 0], &vec![false; 3]), None);
    assert_eq!(code.relation_confirms(&vec![255; 6], &vec![false; 3]), None);
}

#[test]
fn checks_of_up_to_255_bits_have_a_verdict() {
    let code = code_of(255, 1, 1, 255, vec![(0..255).collect()]);
    assert_eq!(code.relation_confirms(&vec![1; 255], &vec![true]), Some(true));
    assert_eq!(code.relation_confirms(&vec![1; 255], &vec![false]), Some(false));
    assert_eq!(code.relation_confirms(&vec![0; 255], &vec![false]), Some(true));
    let code = code_of(256, 1, 1, 256, vec![(0..256).collect()]);
    assert_eq!(code.relation_confirms(&vec![1; 256], &vec![false]), None);
    assert_eq!(implied_syndrome(&code, &vec![1; 256]), vec![false]);
}
