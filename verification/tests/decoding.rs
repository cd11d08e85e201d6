use ldpc_decoder::code::LDPCCode;
use ldpc_decoder::decoders::{DecodeErrors, Decoder, DecoderMinSumBP};
use ldpc_decoder::syndrome::implied_syndrome;

fn small_code() -> LDPCCode {
    let checks = vec![vec![0, 1, 2, 3], vec![2, 3, 4, 5], vec![0, 1, 4, 5]];
    match LDPCCode::new(6, 3, 2, 4, checks) {
        Ok(code) => code,
        Err(_) => panic!("the description is regular"),
    }
}

/// The channel value of an error probability, in steps of 2^-16.
fn llr_of(p: f64) -> i64 {
    (((1.0 - p) / p).log2() * 65536.0).round() as i64
}

#[test]
fn channel_value_of_one_percent() {
    assert_eq!(llr_of(0.01), 434462);
    assert_eq!(llr_of(0.5), 0);
    assert_eq!(llr_of(0.99), -434462);
}

#[test]
fn clean_word_of_the_small_code_decodes_to_no_flips() {
    let code = small_code();
    let llr = vec![llr_of(0.01); 6];
    let syndrome = vec![false; 3];
    let decoder = DecoderMinSumBP::new(10);
    assert_eq!(decoder.decode(&code, &llr, &syndrome), Ok(vec![0u8; 6]));
}

#[test]
fn clean_word_converges_in_the_first_round() {
    let code = small_code();
    let syndrome = vec![false; 3];
    let decoder = DecoderMinSumBP::new(1);
    for p in [0.49, 0.1, 0.01, 1e-6, 1e-12] {
        let llr = vec![llr_of(p); 6];
        assert_eq!(decoder.decode(&code, &llr, &syndrome), Ok(vec![0u8; 6]));
    }
    assert_eq!(decoder.decode(&code, &vec![1, 2, 3, 4, 5, i64::MAX], &syndrome), Ok(vec![0u8; 6]));
}

#[test]
fn no_round_means_no_convergence() {
    let code = small_code();
    let llr = vec![llr_of(0.01); 6];
    let decoder = DecoderMinSumBP::new(0);
    assert_eq!(
        decoder.decode(&code, &llr, &vec![false; 3]),
        Err(DecodeErrors::NonConvergence { hard_decision: vec![0; 6], iterations: 0 })
    );
    assert_eq!(
        decoder.decode(&code, &vec![-1, 0, 1, 2, -3, 4], &vec![false; 3]),
        Err(DecodeErrors::NonConvergence { hard_decision: vec![1, 1, 0, 0, 1, 0], iterations: 0 })
    );
}

#[test]
fn single_flip_is_found_in_the_second_round() {
    let code = small_code();
    let llr = vec![100, 400, 400, 400, 400, 400];
    let syndrome = vec![true, false, true];
    assert_eq!(DecoderMinSumBP::new(10).decode(&code, &llr, &syndrome), Ok(vec![1, 0, 0, 0, 0, 0]));
    assert_eq!(DecoderMinSumBP::new(2).decode(&code, &llr, &syndrome), Ok(vec![1, 0, 0, 0, 0, 0]));
    assert_eq!(
        DecoderMinSumBP::new(1).decode(&code, &llr, &syndrome),
        Err(DecodeErrors::NonConvergence { hard_decision: vec![0; 6], iterations: 1 })
    );
}

#[test]
fn returned_flips_imply_the_syndrome() {
    let code = small_code();
    let llr = vec![100, 400, 400, 400, 400, 400];
    let syndrome = vec![true, false, true];
    match DecoderMinSumBP::new(10).decode(&code, &llr, &syndrome) {
        Ok(flips) => {
            assert_eq!(flips.len(), code.n());
            assert!(flips.iter().all(|flip| *flip <= 1));
            assert_eq!(implied_syndrome(&code, &flips), syndrome);
        }
        Err(_) => panic!("the flip of bit 0 explains the syndrome"),
    }
}

#[test]
fn unreachable_syndrome_uses_up_the_budget() {
    let code = small_code();
    let llr = vec![llr_of(0.01); 6];
    let syndrome = vec![true; 3];
    for budget in [0u32, 1, 2, 7, 100] {
        match DecoderMinSumBP::new(budget).decode(&code, &llr, &syndrome) {
            Err(DecodeErrors::NonConvergence { hard_decision, iterations }) => {
                assert_eq!(iterations, budget);
                assert_eq!(hard_decision.len(), 6);
            }
            _ => panic!("no flip pattern implies a syndrome of odd weight on this code"),
        }
    }
}

#[test]
fn last_hard_decision_comes_with_non_convergence() {
    let code = small_code();
    let llr = vec![llr_of(0.01); 6];
    let syndrome = vec![true; 3];
    assert_eq!(
        DecoderMinSumBP::new(2).decode(&code, &llr, &syndrome),
        Err(DecodeErrors::NonConvergence { hard_decision: vec![1; 6], iterations: 2 })
    );
    assert_eq!(
        DecoderMinSumBP::new(7).decode(&code, &llr, &syndrome),
        Err(DecodeErrors::NonConvergence { hard_decision: vec![0; 6], iterations: 7 })
    );
}

#[test]
fn same_request_gives_same_result() {
    let code = small_code();
    let decoder = DecoderMinSumBP::new(10);
    let requests = [
        (vec![llr_of(0.01); 6], vec![false; 3]),
        (vec![100, 400, 400, 400, 400, 400], vec![true, false, true]),
        (vec![llr_of(0.01); 6], vec![true; 3]),
        (vec![1, 2, 3], vec![true; 3]),
    ];
    for (llr, syndrome) in &requests {
        let first = decoder.decode(&code, llr, syndrome);
        let second = decoder.decode(&code, llr, syndrome);
        assert_eq!(first, second);
    }
}

#[test]
fn channel_values_of_wrong_length_are_improper() {
    let code = small_code();
    let decoder = DecoderMinSumBP::new(10);
    let expected = Err(DecodeErrors::ImproperParams(
        "channel_llr length does not match code length".to_string(),
    ));
    assert_eq!(decoder.decode(&code, &vec![7; 5], &vec![false; 3]), expected);
    assert_eq!(decoder.decode(&code, &vec![7; 7], &vec![false; 3]), expected);
    assert_eq!(decoder.decode(&code, &vec![], &vec![false; 3]), expected);
    assert_eq!(decoder.decode(&code, &vec![7; 5], &vec![false; 2]), expected);
}

#[test]
fn syndrome_of_wrong_length_is_improper() {
    let code = small_code();
    let decoder = DecoderMinSumBP::new(10);
    let expected = Err(DecodeErrors::ImproperParams(
        "syndrome length does not match code length".to_string(),
    ));
    assert_eq!(decoder.decode(&code, &vec![7; 6], &vec![false; 2]), expected);
    assert_eq!(decoder.decode(&code, &vec![7; 6], &vec![false; 4]), expected);
    assert_eq!(decoder.decode(&code, &vec![7; 6], &vec![]), expected);
}

#[test]
fn shorter_by_one_is_improper_whatever_the_length() {
    let decoder = DecoderMinSumBP::new(3);
    for n in 2usize..12 {
        // one check over all n bits
        let code = match LDPCCode::new(n, 1, 1, n, vec![(0..n).collect()]) {
            Ok(code) => code,
            Err(_) => panic!("the description is regular"),
        };
        let result = decoder.decode(&code, &vec![9; n - 1], &vec![false]);
        assert!(matches!(result, Err(DecodeErrors::ImproperParams(_))));
    }
}
