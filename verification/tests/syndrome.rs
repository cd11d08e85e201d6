use ldpc_decoder::code::LDPCCode;
use ldpc_decoder::syndrome::{implied_syndrome, syndrome_matches};

fn small_code() -> LDPCCode {
    let checks = vec![vec![0, 1, 2, 3], vec![2, 3, 4, 5], vec![0, 1, 4, 5]];
    match LDPCCode::new(6, 3, 2, 4, checks) {
        Ok(code) => code,
        Err(_) => panic!("the description is regular"),
    }
}

#[test]
fn syndrome_is_the_parity_of_the_flips_at_each_check() {
    let code = small_code();
    assert_eq!(implied_syndrome(&code, &vec![0, 0, 0, 0, 0, 0]), vec![false, false, false]);
    assert_eq!(implied_syndrome(&code, &vec![1, 0, 0, 0, 0, 0]), vec![true, false, true]);
    assert_eq!(implied_syndrome(&code, &vec![0, 0, 1, 0, 0, 0]), vec![true, true, false]);
    assert_eq!(implied_syndrome(&code, &vec![1, 1, 0, 0, 0, 0]), vec![false, false, false]);
    assert_eq!(implied_syndrome(&code, &vec![1, 0, 1, 0, 1, 0]), vec![false, false, false]);
    assert_eq!(implied_syndrome(&code, &vec![1, 1, 1, 0, 0, 0]), vec![true, true, false]);
    assert_eq!(implied_syndrome(&code, &vec![1, 1, 1, 1, 1, 1]), vec![false, false, false]);
}

#[test]
fn flip_values_count_by_their_parity() {
    let code = small_code();
    assert_eq!(implied_syndrome(&code, &vec![2, 0, 0, 0, 0, 0]), vec![false, false, false]);
    assert_eq!(implied_syndrome(&code, &vec![3, 0, 0, 0, 0, 255]), vec![true, true, false]);
}

#[test]
fn matching_compares_every_check() {
    let code = small_code();
    let flips = vec![1, 0, 0, 0, 0, 0];
    assert!(syndrome_matches(&code, &flips, &vec![true, false, true]));
    assert!(!syndrome_matches(&code, &flips, &vec![true, false, false]));
    assert!(!syndrome_matches(&code, &flips, &vec![false, false, true]));
    assert!(!syndrome_matches(&code, &flips, &vec![true, true, true]));
    assert!(!syndrome_matches(&code, &flips, &vec![true, false]));
    assert!(!syndrome_matches(&code, &flips, &vec![true, false, true, false]));
}
