use ldpc_decoder::code::{CodeError, LDPCCode};

fn small_checks() -> Vec<Vec<usize>> {
    vec![vec![0, 1, 2, 3], vec![2, 3, 4, 5], vec![0, 1, 4, 5]]
}

fn small_code() -> LDPCCode {
    match LDPCCode::new(6, 3, 2, 4, small_checks()) {
        Ok(code) => code,
        Err(_) => panic!("the description is regular"),
    }
}

fn refused(n: usize, m: usize, dv: usize, dc: usize, checks: Vec<Vec<usize>>) -> bool {
    matches!(LDPCCode::new(n, m, dv, dc, checks), Err(CodeError::MalformedCode))
}

#[test]
fn lists_are_inverted_in_the_order_of_listing() {
    let code = small_code();
    assert_eq!(code.parity_nghbs(), &small_checks());
    assert_eq!(
        code.bit_nghbs(),
        &vec![vec![0, 2], vec![0, 2], vec![0, 1], vec![0, 1], vec![1, 2], vec![1, 2]]
    );
}

#[test]
fn unsorted_lists_keep_their_order() {
    let code = match LDPCCode::new(4, 2, 1, 2, vec![vec![3, 0], vec![2, 1]]) {
        Ok(code) => code,
        Err(_) => panic!("the description is regular"),
    };
    assert_eq!(code.parity_nghbs(), &vec![vec![3, 0], vec![2, 1]]);
    assert_eq!(code.bit_nghbs(), &vec![vec![0], vec![1], vec![1], vec![0]]);
    assert_eq!(code.bit_back(), &vec![vec![1], vec![1], vec![0], vec![0]]);
    assert_eq!(code.parity_back(), &vec![vec![0, 0], vec![0, 0]]);
}

#[test]
fn two_checks_over_the_same_bits_are_two_edges_at_each_bit() {
    let code = match LDPCCode::new(2, 2, 2, 2, vec![vec![0, 1], vec![1, 0]]) {
        Ok(code) => code,
        Err(_) => panic!("the description is regular"),
    };
    assert_eq!(code.bit_nghbs(), &vec![vec![0, 1], vec![0, 1]]);
    assert_eq!(code.bit_back(), &vec![vec![0, 1], vec![1, 0]]);
    assert_eq!(code.parity_back(), &vec![vec![0, 0], vec![1, 1]]);
}

#[test]
fn a_bit_named_twice_by_a_check_is_malformed() {
    assert!(refused(2, 2, 2, 2, vec![vec![0, 0], vec![1, 1]]));
    assert!(refused(3, 2, 2, 3, vec![vec![0, 1, 0], vec![2, 1, 2]]));
    assert!(refused(6, 3, 2, 4, vec![vec![0, 1, 2, 3], vec![2, 3, 4, 4], vec![0, 1, 5, 5]]));
    assert!(refused(4, 2, 1, 2, vec![vec![0, 1], vec![2, 2]]));
}

#[test]
fn cached_positions_lead_back_along_every_edge() {
    let code = small_code();
    for b in 0..code.n() {
        for i in 0..code.dv() {
            let c = code.bit_nghbs()[b][i];
            let j = code.bit_back()[b][i];
            assert_eq!(code.parity_nghbs()[c][j], b);
            assert_eq!(code.parity_back()[c][j], i);
        }
    }
    for c in 0..code.m() {
        for j in 0..code.dc() {
            let b = code.parity_nghbs()[c][j];
            let i = code.parity_back()[c][j];
            assert_eq!(code.bit_nghbs()[b][i], c);
            assert_eq!(code.bit_back()[b][i], j);
        }
    }
}

#[test]
fn degrees_are_uniform_and_balanced() {
    let code = small_code();
    assert_eq!((code.n(), code.m(), code.dv(), code.dc()), (6, 3, 2, 4));
    assert!(code.bit_nghbs().iter().all(|checks| checks.len() == 2));
    assert!(code.parity_nghbs().iter().all(|bits| bits.len() == 4));
    assert_eq!(code.dv() * code.n(), code.dc() * code.m());
}

#[test]
fn a_copy_holds_the_same_graph() {
    let code = small_code();
    let copy = code.clone();
    assert_eq!(copy.n(), code.n());
    assert_eq!(copy.parity_nghbs(), code.parity_nghbs());
    assert_eq!(copy.bit_nghbs(), code.bit_nghbs());
    assert_eq!(copy.parity_back(), code.parity_back());
    assert_eq!(copy.bit_back(), code.bit_back());
}

#[test]
fn empty_sides_are_malformed() {
    assert!(refused(0, 3, 2, 4, small_checks()));
    assert!(refused(6, 0, 2, 4, vec![]));
    assert!(refused(0, 0, 0, 0, vec![]));
}

#[test]
fn empty_lists_are_malformed() {
    assert!(refused(6, 3, 2, 0, vec![vec![], vec![], vec![]]));
    assert!(refused(6, 3, 2, 4, vec![vec![0, 1, 2, 3], vec![], vec![0, 1, 4, 5]]));
}

#[test]
fn wrong_number_of_lists_is_malformed() {
    assert!(refused(6, 3, 2, 4, vec![vec![0, 1, 2, 3], vec![2, 3, 4, 5]]));
    assert!(refused(6, 2, 2, 4, small_checks()));
}

#[test]
fn irregular_degrees_are_malformed() {
    // check 1 has three bits
    assert!(refused(6, 3, 2, 4, vec![vec![0, 1, 2, 3], vec![2, 3, 4], vec![0, 1, 4, 5]]));
    // every check has four bits, but bit 0 is on three checks and bit 5 on one
    assert!(refused(6, 3, 2, 4, vec![vec![0, 1, 2, 3], vec![2, 3, 4, 0], vec![0, 1, 4, 5]]));
    // the claimed degrees are not those of the lists
    assert!(refused(6, 3, 3, 4, small_checks()));
    assert!(refused(6, 3, 2, 3, small_checks()));
    assert!(refused(6, 3, 0, 4, small_checks()));
}

#[test]
fn bit_out_of_range_is_malformed() {
    assert!(refused(6, 3, 2, 4, vec![vec![0, 1, 2, 3], vec![2, 3, 4, 6], vec![0, 1, 4, 5]]));
    assert!(refused(5, 3, 2, 4, small_checks()));
}

#[test]
fn more_bits_than_edges_is_malformed() {
    assert!(refused(usize::MAX, 3, 2, 4, small_checks()));
    assert!(refused(13, 3, 1, 4, small_checks()));
}
