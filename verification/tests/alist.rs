use ldpc_decoder::alist::{parse_numbers, split_lines};
use ldpc_decoder::code::{CodeError, LDPCCode};

const SMALL: &[u8] = b"6 3\n2 4\n2 2 2 2 2 2\n4 4 4\n1 2 3 4\n3 4 5 6\n1 2 5 6\n";

#[test]
fn test_from_alist() {
    let code = match LDPCCode::from_alist(SMALL) {
        Ok(code) => code,
        Err(_) => panic!("the text describes a regular code"),
    };
    assert_eq!(code.n(), 6);
    assert_eq!(code.m(), 3);
    assert_eq!(code.dv(), 2);
    assert_eq!(code.dc(), 4);
    assert_eq!(
        code.parity_nghbs(),
        &vec![vec![0, 1, 2, 3], vec![2, 3, 4, 5], vec![0, 1, 4, 5]]
    );
    assert_eq!(
        code.bit_nghbs(),
        &vec![vec![0, 2], vec![0, 2], vec![0, 1], vec![0, 1], vec![1, 2], vec![1, 2]]
    );
    assert_eq!(
        code.bit_back(),
        &vec![vec![0, 0], vec![1, 1], vec![2, 0], vec![3, 1], vec![2, 2], vec![3, 3]]
    );
    assert_eq!(
        code.parity_back(),
        &vec![vec![0, 0, 0, 0], vec![1, 1, 0, 0], vec![1, 1, 1, 1]]
    );
}

#[test]
fn numbers_of_a_line_are_read_in_base_ten() {
    assert_eq!(parse_numbers(b"  12\t007 0 \r"), Some(vec![12, 7, 0]));
    assert_eq!(parse_numbers(b""), Some(vec![]));
    assert_eq!(parse_numbers(b"   "), Some(vec![]));
    assert_eq!(parse_numbers(b"18446744073709551615"), Some(vec![usize::MAX]));
}

#[test]
fn a_word_that_is_no_number_spoils_the_line() {
    assert_eq!(parse_numbers(b"1 2x 3"), None);
    assert_eq!(parse_numbers(b"-1"), None);
    assert_eq!(parse_numbers(b"+1"), None);
    assert_eq!(parse_numbers(b"1.5"), None);
    assert_eq!(parse_numbers(b"18446744073709551616"), None);
    assert_eq!(parse_numbers(b"99999999999999999999999"), None);
}

#[test]
fn lines_are_what_stands_between_line_ends() {
    assert_eq!(split_lines(b""), vec![Vec::<u8>::new()]);
    assert_eq!(split_lines(b"ab\n\ncd"), vec![b"ab".to_vec(), vec![], b"cd".to_vec()]);
    assert_eq!(split_lines(b"ab\n"), vec![b"ab".to_vec(), vec![]]);
}

fn refused(text: &[u8]) -> bool {
    matches!(LDPCCode::from_alist(text), Err(CodeError::MalformedCode))
}

#[test]
fn text_without_final_line_end_and_with_blank_tail_is_accepted() {
    assert!(LDPCCode::from_alist(b"6 3\n2 4\n2 2 2 2 2 2\n4 4 4\n1 2 3 4\n3 4 5 6\n1 2 5 6").is_ok());
    assert!(
        LDPCCode::from_alist(b"6 3\r\n2 4\r\n2 2 2 2 2 2\r\n4 4 4\r\n1 2 3 4\r\n3 4 5 6\r\n1 2 5 6\r\n\r\n  \n")
            .is_ok()
    );
}

#[test]
fn missing_fields_are_malformed() {
    assert!(refused(b""));
    assert!(refused(b"6 3\n"));
    assert!(refused(b"6\n2 4\n2 2 2 2 2 2\n4 4 4\n1 2 3 4\n3 4 5 6\n1 2 5 6\n"));
    assert!(refused(b"6 3\n2\n2 2 2 2 2 2\n4 4 4\n1 2 3 4\n3 4 5 6\n1 2 5 6\n"));
    assert!(refused(b"6 3\n2 4\n2 2 2 2 2 2\n4 4 4\n1 2 3 4\n3 4 5 6\n"));
    assert!(refused(b"6 3 1\n2 4\n2 2 2 2 2 2\n4 4 4\n1 2 3 4\n3 4 5 6\n1 2 5 6\n"));
}

#[test]
fn words_that_are_no_numbers_are_malformed() {
    assert!(refused(b"six 3\n2 4\n2 2 2 2 2 2\n4 4 4\n1 2 3 4\n3 4 5 6\n1 2 5 6\n"));
    assert!(refused(b"6 3\n2 4\n2 2 2 2 2 two\n4 4 4\n1 2 3 4\n3 4 5 6\n1 2 5 6\n"));
    assert!(refused(b"6 3\n2 4\n2 2 2 2 2 2\n4 4 4\n1 2 3 4\n3 4 5 6\n1 2 5 6\nend\n"));
}

#[test]
fn empty_incidence_list_is_malformed() {
    assert!(refused(b"6 3\n2 4\n2 2 2 2 2 2\n4 4 4\n1 2 3 4\n\n1 2 5 6\n"));
}

#[test]
fn bit_counted_from_zero_or_beyond_the_length_is_malformed() {
    assert!(refused(b"6 3\n2 4\n2 2 2 2 2 2\n4 4 4\n0 2 3 4\n3 4 5 6\n1 2 5 6\n"));
    assert!(refused(b"6 3\n2 4\n2 2 2 2 2 2\n4 4 4\n1 2 3 4\n3 4 5 7\n1 2 5 6\n"));
}

#[test]
fn bit_named_twice_by_a_check_is_malformed() {
    assert!(refused(b"6 3\n2 4\n2 2 2 2 2 2\n4 4 4\n1 2 3 3\n3 4 5 6\n1 2 5 6\n"));
    assert!(refused(b"6 3\n2 4\n2 2 2 2 2 2\n4 4 4\n1 2 3 4\n4 4 5 6\n1 2 5 6\n"));
}

#[test]
fn degrees_that_the_lists_do_not_have_are_malformed() {
    assert!(refused(b"6 3\n3 4\n2 2 2 2 2 2\n4 4 4\n1 2 3 4\n3 4 5 6\n1 2 5 6\n"));
    assert!(refused(b"6 3\n2 3\n2 2 2 2 2 2\n4 4 4\n1 2 3 4\n3 4 5 6\n1 2 5 6\n"));
    assert!(refused(b"6 3\n2 4\n2 2 2 2 2 2\n4 4 4\n1 2 3 4\n3 4 5 6\n1 2 3 6\n"));
    assert!(refused(b"7 3\n2 4\n2 2 2 2 2 2\n4 4 4\n1 2 3 4\n3 4 5 6\n1 2 5 6\n"));
}

#[test]
fn lines_of_degrees_are_read_and_not_used() {
    assert!(LDPCCode::from_alist(b"6 3\n2 4\n\n\n1 2 3 4\n3 4 5 6\n1 2 5 6\n").is_ok());
    assert!(LDPCCode::from_alist(b"6 3\n2 4\n9 9\n0\n1 2 3 4\n3 4 5 6\n1 2 5 6\n").is_ok());
}

#[test]
fn extra_line_of_numbers_is_malformed() {
    assert!(refused(b"6 3\n2 4\n2 2 2 2 2 2\n4 4 4\n1 2 3 4\n3 4 5 6\n1 2 5 6\n1 2 3 4\n"));
}
