use ldpc_decoder::code::LDPCCode;
use ldpc_decoder::minsum::MessageStore;

fn small_code() -> LDPCCode {
    let checks = vec![vec![0, 1, 2, 3], vec![2, 3, 4, 5], vec![0, 1, 4, 5]];
    match LDPCCode::new(6, 3, 2, 4, checks) {
        Ok(code) => code,
        Err(_) => panic!("the description is regular"),
    }
}

fn uneven_llr() -> Vec<i64> {
    vec![100, 400, 400, 400, 400, 400]
}

#[test]
fn store_starts_with_priors_and_zeros() {
    let code = small_code();
    let store = MessageStore::new(&code, &vec![1, -2, 3, -4, 5, i64::MIN]);
    assert_eq!(
        store.bit_to_check,
        vec![vec![1, 1], vec![-2, -2], vec![3, 3], vec![-4, -4], vec![5, 5], vec![-i64::MAX, -i64::MAX]]
    );
    assert_eq!(store.check_to_bit, vec![vec![0; 4]; 3]);
}

#[test]
fn first_round_sends_nothing_from_the_checks() {
    let code = small_code();
    let mut store = MessageStore::new(&code, &uneven_llr());
    store.update_checks(&code, &vec![true, false, true], 0);
    assert_eq!(store.check_to_bit, vec![vec![0; 4]; 3]);
    store.update_bits(&code);
    assert_eq!(
        store.bit_to_check,
        vec![vec![100, 100], vec![400, 400], vec![400, 400], vec![400, 400], vec![400, 400], vec![400, 400]]
    );
    assert_eq!(store.hard_decision(&code, &uneven_llr()), vec![0, 0, 0, 0, 0, 0]);
}

#[test]
fn second_round_follows_the_recurrence() {
    let code = small_code();
    let llr = uneven_llr();
    let syndrome = vec![true, false, true];
    let mut store = MessageStore::new(&code, &llr);
    store.update_checks(&code, &syndrome, 0);
    store.update_bits(&code);
    store.update_checks(&code, &syndrome, 1);
    assert_eq!(
        store.check_to_bit,
        vec![vec![-200, -50, -50, -50], vec![200, 200, 200, 200], vec![-200, -50, -50, -50]]
    );
    assert_eq!(
        store.bit_to_check,
        vec![vec![100, 100], vec![400, 400], vec![400, 400], vec![400, 400], vec![400, 400], vec![400, 400]]
    );
    store.update_bits(&code);
    assert_eq!(
        store.bit_to_check,
        vec![vec![-100, -100], vec![350, 350], vec![600, 350], vec![600, 350], vec![350, 600], vec![350, 600]]
    );
    assert_eq!(store.hard_decision(&code, &llr), vec![1, 0, 0, 0, 0, 0]);
}

#[test]
fn check_message_takes_sign_from_the_other_messages_and_the_syndrome() {
    // one check over three bits, each bit on that check only
    let code = match LDPCCode::new(3, 1, 1, 3, vec![vec![0, 1, 2]]) {
        Ok(code) => code,
        Err(_) => panic!("the description is regular"),
    };
    let llr = vec![-8, 20, -12];
    let mut store = MessageStore::new(&code, &llr);
    store.update_checks(&code, &vec![false], 2);
    // others of 0: 20, -12 -> least 12, one negative; others of 1: -8, -12 -> least 8, two
    // negatives; others of 2: -8, 20 -> least 8, one negative; damping 3/4
    assert_eq!(store.check_to_bit, vec![vec![-9, 6, -6]]);
    store.update_checks(&code, &vec![true], 2);
    assert_eq!(store.check_to_bit, vec![vec![9, -6, 6]]);
}

#[test]
fn check_with_one_bit_sends_the_limit() {
    let code = match LDPCCode::new(2, 2, 1, 1, vec![vec![0], vec![1]]) {
        Ok(code) => code,
        Err(_) => panic!("the description is regular"),
    };
    let llr = vec![5, -5];
    let mut store = MessageStore::new(&code, &llr);
    store.update_checks(&code, &vec![false, true], 0);
    assert_eq!(store.check_to_bit, vec![vec![0], vec![0]]);
    store.update_checks(&code, &vec![false, true], 1);
    assert_eq!(store.check_to_bit, vec![vec![4611686018427387904], vec![-4611686018427387904]]);
    store.update_checks(&code, &vec![false, true], 64);
    assert_eq!(store.check_to_bit, vec![vec![i64::MAX], vec![-i64::MAX]]);
    assert_eq!(store.hard_decision(&code, &llr), vec![0, 1]);
}

#[test]
fn bit_messages_saturate() {
    // two checks over the same two bits
    let code = match LDPCCode::new(2, 2, 2, 2, vec![vec![0, 1], vec![0, 1]]) {
        Ok(code) => code,
        Err(_) => panic!("the description is regular"),
    };
    let llr = vec![i64::MAX, i64::MAX];
    let mut store = MessageStore::new(&code, &llr);
    store.update_checks(&code, &vec![false, false], 64);
    assert_eq!(store.check_to_bit, vec![vec![i64::MAX, i64::MAX]; 2]);
    store.update_bits(&code);
    assert_eq!(store.bit_to_check, vec![vec![i64::MAX, i64::MAX]; 2]);
    assert_eq!(store.hard_decision(&code, &llr), vec![0, 0]);
    store.update_checks(&code, &vec![true, true], 64);
    assert_eq!(store.check_to_bit, vec![vec![-i64::MAX, -i64::MAX]; 2]);
    store.update_bits(&code);
    assert_eq!(store.bit_to_check, vec![vec![0, 0]; 2]);
    store.update_bits(&code);
    assert_eq!(store.bit_to_check, vec![vec![-i64::MAX, -i64::MAX]; 2]);
    // prior and two arriving messages: MAX - MAX - MAX
    assert_eq!(store.hard_decision(&code, &llr), vec![1, 1]);
}

#[test]
fn evidence_of_zero_decides_for_a_flip() {
    let code = match LDPCCode::new(2, 1, 1, 2, vec![vec![0, 1]]) {
        Ok(code) => code,
        Err(_) => panic!("the description is regular"),
    };
    let store = MessageStore::new(&code, &vec![0, 1]);
    assert_eq!(store.hard_decision(&code, &vec![0, 1]), vec![1, 0]);
    assert_eq!(store.hard_decision(&code, &vec![-1, 0]), vec![1, 1]);
}
