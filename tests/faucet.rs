use linera_kv::faucet::{check_claim, greater_192, multiply, ClaimError};

#[test]
fn multiply_small_numbers() {
    assert_eq!(multiply(6, 7), [0, 0, 42]);
}

#[test]
fn multiply_carries_into_middle_word() {
    assert_eq!(multiply(1 << 64, 3), [0, 3, 0]);
    assert_eq!(multiply(u64::MAX as u128, 2), [0, 1, u64::MAX - 1]);
}

#[test]
fn multiply_largest_operands() {
    assert_eq!(
        multiply(u128::MAX, u64::MAX),
        [u64::MAX - 1, u64::MAX, 1]
    );
}

#[test]
fn multiply_by_zero() {
    assert_eq!(multiply(u128::MAX, 0), [0, 0, 0]);
}


#[test]
fn compares_192_bit_numbers() {
    assert!(greater_192([1, 0, 0], [0, u64::MAX, u64::MAX]));
    assert!(!greater_192([0, 5, 1], [0, 5, 1]));
    assert!(greater_192([0, 5, 2], [0, 5, 1]));
    assert!(!greater_192([0, 4, u64::MAX], [0, 5, 0]));
}

#[test]
fn claims_outside_the_unlock_window_are_allowed() {
    assert_eq!(check_claim(100, 100, 50, 1000, 0, 10), Ok(()));
    assert_eq!(check_claim(0, 100, 100, 1000, 0, 10), Ok(()));
}

#[test]
fn claim_from_empty_faucet_is_refused() {
    assert_eq!(check_claim(0, 100, 50, 1000, 5, 10), Err(ClaimError::FaucetEmpty));
}

#[test]
fn claims_follow_linear_unlocking() {
    // Half of the time is left, so half of the 1000 tokens stay locked.
    assert_eq!(check_claim(0, 100, 50, 1000, 600, 100), Ok(()));
    assert_eq!(check_claim(0, 100, 50, 1000, 600, 101), Err(ClaimError::NotEnoughUnlocked));
    assert_eq!(check_claim(0, u64::MAX, 1, u128::MAX, u128::MAX, 1), Ok(()));
    assert_eq!(
        check_claim(0, u64::MAX, 0, u128::MAX, u128::MAX, 1),
        Err(ClaimError::NotEnoughUnlocked)
    );
}
