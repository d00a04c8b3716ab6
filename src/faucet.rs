//! Arithmetic of the faucet's linear unlocking of tokens.

use vstd::prelude::*;

verus! {

/// 2 to the 64.
pub open spec fn word() -> int {
    0x1_0000_0000_0000_0000
}

/// The number that three 64-bit words stand for, most significant first.
pub open spec fn value_192(r: [u64; 3]) -> int {
    r[0] as int * word() * word() + r[1] as int * word() + r[2] as int
}

proof fn lemma_split_u128(x: u128)
    ensures
        x >> 64u128 == x as int / word(),
        x & 0xffff_ffff_ffff_ffffu128 == x as int % word(),
        (x >> 64u128) < word(),
{
    assert(x >> 64u128 == x / 0x1_0000_0000_0000_0000u128) by (bit_vector);
    assert(x & 0xffff_ffff_ffff_ffffu128 == x % 0x1_0000_0000_0000_0000u128) by (bit_vector);
    assert((x >> 64u128) < 0x1_0000_0000_0000_0000u128) by (bit_vector);
}

/// Multiplies a `u128` with a `u64` and returns the result as a 192-bit number,
/// most significant word first.
pub fn multiply(a: u128, b: u64) -> (r: [u64; 3])
    ensures
        value_192(r) == a as int * b as int,
{
    let lower: u128 = u64::MAX as u128;
    let b = b as u128;
    proof {
        lemma_split_u128(a);
        assert(lower == 0xffff_ffff_ffff_ffffu128);
    }
    let hi: u128 = a >> 64;
    let lo: u128 = a & lower;
    assert(hi * b <= (word() - 1) * (word() - 1)) by (nonlinear_arith)
        requires
            hi < word(),
            b < word(),
    ;
    assert(lo * b <= (word() - 1) * (word() - 1)) by (nonlinear_arith)
        requires
            lo < word(),
            b < word(),
    ;
    let mut a1: u128 = hi * b;
    let a0: u128 = lo * b;
    proof {
        lemma_split_u128(a0);
    }
    a1 = a1 + (a0 >> 64);
    proof {
        lemma_split_u128(a1);
    }
    let r = [(a1 >> 64) as u64, (a1 & lower) as u64, (a0 & lower) as u64];
    proof {
        let w = word();
        assert(a as int == hi as int * w + lo as int);
        assert(a1 as int == (a1 as int / w) * w + a1 as int % w);
        assert(a0 as int == (a0 as int / w) * w + a0 as int % w);
        assert(value_192(r) == (a1 as int / w) * w * w + (a1 as int % w) * w + a0 as int % w);
        assert((a1 as int / w) * w * w + (a1 as int % w) * w == a1 as int * w) by (nonlinear_arith)
            requires
                a1 as int == (a1 as int / w) * w + a1 as int % w,
        ;
        assert(a1 as int * w + a0 as int % w == a as int * b as int) by (nonlinear_arith)
            requires
                a1 as int == hi as int * b as int + a0 as int / w,
                a0 as int == lo as int * b as int,
                a0 as int == (a0 as int / w) * w + a0 as int % w,
                a as int == hi as int * w + lo as int,
        ;
    }
    r
}

/// Compares two 192-bit numbers given as words, most significant first.
pub fn greater_192(x: [u64; 3], y: [u64; 3]) -> (r: bool)
    ensures
        r == (value_192(x) > value_192(y)),
{
    proof {
        let w = word();
        let (x0, x1, x2) = (x[0] as int, x[1] as int, x[2] as int);
        let (y0, y1, y2) = (y[0] as int, y[1] as int, y[2] as int);
        assert(value_192(x) == x0 * w * w + x1 * w + x2);
        assert(value_192(y) == y0 * w * w + y1 * w + y2);
        assert(x0 * w * w + x1 * w + x2 < (x0 + 1) * w * w) by (nonlinear_arith)
            requires
                0 <= x1 < w,
                0 <= x2 < w,
                w == 0x1_0000_0000_0000_0000,
        ;
        assert(y0 * w * w + y1 * w + y2 < (y0 + 1) * w * w) by (nonlinear_arith)
            requires
                0 <= y1 < w,
                0 <= y2 < w,
                w == 0x1_0000_0000_0000_0000,
        ;
        assert(x0 > y0 ==> x0 * w * w >= (y0 + 1) * w * w) by (nonlinear_arith)
            requires
                w == 0x1_0000_0000_0000_0000,
        ;
        assert(y0 > x0 ==> y0 * w * w >= (x0 + 1) * w * w) by (nonlinear_arith)
            requires
                w == 0x1_0000_0000_0000_0000,
        ;
        assert(x1 > y1 ==> x1 * w >= (y1 + 1) * w) by (nonlinear_arith)
            requires
                w == 0x1_0000_0000_0000_0000,
        ;
        assert(y1 > x1 ==> y1 * w >= (x1 + 1) * w) by (nonlinear_arith)
            requires
                w == 0x1_0000_0000_0000_0000,
        ;
    }
    if x[0] != y[0] {
        x[0] > y[0]
    } else if x[1] != y[1] {
        x[1] > y[1]
    } else {
        x[2] > y[2]
    }
}

/// Why a claim was refused.
#[derive(Debug, Clone, Copy, PartialEq, Eq, Structural)]
pub enum ClaimError {
    /// The faucet's balance is below the amount of a claim.
    FaucetEmpty,
    /// Too few tokens are unlocked yet; a later claim may succeed.
    NotEnoughUnlocked,
}

/// The rule of linear unlocking: between `start` and `end`, the tokens unlock
/// linearly, so that after a claim the remaining balance must be at least the
/// share of the starting balance that is still locked:
/// `start_balance / (end - start) <= remaining_balance / (end - now)`.
pub open spec fn claim_outcome(
    start: u64,
    end: u64,
    now: u64,
    start_balance: u128,
    balance: u128,
    amount: u128,
) -> Result<(), ClaimError> {
    if start < end && now < end {
        if balance < amount {
            Err(ClaimError::FaucetEmpty)
        } else if start_balance * (end - now) > (balance - amount) * (end - start) {
            Err(ClaimError::NotEnoughUnlocked)
        } else {
            Ok(())
        }
    } else {
        Ok(())
    }
}

/// Decides whether a claim of `amount` may be paid at time `now` (in
/// microseconds), given the faucet's current `balance` and the `start_balance`
/// that unlocks linearly from `start_timestamp` to `end_timestamp`.
pub fn check_claim(
    start_timestamp: u64,
    end_timestamp: u64,
    now: u64,
    start_balance: u128,
    balance: u128,
    amount: u128,
) -> (r: Result<(), ClaimError>)
    ensures
        r == claim_outcome(start_timestamp, end_timestamp, now, start_balance, balance, amount),
{
    if start_timestamp < end_timestamp && now < end_timestamp {
        let full_duration: u64 = end_timestamp - start_timestamp;
        let remaining_duration: u64 = end_timestamp - now;
        if balance < amount {
            return Err(ClaimError::FaucetEmpty);
        }
        let remaining_balance: u128 = balance - amount;
        if greater_192(
            multiply(start_balance, remaining_duration),
            multiply(remaining_balance, full_duration),
        ) {
            return Err(ClaimError::NotEnoughUnlocked);
        }
    }
    Ok(())
}

} // verus!
