//! Request rules: what a batch and a query must satisfy.
use vstd::prelude::*;
use crate::error::{
    bad_request, is_bad_request, AppError, MSG_BAD_EXPONENT, MSG_BATCH_TOO_LARGE,
    MSG_EMPTY_BATCH, MSG_NEGATIVE_PRICES,
};
use crate::node::{is_negative, is_negative_bits};

verus! {

/// Largest number of values in one batch.
pub const MAX_BATCH_SIZE: usize = 10000;

/// Smallest and largest exponent of a query window (`10^exponent` samples).
pub const MIN_EXPONENT: u32 = 1;

pub const MAX_EXPONENT: u32 = 8;

pub open spec fn has_negative(values: Seq<u64>) -> bool {
    exists|i: int| 0 <= i < values.len() && is_negative_bits(#[trigger] values[i])
}

/// Why a batch is refused, checked in this order; `None` when it is accepted.
pub open spec fn batch_problem(values: Seq<u64>) -> Option<Seq<char>> {
    if values.len() == 0 {
        Some(MSG_EMPTY_BATCH@)
    } else if values.len() > MAX_BATCH_SIZE {
        Some(MSG_BATCH_TOO_LARGE@)
    } else if has_negative(values) {
        Some(MSG_NEGATIVE_PRICES@)
    } else {
        None
    }
}

pub open spec fn pow10(e: nat) -> nat
    decreases e,
{
    if e == 0 {
        1
    } else {
        10 * pow10((e - 1) as nat)
    }
}

proof fn lemma_pow10_mono(a: nat, b: nat)
    requires
        a <= b,
    ensures
        pow10(a) <= pow10(b),
    decreases b,
{
    if a < b {
        lemma_pow10_mono(a, (b - 1) as nat);
    }
}

/// Checks a batch against the batch rules.
pub fn check_batch(values: &[u64]) -> (r: Result<(), AppError>)
    ensures
        batch_problem(values@) is None ==> r is Ok,
        batch_problem(values@) matches Some(msg) ==> r is Err && is_bad_request(r->Err_0, msg),
{
    if values.len() == 0 {
        return Err(bad_request(MSG_EMPTY_BATCH));
    }
    if values.len() > MAX_BATCH_SIZE {
        return Err(bad_request(MSG_BATCH_TOO_LARGE));
    }
    let mut i: usize = 0;
    while i < values.len()
        invariant
            0 < values@.len() <= MAX_BATCH_SIZE,
            i <= values@.len(),
            forall|j: int| 0 <= j < i ==> !is_negative_bits(#[trigger] values@[j]),
        decreases values@.len() - i,
    {
        if is_negative(values[i]) {
            assert(is_negative_bits(values@[i as int]));
            assert(has_negative(values@));
            return Err(bad_request(MSG_NEGATIVE_PRICES));
        }
        i = i + 1;
    }
    Ok(())
}

/// The window of a query: `10^exponent` samples for an exponent in `1..=8`.
pub fn window_for_exponent(exponent: u32) -> (r: Result<usize, AppError>)
    ensures
        MIN_EXPONENT <= exponent <= MAX_EXPONENT ==> r == Ok::<usize, AppError>(
            pow10(exponent as nat) as usize,
        ),
        !(MIN_EXPONENT <= exponent <= MAX_EXPONENT) ==> r is Err && is_bad_request(
            r->Err_0,
            MSG_BAD_EXPONENT@,
        ),
{
    if exponent < MIN_EXPONENT || exponent > MAX_EXPONENT {
        return Err(bad_request(MSG_BAD_EXPONENT));
    }
    let mut w: usize = 1;
    let mut k: u32 = 0;
    while k < exponent
        invariant
            k <= exponent <= MAX_EXPONENT,
            w == pow10(k as nat),
            w <= 100_000_000,
        decreases exponent - k,
    {
        proof {
            lemma_pow10_mono((k + 1) as nat, 8);
            assert(pow10(8) == 100_000_000) by {
                reveal_with_fuel(pow10, 9);
            }
        }
        w = w * 10;
        k = k + 1;
    }
    Ok(w)
}

} // verus!
