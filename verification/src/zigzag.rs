//! Zigzag mapping of signed integers onto unsigned ones, so that values of
//! small magnitude, negative or not, take few bytes: 0, -1, 1, -2, 2, ...
//! go to 0, 1, 2, 3, 4, ...

use vstd::prelude::*;

verus! {

/// The unsigned integer that stands for `value`.
pub open spec fn zigzag(value: i64) -> u64 {
    if value >= 0 {
        (2 * value) as u64
    } else {
        (-2 * value - 1) as u64
    }
}

/// The signed integer that `code` stands for.
pub open spec fn unzigzag(code: u64) -> i64 {
    if code % 2 == 0 {
        (code / 2) as i64
    } else {
        (-(code / 2) - 1) as i64
    }
}

/// The two mappings undo each other.
pub proof fn lemma_zigzag_inverse(value: i64, code: u64)
    ensures
        unzigzag(zigzag(value)) == value,
        zigzag(unzigzag(code)) == code,
{
}

/// Maps a signed integer to the unsigned integer that stands for it.
pub fn encode(value: i64) -> (code: u64)
    ensures
        code == zigzag(value),
{
    if value >= 0 {
        2 * (value as u64)
    } else {
        2 * ((-(value + 1)) as u64) + 1
    }
}

/// Maps an unsigned integer back to the signed integer that it stands for.
pub fn decode(code: u64) -> (value: i64)
    ensures
        value == unzigzag(code),
{
    if code % 2 == 0 {
        (code / 2) as i64
    } else {
        -((code / 2) as i64) - 1
    }
}

} // verus!
