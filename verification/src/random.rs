//! Random numbers from `fastrand`'s and `rand`'s thread-local generators.
use vstd::prelude::*;

verus! {

/// Calls `fastrand::u16(low..high)`: the contract claims only that the
/// result lies in the range, which must not be empty.
#[verifier::external_body]
pub(crate) fn random_u16_in(low: u16, high: u16) -> (r: u16)
    requires
        low < high,
    ensures
        low <= r < high,
{
    fastrand::u16(low..high)
}

/// Calls `fastrand::u32(low..high)`: the contract claims only that the
/// result lies in the range, which must not be empty.
#[verifier::external_body]
pub(crate) fn random_u32_in(low: u32, high: u32) -> (r: u32)
    requires
        low < high,
    ensures
        low <= r < high,
{
    fastrand::u32(low..high)
}

/// Calls `fastrand::u64(0..=high)`: the contract claims only that the result
/// lies in the range.
#[verifier::external_body]
pub(crate) fn random_u64_up_to(high: u64) -> (r: u64)
    ensures
        r <= high,
{
    fastrand::u64(0..=high)
}

/// Calls `rand::thread_rng().gen_range(low..high)`: the contract claims only
/// that the result lies in the range, which must not be empty.
#[verifier::external_body]
pub(crate) fn rand_usize_in(low: usize, high: usize) -> (r: usize)
    requires
        low < high,
    ensures
        low <= r < high,
{
    rand::Rng::gen_range(&mut rand::thread_rng(), low..high)
}

/// Calls `rand::thread_rng().gen_range(low..high)`: the contract claims only
/// that the result lies in the range, which must not be empty.
#[verifier::external_body]
pub(crate) fn rand_u32_in(low: u32, high: u32) -> (r: u32)
    requires
        low < high,
    ensures
        low <= r < high,
{
    rand::Rng::gen_range(&mut rand::thread_rng(), low..high)
}

} // verus!
