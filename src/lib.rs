//! The validation-and-ledger core of a small proof-of-work blockchain.
use vstd::prelude::*;

pub mod block;
pub mod chain;
pub mod encoding;
pub mod hashing;
pub mod ledger;
pub mod transaction;

pub use crate::block::Block;
pub use crate::chain::{retarget, target_bytes, validate_chain, Blockchain, ChainConfig};
pub use crate::encoding::{difficulty_bytes_as_u128, u128_bytes, u32_bytes, u64_bytes};
pub use crate::hashing::Hashable;
pub use crate::ledger::Ledger;
pub use crate::transaction::Transaction;

verus! {

/// Why an operation of the chain, a block or a transaction was refused.
#[derive(Debug, Clone, Copy, PartialEq, Eq, Structural)]
pub enum ChainError {
    InvalidIndex,
    InvalidLinkage,
    HashMismatch,
    InvalidProofOfWork,
    InsufficientBalance,
    DuplicateTransaction,
    MalformedTransaction,
    NonceExhausted,
    MiningCancelled,
}

#[verifier::external_type_specification]
#[verifier::external_body]
pub struct ExSystemTime(std::time::SystemTime);

#[verifier::external_type_specification]
#[verifier::external_body]
pub struct ExSystemTimeError(std::time::SystemTimeError);

/// Relies on std::time::SystemTime::now: the current wall-clock time.
pub assume_specification[ std::time::SystemTime::now ]() -> std::time::SystemTime;

/// Relies on std::time::SystemTime::duration_since: the time from `earlier`
/// to `t`, or an error where `earlier` is later.
pub assume_specification[ std::time::SystemTime::duration_since ](
    t: &std::time::SystemTime,
    earlier: std::time::SystemTime,
) -> Result<std::time::Duration, std::time::SystemTimeError>;

/// Relies on std::time::Duration::as_secs: the whole seconds of `d`.
pub assume_specification[ std::time::Duration::as_secs ](d: &std::time::Duration) -> u64;

/// Relies on std::time::Duration::subsec_millis: the milliseconds of `d` past
/// its whole seconds, which std documents as less than one thousand.
pub assume_specification[ std::time::Duration::subsec_millis ](d: &std::time::Duration) -> (r: u32)
    ensures
        r < 1000,
;

/// Relies on std::time::UNIX_EPOCH: the instant 1970-01-01 00:00:00 UTC.
#[verifier::external_body]
fn unix_epoch() -> (r: std::time::SystemTime) {
    std::time::UNIX_EPOCH
}

/// Milliseconds in `secs` seconds plus `millis` milliseconds.
pub fn millis_of(secs: u64, millis: u32) -> (r: u128)
    ensures
        r == secs * 1000 + millis,
{
    secs as u128 * 1000 + millis as u128
}

/// The largest number of milliseconds that a `Duration` since the epoch can
/// give: `u64::MAX` seconds and 999 milliseconds.
pub const MAX_CLOCK_MILLIS: u128 = 18446744073709551615999;

/// The wall-clock time in milliseconds since the Unix epoch; `None` where the
/// clock is set before the epoch, which no timestamp can stand for.
pub fn now() -> (r: Option<u128>)
    ensures
        r matches Some(v) ==> v <= MAX_CLOCK_MILLIS,
{
    match std::time::SystemTime::now().duration_since(unix_epoch()) {
        Ok(d) => Some(millis_of(d.as_secs(), d.subsec_millis())),
        Err(_) => None,
    }
}

} // verus!
