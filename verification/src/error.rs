use vstd::prelude::*;

verus! {

/// The errors that the library's operations report.
#[derive(Debug, Clone, Copy, PartialEq, Eq)]
pub enum Error {
    /// The system clock reads a time before the Unix epoch.
    ClockBeforeEpoch,
    /// Serialising the hashed fields of a block failed.
    Serialization,
    /// No nonce up to `i32::MAX` gives a hash that meets the target.
    NonceExhausted,
    /// No transaction of the chain carries the requested id.
    TransactionNotFound,
    /// The operating system's random source failed.
    RandomSource,
    /// An amount is not a decimal `i32`.
    InvalidAmount,
}

/// The library's result type.
pub type Result<T> = core::result::Result<T, Error>;

} // verus!
