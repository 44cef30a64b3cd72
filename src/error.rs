use vstd::prelude::*;

verus! {

/// Why a pool operation was rejected. Every error leaves the pool unchanged.
#[derive(Clone, Copy, Debug, PartialEq, Eq, Structural)]
pub enum Error {
    /// A deposit amount was zero.
    ZeroAmount,
    /// A number of shares to burn was zero.
    ZeroLiquidity,
    /// The provider holds fewer shares than asked to burn.
    InsufficientLpBalance,
    /// The asset named as input is neither of the pool's two assets.
    InvalidInputToken,
    /// The computed output is below the caller's minimum.
    OutputBelowMinimum,
    /// The computed input is above the caller's maximum.
    InputExceedsMaximum,
    /// The two assets of a new pool are the same.
    IdenticalAssets,
    /// The fee rate is not below the basis-point denominator.
    InvalidFeeRate,
    /// Shares are outstanding while a reserve is empty, so no ratio can be taken.
    DepletedReserves,
    /// A result, a sum or a reserve does not fit in 128 bits.
    Overflow,
}

} // verus!
