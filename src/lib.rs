//! A constant-product liquidity pool: share issuance and redemption, fixed-input and
//! fixed-output swaps with a basis-point fee, and the integer square root that seeds
//! the first deposit. The pool keeps its reserves as a cache of the asset ledger's
//! balances; the ledger itself is driven by the caller.
pub mod error;
pub mod laws;
pub mod math;
pub mod pool;
pub mod shares;
pub mod wide;
