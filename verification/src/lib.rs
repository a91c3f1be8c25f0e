//! An ordered, deduplicated collection of token balances keyed by
//! denomination, with verified arithmetic operations (add, merge,
//! subtract) and a normalization pass that establishes the canonical
//! form: sorted ascending by denomination, free of zero amounts, free
//! of duplicate denominations.

pub mod coin;
pub mod laws;
pub mod model;
pub mod order;
pub mod wallet;

pub use coin::Coin;
pub use coin::coin;
pub use wallet::Wallet;
pub use wallet::WalletError;
