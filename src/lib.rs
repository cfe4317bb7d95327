//! A UTXO wallet that follows the best chain of a node, rolls back and replays
//! blocks across reorganisations, and builds spend transactions from the coins
//! it owns.

pub mod digest;
pub mod ledger;
pub mod store;
pub mod select;
pub mod chain;
pub mod replay;
pub mod wallet;

pub use chain::{ChainView, MockNode};
pub use ledger::{Address, Block, BlockId, Coin, CoinId, Input, Signature, Transaction};
pub use wallet::{Wallet, WalletError};
