//! The records of the ledger: transactions, blocks and the chain itself.

pub mod block;
pub mod blockchain;
pub mod chain_model;
pub mod mempool;
pub mod mempool_model;
pub mod transaction;
pub mod utxo;

pub use block::{Block, BlockHeader};
pub use blockchain::Blockchain;
pub use chain_model::{ChainState, ChainView};
pub use transaction::{Transaction, TransactionInput, TransactionOutput};
pub use utxo::UtxoSet;
