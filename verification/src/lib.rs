//! The backend of a local, single-node sequencer: it keeps the ledger of a
//! development chain consistent while transactions are taken in, executed by
//! an outside engine, accumulated in a pending block and sealed.
//!
//! [`backend::Backend`] owns the chain and changes it; [`ledger::Ledger`]
//! is what it holds as a mathematical value, with every step of the backend
//! as a function on it; [`provider::BlockchainProvider`] is the read-only
//! entry point for everything above, over the traits of [`traits`].
//!
//! Every function in this crate is verified against its contract.

pub mod backend;
pub mod block;
pub mod compiler;
pub mod context;
pub mod felt;
pub mod hash;
pub mod keymap;
pub mod ledger;
pub mod provider;
pub mod queries;
pub mod state;
pub mod traits;
pub mod transaction;

pub use crate::backend::Backend;
pub use crate::compiler::DojoCompiler;
pub use crate::provider::BlockchainProvider;
pub use crate::traits::{
    BlockProvider, ContractReader, ReceiptProvider, StateProvider, TransactionProvider,
};
