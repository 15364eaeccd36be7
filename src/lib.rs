//! Client-side helpers for the multisig program: the vault transaction
//! message compiler, program-derived addresses and the client error type.

pub mod compiled_keys;
pub mod error;
pub mod instruction;
pub mod pda;
pub mod pubkey;
pub mod vault_transaction;
