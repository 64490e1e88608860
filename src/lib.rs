//! Assembly of a capacity-bounded block of transactions from a pool of
//! pending transactions, in fee-density order, with ancestors admitted
//! before their descendants.

pub mod text;
pub mod record;
pub mod ranking;
pub mod assembler;
