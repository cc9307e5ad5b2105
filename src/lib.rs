pub mod claims;
pub mod contract;
pub mod decimal;
pub mod error;
pub mod helper;
pub mod ledger;
pub mod msg;
pub mod state;

pub use crate::error::ContractError;
