pub mod digest;
pub mod data_map;
pub mod types;
pub mod locators;
pub mod error;
pub mod transaction_state;
pub mod block_state;
pub mod network;
pub mod ledger;
pub mod laws;
pub mod storage_laws;
pub mod acceptance_laws;
