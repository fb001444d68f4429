//! Transaction flows of addresses on a UTXO ledger.
//!
//! For one address, the library works out which outputs of the address's
//! transactions paid into it and which inputs spent from it, and ties each
//! such movement to the transactions involved. Histories of several
//! addresses can be merged into one table keyed by transaction.
//!
//! The library itself never talks to a node or an indexer. A caller lists
//! the address's transaction ids, then feeds fetched transactions to an
//! [`builder::AddressFlowBuilder`], which says what to fetch next and, once
//! nothing is missing, hands out the finished history.

pub mod builder;
pub mod cache;
pub mod classify;
pub mod group;
pub mod model;

pub use builder::{next_fetch_of, Action, AddressFlowBuilder, Stage};
pub use cache::TransactionCache;
pub use classify::{
    classify_transaction, get_transaction_flows_for_address, received_flows_of, spent_flow_of,
};
pub use group::{
    organize_transaction_flows_for_mulitple_addresses_by_txid_and_blocktime, GroupedFlowTable,
    GroupedFlows,
};
pub use model::{
    FlowError, Transaction, TransactionFlow, TransactionFlowsForAddress,
    TransactionFlowsWithTransaction, Vin, Vout,
};
