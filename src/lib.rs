//! Record reconciliation and host-table persistence for a DNS webhook provider.

pub mod address;
pub mod grammar;
pub mod hosts;
pub mod codec;
pub mod records;
pub mod config;
pub mod store;
pub mod webhook;
