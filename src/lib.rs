//! Account-management remapping of a login principal by directory group
//! membership: configuration schema, server-list failover, group-name
//! extraction, the mapping decision and the host-facing step machine.

pub mod config;
pub mod filter;
pub mod groups;
pub mod mapping;
pub mod servers;
pub mod session;
