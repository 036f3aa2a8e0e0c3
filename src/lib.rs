//! Derivation of Route Origin Authorization entries from routing-registry
//! route objects and an ordered list of CIDR-scoped policy rules.
pub mod text;
pub mod addr;
pub mod cidr;
pub mod policy;
pub mod record;
pub mod resolve;
pub mod dataset;
