//! The filter for certificate revocation: items and keys are pairs of an issuer and a serial
//! number, the blocks are the issuers, and the universe is what the logs cover.
pub mod builder;
pub mod format;
pub mod query;
