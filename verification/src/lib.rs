//! Per-account guardian registry.
//!
//! Records, for each account, an ordered set of guardian public keys and a
//! recovery threshold, and answers the queries an external recovery workflow
//! needs: whether a key is a guardian, and whether an account has been set up.
//! Initialization is validated (guardian-count floor, threshold bounds,
//! duplicate detection) and happens at most once per account; a committed
//! record is never changed afterwards.

pub mod errors;
pub mod keys;
pub mod registry;
pub mod types;
