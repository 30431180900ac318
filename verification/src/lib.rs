//! Firmware-resident trust infrastructure for a hardware security token.
//!
//! The crate pairs a strict, self-describing binary wire codec with the
//! root-authority state machine that the decoded messages drive.  Messages
//! are exchanged over a point-to-point transport (kept outside this crate);
//! a single successful provisioning command establishes an irrevocable root
//! of trust: a threshold set of public keys with administrative authority.

pub mod armistice;
pub mod codec;
pub mod crypto;
pub mod error;
pub mod root;
pub mod schema;
pub mod status;
pub mod vint;

pub use armistice::Armistice;
pub use error::Error;
