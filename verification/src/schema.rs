//! Wire message catalog.
//!
//! Each message type publishes the same per-type codec contract: `decode`,
//! `encode`, `encoded_len`, a canonical `spec_encoding`, and helpers for
//! nesting.  The request and response envelopes are tagged unions matched by
//! the dispatcher.

pub mod provision;
pub mod public_key;
pub mod request;
pub mod response;
pub mod timestamp;
pub mod uuid;

pub use public_key::PublicKey;
pub use request::Request;
pub use response::Response;
pub use timestamp::Timestamp;
pub use uuid::Uuid;
