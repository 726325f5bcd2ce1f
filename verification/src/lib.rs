//! A verified dialogue state engine for a small onboarding flow.
//!
//! The engine tracks, per conversation, where an onboarding dialogue stands
//! (nothing collected yet, waiting for the user's name, or name received),
//! computes the reply owed to each inbound message, and keeps the state in a
//! store whose records can be serialized to bytes and recovered after a
//! restart. The transports that carry messages in and out, and the medium
//! that holds the encoded bytes durably, live outside this crate.

pub mod codec;
pub mod dispatch;
pub mod state;
pub mod store;
