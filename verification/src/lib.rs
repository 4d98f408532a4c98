//! A client-side implementation of the PostgreSQL frontend/backend wire
//! protocol (version 3.0): binary framing of messages in both directions,
//! encoders for client-originated messages, a decoder for server-originated
//! messages, the MD5 challenge-response primitive, and the pure part of the
//! connection state machine.
//!
//! All byte-level framing and decoding logic is verified. Socket handling
//! lives outside this crate; callers feed received bytes in and send the
//! returned byte frames out.
pub mod auth;
pub mod connection;
pub mod error;
pub mod message;
pub mod roundtrip;
pub mod servermsg;
