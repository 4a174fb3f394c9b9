//! A verified core for tunnelling file transfers through an interactive
//! terminal session.
//!
//! Packets are framed inside the ordinary terminal byte stream as
//! `PREFIX || base64(payload) || BEL`, where `PREFIX` is an OSC-like escape
//! sequence that terminals ignore.  All bytes outside packet envelopes pass
//! through untouched.  On top of the framing sit a binary message codec, a
//! deterministic protocol state machine for negotiating transfers, and the
//! pure decision logic of the transfer orchestrator.

pub mod api;
pub mod b64;
pub mod codec;
pub mod machine;
pub mod message;
pub mod transfer;
pub mod transport;
pub mod transport_laws;
