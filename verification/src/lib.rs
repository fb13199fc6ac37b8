//! Core of a small swarm file-transfer client: the self-describing codec,
//! the descriptor model, tracker request and response handling, the peer
//! handshake, message framing and the per-piece download engine.

pub mod assembly;
pub mod bytes;
pub mod canonical;
pub mod decode;
pub mod digest;
pub mod digits;
pub mod download;
pub mod encode;
pub mod entries;
pub mod error;
pub mod handshake;
pub mod identity;
pub mod message;
pub mod metadata;
pub mod roundtrip;
pub mod text;
pub mod tracker;
pub mod value;
