//! Streaming block-cipher operating modes (ECB and CBC) over an abstract
//! single-block primitive, a generic buffering adapter, and an independent
//! base64 codec.

pub mod aes128;
pub mod base64;
pub mod buffer;
pub mod buffered;
pub mod cbc;
pub mod ecb;
pub mod error;
pub mod laws;
pub mod model;
pub mod traits;
pub mod xorbuf;
