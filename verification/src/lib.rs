//! A verified core of a Minecraft Java Edition protocol client:
//! variable-length integer and frame codecs, AES-128/CFB8 stream
//! encryption, a state-typed connection, and the paletted volumetric
//! container used for chunk data.

pub mod bits;
pub mod chat;
pub mod cipher;
pub mod conn;
pub mod error;
pub mod frame;
pub mod hello;
pub mod palette;
pub mod wire;
