//! Error kinds surfaced by the codec and the connection.

use vstd::prelude::*;

verus! {

/// The protocol state a connection is in; it selects the packet id space.
#[derive(Clone, Copy, Debug, PartialEq, Eq, Structural)]
pub enum ProtocolState {
    Handshake,
    Status,
    Login,
    Game,
}

/// Direction a packet travels in.
#[derive(Clone, Copy, Debug, PartialEq, Eq, Structural)]
pub enum PacketDirection {
    Clientbound,
    Serverbound,
}

/// Everything that can go wrong between raw inbound bytes and a decoded
/// packet. All kinds are fatal to the frame; `UnknownPacket` and `Decode`
/// leave the connection usable if the caller chooses to continue.
#[derive(Clone, Debug, PartialEq, Eq)]
pub enum ReadError {
    /// The peer closed the stream in the middle of a frame.
    UnexpectedEof,
    /// The length prefix exceeds the hard frame cap.
    FrameTooLarge,
    /// A varint ran past its maximum width without terminating.
    MalformedVarInt,
    /// The zlib stream in a compressed frame is invalid.
    Decompress,
    /// The declared uncompressed length disagrees with the actual one.
    UncompressedLengthMismatch,
    /// The packet id is not registered for this state and direction.
    UnknownPacket { state: ProtocolState, direction: PacketDirection, id: u32 },
    /// A packet's byte layout was violated.
    Decode,
}

/// Failure to establish a connection; the underlying socket error is kept
/// by the I/O layer, which hands the library this marker.
#[derive(Clone, Copy, Debug, PartialEq, Eq, Structural)]
pub enum ConnectionError {
    Io,
}

} // verus!
