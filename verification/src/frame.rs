//! The frame body codec: the compression layer between a serialized packet
//! and its length-prefixed frame. With compression off the body is the
//! packet itself; with it on, the body declares the uncompressed length
//! (zero marking an uncompressed packet below the threshold), then the
//! data, zlib-compressed when the marker is nonzero.

use vstd::prelude::*;
use crate::error::ReadError;
use crate::wire::varint_bytes;
use crate::wire::varint_parse;
use crate::wire::VarRead;
use crate::wire::read_varint_u32;
use crate::wire::write_varint_u32;
use crate::wire::copy_range;
use crate::wire::lemma_varint_round_trip;
use crate::wire::lemma_varint_bytes_len;
use crate::wire::lemma_varint_parse_consumed;
use crate::wire::varint_incomplete;

verus! {

/// The hard cap on a frame's body length, matching vanilla.
pub const MAX_FRAME_LEN: usize = 0x20_0000;

/// What zlib decompression returns on a byte string: the decompressed
/// bytes for a valid stream, nothing otherwise.
pub uninterp spec fn zlib_inflate(s: Seq<u8>) -> Option<Seq<u8>>;

/// Relies on flate2's ZlibEncoder: its output is a zlib stream whose
/// decompression yields exactly the input. Writing into a vector cannot
/// fail.
#[verifier::external_body]
fn zlib_compress(data: &Vec<u8>) -> (r: Vec<u8>)
    ensures
        zlib_inflate(r@) == Some(data@),
{
    let mut encoder = flate2::write::ZlibEncoder::new(
        Vec::new(),
        flate2::Compression::default(),
    );
    std::io::Write::write_all(&mut encoder, data.as_slice()).unwrap();
    encoder.finish().unwrap()
}

/// Relies on flate2's ZlibDecoder: it reads to the end exactly when the
/// input is a valid zlib stream, yielding the decompressed bytes; the
/// length cap turns oversized output into failure.
#[verifier::external_body]
fn zlib_decompress(data: &Vec<u8>, max_len: usize) -> (r: Option<Vec<u8>>)
    ensures
        r matches Some(v) ==> zlib_inflate(data@) == Some(v@) && v@.len() <= max_len,
        r is None ==> !(zlib_inflate(data@) matches Some(v) && v.len() <= max_len),
{
    let decoder = flate2::read::ZlibDecoder::new(data.as_slice());
    let mut out: Vec<u8> = Vec::new();
    let mut limited = std::io::Read::take(decoder, (max_len as u64).saturating_add(1));
    match std::io::Read::read_to_end(&mut limited, &mut out) {
        Ok(_) => {
            if out.len() > max_len {
                None
            } else {
                Some(out)
            }
        },
        Err(_) => None,
    }
}

/// Relies on flate2's ZlibDecoder: copying it to a sink decodes the whole
/// stream, counting its bytes without keeping them, and errors exactly on
/// an invalid stream.
#[verifier::external_body]
fn zlib_inflate_len(data: &Vec<u8>) -> (r: Option<u64>)
    ensures
        r matches Some(n) ==> (zlib_inflate(data@) matches Some(v) && v.len() == n as nat),
        r is None ==> zlib_inflate(data@) is None,
{
    let mut decoder = flate2::read::ZlibDecoder::new(data.as_slice());
    match std::io::copy(&mut decoder, &mut std::io::sink()) {
        Ok(n) => Some(n),
        Err(_) => None,
    }
}

/// What a frame body means: with compression off, the packet itself; with
/// it on, a zero marker followed by the raw packet, or the uncompressed
/// length followed by a zlib stream that inflates to exactly that length.
pub open spec fn frame_body_parse(s: Seq<u8>, compression: bool) -> Option<Seq<u8>> {
    if !compression {
        Some(s)
    } else {
        match varint_parse(s, 5) {
            Some(p) => if p.0 == 0 {
                Some(s.skip(p.1 as int))
            } else if p.0 <= u32::MAX as nat {
                match zlib_inflate(s.skip(p.1 as int)) {
                    Some(v) => if v.len() == p.0 {
                        Some(v)
                    } else {
                        None
                    },
                    None => None,
                }
            } else {
                None
            },
            None => None,
        }
    }
}

/// The writer's compression rule, exactly: with compression off the body
/// is the packet; below the threshold it is the zero marker and the raw
/// packet, never compressed; at or above it, the uncompressed length and a
/// zlib stream that inflates back to the packet.
pub open spec fn compression_rule(body: Seq<u8>, packet: Seq<u8>, threshold: Option<u32>) -> bool {
    match threshold {
        None => body == packet,
        Some(t) => if packet.len() < t {
            body == seq![0u8] + packet
        } else {
            body == varint_bytes(packet.len()) + body.skip(
                varint_bytes(packet.len()).len() as int,
            ) && zlib_inflate(body.skip(varint_bytes(packet.len()).len() as int)) == Some(packet)
        },
    }
}

/// The frame's declared body length is within the hard cap.
pub open spec fn frame_within_cap(plain: Seq<u8>) -> bool {
    match varint_parse(plain, 5) {
        Some(p) => p.0 <= MAX_FRAME_LEN as nat,
        None => false,
    }
}

/// One frame exactly as the writer shapes it: a canonical length prefix
/// covering the rest, whose body follows the compression rule for the
/// packet.
pub open spec fn frame_exact(plain: Seq<u8>, packet: Seq<u8>, threshold: Option<u32>) -> bool {
    match varint_parse(plain, 5) {
        Some(p) => {
            &&& plain.len() == p.1 + p.0
            &&& plain == varint_bytes(p.0) + plain.skip(p.1 as int)
            &&& compression_rule(plain.skip(p.1 as int), packet, threshold)
        },
        None => false,
    }
}

/// The error kind a frame body that does not parse is rejected with: a
/// truncated length prefix is a decode error, an unterminated or oversized
/// one a malformed varint, an invalid zlib stream a decompression failure,
/// and a valid stream of any length other than the declared one a
/// declared-length mismatch.
pub open spec fn frame_body_error(s: Seq<u8>, compression: bool) -> ReadError
    recommends
        frame_body_parse(s, compression) is None,
{
    match varint_parse(s, 5) {
        Some(p) => if p.0 > u32::MAX as nat {
            ReadError::MalformedVarInt
        } else {
            match zlib_inflate(s.skip(p.1 as int)) {
                Some(_) => ReadError::UncompressedLengthMismatch,
                None => ReadError::Decompress,
            }
        },
        None => if varint_incomplete(s, 5) {
            ReadError::Decode
        } else {
            ReadError::MalformedVarInt
        },
    }
}

/// Build the frame body for a serialized packet. Packets below the
/// threshold are never compressed and carry the zero marker; packets at or
/// above it carry their length and the compressed bytes.
pub fn encode_frame_body(packet: &Vec<u8>, threshold: Option<u32>) -> (r: Vec<u8>)
    requires
        1 <= packet@.len() <= MAX_FRAME_LEN,
    ensures
        frame_body_parse(r@, threshold is Some) == Some(packet@),
        compression_rule(r@, packet@, threshold),
        threshold is None ==> r@ == packet@,
        (threshold matches Some(t) && packet@.len() < t) ==> r@ == seq![0u8] + packet@,
        (threshold matches Some(t) && packet@.len() >= t) ==> (r@ == varint_bytes(packet@.len())
            + zlib_deflate_image(r@, packet@) && zlib_inflate(
            r@.skip(varint_bytes(packet@.len()).len() as int),
        ) == Some(packet@)),
{
    match threshold {
        None => {
            let r = copy_range(packet, 0, packet.len());
            proof {
                assert(r@ =~= packet@);
            }
            r
        },
        Some(t) => {
            if (packet.len() as u64) < (t as u64) {
                let mut out: Vec<u8> = Vec::new();
                write_varint_u32(&mut out, 0);
                out.extend_from_slice(packet.as_slice());
                proof {
                    lemma_varint_round_trip(0, packet@, 5);
                    assert(varint_bytes(0) =~= seq![0u8]);
                    assert(out@ =~= seq![0u8] + packet@);
                    assert(varint_bytes(0) + packet@ =~= out@);
                    assert(out@.skip(1) =~= packet@);
                }
                out
            } else {
                let compressed = zlib_compress(packet);
                let mut out: Vec<u8> = Vec::new();
                write_varint_u32(&mut out, packet.len() as u32);
                out.extend_from_slice(compressed.as_slice());
                proof {
                    vstd::arithmetic::power2::lemma2_to64();
                    vstd::arithmetic::power2::lemma2_to64_rest();
                    lemma_varint_bytes_len(packet@.len(), 5);
                    lemma_varint_round_trip(packet@.len(), compressed@, 5);
                    assert(out@ =~= varint_bytes(packet@.len()) + compressed@);
                    assert(out@.skip(varint_bytes(packet@.len()).len() as int) =~= compressed@);
                }
                out
            }
        },
    }
}

/// The compressed remainder of a frame body: whatever follows its length
/// prefix.
pub open spec fn zlib_deflate_image(body: Seq<u8>, packet: Seq<u8>) -> Seq<u8> {
    body.skip(varint_bytes(packet.len()).len() as int)
}

/// Recover the serialized packet from a frame body.
pub fn decode_frame_body(body: &Vec<u8>, compression: bool) -> (r: Result<Vec<u8>, ReadError>)
    ensures
        (match frame_body_parse(body@, compression) {
            Some(v) => r matches Ok(o) && o@ == v,
            None => r == Err::<Vec<u8>, ReadError>(frame_body_error(body@, compression)),
        }),
{
    if !compression {
        return Ok(copy_range(body, 0, body.len()));
    }
    proof {
        lemma_varint_parse_consumed(body@, 5);
        assert(body@.skip(0) =~= body@);
    }
    match read_varint_u32(body, 0) {
        VarRead::Val { value, len } => {
            if value == 0 {
                Ok(copy_range(body, len, body.len()))
            } else {
                let data = copy_range(body, len, body.len());
                match zlib_decompress(&data, value as usize) {
                    Some(v) => {
                        if v.len() == value as usize {
                            Ok(v)
                        } else {
                            Err(ReadError::UncompressedLengthMismatch)
                        }
                    },
                    None => {
                        // either the stream is invalid, or it is valid but
                        // longer than declared; a counting decode tells the
                        // two apart without keeping the output
                        match zlib_inflate_len(&data) {
                            Some(_) => Err(ReadError::UncompressedLengthMismatch),
                            None => Err(ReadError::Decompress),
                        }
                    },
                }
            }
        },
        VarRead::Incomplete => Err(ReadError::Decode),
        VarRead::Malformed => Err(ReadError::MalformedVarInt),
    }
}

} // verus!
