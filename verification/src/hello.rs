//! The login hello packet and its session data, with their byte layout.
//! Identifiers are carried as 128-bit values, most significant byte first
//! on the wire.

use vstd::prelude::*;
use crate::error::ReadError;
use crate::wire::be_bytes;
use crate::wire::be_value;
use crate::wire::bytes_wire;
use crate::wire::bytes_parse;
use crate::wire::string_wire;
use crate::wire::string_parse;
use crate::wire::lemma_bytes_round_trip;
use crate::wire::lemma_string_round_trip;
use crate::wire::lemma_be_bytes_len;
use crate::wire::lemma_be_round_trip;
use crate::wire::read_string;
use crate::wire::read_bytes_prefixed;
use crate::wire::read_be_u64;
use crate::wire::read_be_u128;
use crate::wire::write_string;
use crate::wire::write_bytes_prefixed;
use crate::wire::write_be_u64;
use crate::wire::write_be_u128;
use crate::wire::write_bool;

verus! {

/// A profile's public key with its expiry and signature.
#[derive(Clone, Debug, PartialEq, Eq)]
pub struct ProfilePublicKeyData {
    pub expires_at: u64,
    pub key: Vec<u8>,
    pub key_signature: Vec<u8>,
}

/// The chat session a client announces on login.
#[derive(Clone, Debug, PartialEq, Eq)]
pub struct RemoteChatSessionData {
    pub session_id: u128,
    pub profile_public_key: Option<ProfilePublicKeyData>,
}

/// The first serverbound login packet: who is joining.
#[derive(Clone, Debug, PartialEq, Eq)]
pub struct ServerboundHelloPacket {
    pub name: String,
    pub chat_session: RemoteChatSessionData,
    pub profile_id: Option<u128>,
}

/// Mathematical image of a profile public key.
pub struct PpkView {
    pub expires_at: u64,
    pub key: Seq<u8>,
    pub key_signature: Seq<u8>,
}

/// Mathematical image of the hello packet.
pub struct HelloView {
    pub name: Seq<char>,
    pub session_id: u128,
    pub profile_public_key: Option<PpkView>,
    pub profile_id: Option<u128>,
}

impl View for ProfilePublicKeyData {
    type V = PpkView;

    open spec fn view(&self) -> PpkView {
        PpkView { expires_at: self.expires_at, key: self.key@, key_signature: self.key_signature@ }
    }
}

impl View for ServerboundHelloPacket {
    type V = HelloView;

    open spec fn view(&self) -> HelloView {
        HelloView {
            name: self.name@,
            session_id: self.chat_session.session_id,
            profile_public_key: match self.chat_session.profile_public_key {
                Some(p) => Some(p@),
                None => None,
            },
            profile_id: self.profile_id,
        }
    }
}

/// Byte image of a profile public key.
pub open spec fn ppk_wire(p: PpkView) -> Seq<u8> {
    be_bytes(p.expires_at as nat, 8) + bytes_wire(p.key) + bytes_wire(p.key_signature)
}

/// Byte image of the optional profile public key.
pub open spec fn opt_ppk_wire(k: Option<PpkView>) -> Seq<u8> {
    match k {
        None => seq![0u8],
        Some(p) => seq![1u8] + ppk_wire(p),
    }
}

/// Byte image of the optional profile id.
pub open spec fn opt_id_wire(id: Option<u128>) -> Seq<u8> {
    match id {
        None => seq![0u8],
        Some(v) => seq![1u8] + be_bytes(v as nat, 16),
    }
}

/// Byte image of the hello packet's payload.
pub open spec fn hello_wire(h: HelloView) -> Seq<u8> {
    string_wire(h.name) + be_bytes(h.session_id as nat, 16) + opt_ppk_wire(h.profile_public_key)
        + opt_id_wire(h.profile_id)
}

/// Parse a profile public key.
pub open spec fn ppk_parse(s: Seq<u8>) -> Option<(PpkView, nat)> {
    if s.len() < 8 {
        None
    } else {
        let expires_at = be_value(s.subrange(0, 8)) as u64;
        match bytes_parse(s.skip(8)) {
            Some(k) => match bytes_parse(s.skip(8 + k.1 as int)) {
                Some(g) => Some(
                    (
                        PpkView { expires_at, key: k.0, key_signature: g.0 },
                        8 + k.1 + g.1,
                    ),
                ),
                None => None,
            },
            None => None,
        }
    }
}

/// Parse an optional item given how its payload parses: one marker byte,
/// then the payload when the marker is one.
pub open spec fn opt_marker(s: Seq<u8>) -> Option<bool> {
    if s.len() == 0 {
        None
    } else if s[0] == 0 {
        Some(false)
    } else if s[0] == 1 {
        Some(true)
    } else {
        None
    }
}

/// Parse the optional profile public key.
pub open spec fn opt_ppk_parse(s: Seq<u8>) -> Option<(Option<PpkView>, nat)> {
    match opt_marker(s) {
        Some(has_key) => if !has_key {
            Some((None, 1))
        } else {
            match ppk_parse(s.skip(1)) {
                Some(p) => Some((Some(p.0), 1 + p.1)),
                None => None,
            }
        },
        None => None,
    }
}

/// Parse the optional profile id.
pub open spec fn opt_id_parse(s: Seq<u8>) -> Option<(Option<u128>, nat)> {
    match opt_marker(s) {
        Some(has_id) => if !has_id {
            Some((None, 1))
        } else if s.len() < 17 {
            None
        } else {
            Some((Some(be_value(s.subrange(1, 17)) as u128), 17))
        },
        None => None,
    }
}

/// Parse everything after the name: session id, key, profile id.
pub open spec fn hello_tail_parse(s: Seq<u8>) -> Option<
    ((u128, Option<PpkView>, Option<u128>), nat),
> {
    if s.len() < 16 {
        None
    } else {
        let session_id = be_value(s.subrange(0, 16)) as u128;
        match opt_ppk_parse(s.skip(16)) {
            Some(k) => match opt_id_parse(s.skip(16 + k.1 as int)) {
                Some(d) => Some(((session_id, k.0, d.0), 16 + k.1 + d.1)),
                None => None,
            },
            None => None,
        }
    }
}

/// Parse the hello packet's payload.
pub open spec fn hello_parse(s: Seq<u8>) -> Option<(HelloView, nat)> {
    match string_parse(s) {
        Some(n) => match hello_tail_parse(s.skip(n.1 as int)) {
            Some(t) => Some(
                (
                    HelloView {
                        name: n.0,
                        session_id: t.0.0,
                        profile_public_key: t.0.1,
                        profile_id: t.0.2,
                    },
                    n.1 + t.1,
                ),
            ),
            None => None,
        },
        None => None,
    }
}

impl ServerboundHelloPacket {
    /// Serialize the packet's payload.
    pub fn write_into(&self, buf: &mut Vec<u8>)
        requires
            vstd::utf8::encode_utf8(self.name@).len() <= u32::MAX as nat,
            self.chat_session.profile_public_key matches Some(p) ==> p.key@.len()
                <= u32::MAX as nat && p.key_signature@.len() <= u32::MAX as nat,
        ensures
            final(buf)@ == old(buf)@ + hello_wire(self@),
    {
        write_string(buf, self.name.as_str());
        write_be_u128(buf, self.chat_session.session_id, 16);
        match &self.chat_session.profile_public_key {
            None => {
                write_bool(buf, false);
            },
            Some(p) => {
                write_bool(buf, true);
                write_be_u64(buf, p.expires_at, 8);
                write_bytes_prefixed(buf, &p.key);
                write_bytes_prefixed(buf, &p.key_signature);
            },
        }
        match &self.profile_id {
            None => {
                write_bool(buf, false);
            },
            Some(id) => {
                write_bool(buf, true);
                write_be_u128(buf, *id, 16);
            },
        }
        assert(buf@ =~= old(buf)@ + hello_wire(self@));
    }

    /// Read the packet's payload at `pos`.
    #[verifier::rlimit(100)]
    #[verifier::spinoff_prover]
    pub fn read_from(buf: &Vec<u8>, pos: usize) -> (r: Result<
        (ServerboundHelloPacket, usize),
        ReadError,
    >)
        requires
            pos <= buf.len(),
        ensures
            (match hello_parse(buf@.skip(pos as int)) {
                Some(p) => r matches Ok(t) && t.0@ == p.0 && t.1 as nat == pos as nat + p.1 && t.1
                    <= buf.len(),
                None => r is Err,
            }),
    {
        let ghost s = buf@.skip(pos as int);
        let (name, p1) = match read_string(buf, pos) {
            Ok(t) => t,
            Err(e) => {
                return Err(e);
            },
        };
        proof {
            assert(s.skip((p1 - pos) as int) =~= buf@.skip(p1 as int));
        }
        if buf.len() - p1 < 16 {
            return Err(ReadError::Decode);
        }
        let session_id: u128 = read_be_u128(buf, p1, 16);
        proof {
            assert(buf@.subrange(p1 as int, p1 as int + 16) =~= buf@.skip(p1 as int).subrange(
                0,
                16,
            ));
            assert(buf@.skip(p1 as int).skip(16) =~= buf@.skip(p1 as int + 16));
        }
        let p2: usize = p1 + 16;
        let (profile_public_key, p3) = match read_opt_ppk(buf, p2) {
            Ok(t) => t,
            Err(e) => {
                return Err(e);
            },
        };
        proof {
            assert(buf@.skip(p2 as int).skip((p3 - p2) as int) =~= buf@.skip(p3 as int));
            assert(buf@.skip(p1 as int).skip(16 + (p3 - p2) as int) =~= buf@.skip(p3 as int));
        }
        if p3 == buf.len() {
            return Err(ReadError::Decode);
        }
        let marker: u8 = buf[p3];
        let (profile_id, p4) = if marker == 0 {
            (None, p3 + 1)
        } else if marker == 1 {
            if buf.len() - p3 < 17 {
                return Err(ReadError::Decode);
            }
            let id: u128 = read_be_u128(buf, p3 + 1, 16);
            proof {
                assert(buf@.subrange(p3 as int + 1, p3 as int + 17) =~= buf@.skip(
                    p3 as int,
                ).subrange(1, 17));
            }
            (Some(id), p3 + 17)
        } else {
            return Err(ReadError::Decode);
        };
        let packet = ServerboundHelloPacket {
            name,
            chat_session: RemoteChatSessionData { session_id, profile_public_key },
            profile_id,
        };
        Ok((packet, p4))
    }
}

/// Read the optional profile public key: marker byte, then the key data.
fn read_opt_ppk(buf: &Vec<u8>, pos: usize) -> (r: Result<
    (Option<ProfilePublicKeyData>, usize),
    ReadError,
>)
    requires
        pos <= buf.len(),
    ensures
        (match opt_marker(buf@.skip(pos as int)) {
            Some(has_key) => if !has_key {
                r matches Ok(t) && t.0 is None && t.1 == pos + 1
            } else {
                match ppk_parse(buf@.skip(pos as int).skip(1)) {
                    Some(p) => r matches Ok(t) && t.0 matches Some(k) && k@ == p.0 && t.1 as nat
                        == pos as nat + 1 + p.1 && t.1 <= buf.len(),
                    None => r is Err,
                }
            },
            None => r is Err,
        }),
{
    if pos == buf.len() {
        return Err(ReadError::Decode);
    }
    let marker: u8 = buf[pos];
    if marker == 0 {
        return Ok((None, pos + 1));
    }
    if marker != 1 {
        return Err(ReadError::Decode);
    }
    let ghost s2 = buf@.skip(pos as int).skip(1);
    proof {
        assert(s2 =~= buf@.skip(pos as int + 1));
    }
    if buf.len() - (pos + 1) < 8 {
        return Err(ReadError::Decode);
    }
    let expires_at: u64 = read_be_u64(buf, pos + 1, 8);
    proof {
        assert(buf@.subrange(pos as int + 1, pos as int + 9) =~= s2.subrange(0, 8));
        assert(s2.skip(8) =~= buf@.skip(pos as int + 9));
    }
    let (key, q1) = match read_bytes_prefixed(buf, pos + 9) {
        Ok(t) => t,
        Err(e) => {
            return Err(e);
        },
    };
    proof {
        assert(s2.skip(8).skip((q1 - pos - 9) as int) =~= buf@.skip(q1 as int));
        assert(s2.skip(8 + (q1 - pos - 9) as int) =~= buf@.skip(q1 as int));
    }
    let (key_signature, q2) = match read_bytes_prefixed(buf, q1) {
        Ok(t) => t,
        Err(e) => {
            return Err(e);
        },
    };
    let k = ProfilePublicKeyData { expires_at, key, key_signature };
    Ok((Some(k), q2))
}

/// Optional profile key round trip.
pub proof fn lemma_opt_ppk_round_trip(k: Option<PpkView>, rest: Seq<u8>)
    requires
        k matches Some(p) ==> p.key.len() <= u32::MAX as nat && p.key_signature.len()
            <= u32::MAX as nat,
    ensures
        opt_ppk_parse(opt_ppk_wire(k) + rest) == Some((k, opt_ppk_wire(k).len())),
{
    let s = opt_ppk_wire(k) + rest;
    match k {
        None => {
            assert(s[0] == 0);
        },
        Some(p) => {
            assert(s[0] == 1);
            assert(s.skip(1) =~= ppk_wire(p) + rest);
            lemma_ppk_round_trip(p, rest);
        },
    }
}

/// Optional profile id round trip.
pub proof fn lemma_opt_id_round_trip(id: Option<u128>, rest: Seq<u8>)
    ensures
        opt_id_parse(opt_id_wire(id) + rest) == Some((id, opt_id_wire(id).len())),
{
    let s = opt_id_wire(id) + rest;
    match id {
        None => {
            assert(s[0] == 0);
        },
        Some(v) => {
            assert(s[0] == 1);
            lemma_be_bytes_len(v as nat, 16);
            assert(s.subrange(1, 17) =~= be_bytes(v as nat, 16));
            vstd::arithmetic::power2::lemma2_to64();
            vstd::arithmetic::power2::lemma_pow2_adds(64, 64);
            lemma_be_round_trip(v as nat, 16);
        },
    }
}

/// Hello round trip: parsing a written packet yields its image and
/// consumes exactly its bytes.
#[verifier::rlimit(100)]
#[verifier::spinoff_prover]
pub proof fn lemma_hello_round_trip(h: HelloView, rest: Seq<u8>)
    requires
        vstd::utf8::encode_utf8(h.name).len() <= u32::MAX as nat,
        h.profile_public_key matches Some(p) ==> p.key.len() <= u32::MAX as nat
            && p.key_signature.len() <= u32::MAX as nat,
    ensures
        hello_parse(hello_wire(h) + rest) == Some((h, hello_wire(h).len())),
{
    let s = hello_wire(h) + rest;
    let tail = be_bytes(h.session_id as nat, 16) + opt_ppk_wire(h.profile_public_key) + opt_id_wire(
        h.profile_id,
    ) + rest;
    assert(s =~= string_wire(h.name) + tail);
    lemma_string_round_trip(h.name, tail);
    let l1 = string_wire(h.name).len();
    assert(s.skip(l1 as int) =~= tail);
    lemma_be_bytes_len(h.session_id as nat, 16);
    assert(tail.subrange(0, 16) =~= be_bytes(h.session_id as nat, 16));
    vstd::arithmetic::power2::lemma2_to64();
    vstd::arithmetic::power2::lemma_pow2_adds(64, 64);
    lemma_be_round_trip(h.session_id as nat, 16);
    assert(tail.skip(16) =~= opt_ppk_wire(h.profile_public_key) + (opt_id_wire(h.profile_id)
        + rest));
    lemma_opt_ppk_round_trip(h.profile_public_key, opt_id_wire(h.profile_id) + rest);
    let l2 = opt_ppk_wire(h.profile_public_key).len();
    assert(tail.skip(16).skip(l2 as int) =~= opt_id_wire(h.profile_id) + rest);
    assert(tail.skip(16 + l2 as int) =~= opt_id_wire(h.profile_id) + rest);
    lemma_opt_id_round_trip(h.profile_id, rest);
}

/// Profile key round trip.
pub proof fn lemma_ppk_round_trip(p: PpkView, rest: Seq<u8>)
    requires
        p.key.len() <= u32::MAX as nat,
        p.key_signature.len() <= u32::MAX as nat,
    ensures
        ppk_parse(ppk_wire(p) + rest) == Some((p, ppk_wire(p).len())),
{
    let s = ppk_wire(p) + rest;
    lemma_be_bytes_len(p.expires_at as nat, 8);
    assert(s.subrange(0, 8) =~= be_bytes(p.expires_at as nat, 8));
    vstd::arithmetic::power2::lemma2_to64();
    lemma_be_round_trip(p.expires_at as nat, 8);
    assert(s.skip(8) =~= bytes_wire(p.key) + (bytes_wire(p.key_signature) + rest));
    lemma_bytes_round_trip(p.key, bytes_wire(p.key_signature) + rest);
    let l1 = bytes_wire(p.key).len();
    assert(s.skip(8).skip(l1 as int) =~= bytes_wire(p.key_signature) + rest);
    assert(s.skip(8 + l1 as int) =~= bytes_wire(p.key_signature) + rest);
    lemma_bytes_round_trip(p.key_signature, rest);
}

} // verus!
