//! The packet registry and the state-typed connection. Each protocol state
//! and direction has its own packet enum; a connection is typed by the
//! packets it may read and write, so a read in one state can only yield
//! that state's variants.

use vstd::prelude::*;
use core::marker::PhantomData;
use crate::error::ReadError;
use crate::error::ProtocolState;
use crate::error::PacketDirection;
use crate::wire::varint_bytes;
use crate::wire::varint_parse;
use crate::wire::varint_incomplete;
use crate::wire::VarRead;
use crate::wire::read_varint_u32;
use crate::wire::write_varint_u32;
use crate::wire::bytes_wire;
use crate::wire::bytes_parse;
use crate::wire::string_wire;
use crate::wire::string_parse;
use crate::wire::be_bytes;
use crate::wire::be_value;
use crate::wire::read_string;
use crate::wire::write_string;
use crate::wire::read_bytes_prefixed;
use crate::wire::write_bytes_prefixed;
use crate::wire::read_be_u64;
use crate::wire::write_be_u64;
use crate::wire::read_be_u128;
use crate::wire::write_be_u128;
use crate::wire::copy_range;
use crate::wire::lemma_varint_round_trip;
use crate::wire::lemma_varint_bytes_len;
use crate::wire::lemma_varint_parse_consumed;
use crate::wire::lemma_bytes_round_trip;
use crate::wire::lemma_string_round_trip;
use crate::wire::lemma_be_bytes_len;
use crate::wire::lemma_be_round_trip;
use crate::hello::ServerboundHelloPacket;
use crate::hello::hello_wire;
use crate::hello::hello_parse;
use crate::hello::lemma_hello_round_trip;
use crate::cipher::Cfb8;
use crate::cipher::cfb8_enc;
use crate::cipher::cfb8_enc_iv;
use crate::cipher::cfb8_dec;
use crate::cipher::cfb8_dec_iv;
use crate::frame::MAX_FRAME_LEN;
use crate::frame::frame_body_parse;
use crate::frame::frame_body_error;
use crate::frame::frame_exact;
use crate::frame::frame_within_cap;
use crate::frame::compression_rule;
use crate::frame::encode_frame_body;
use crate::frame::decode_frame_body;

verus! {

/// A packet variant set: everything readable or writable in one protocol
/// state and direction. Implementations are all in this crate and verified;
/// `decodes` says which byte strings stand for which packet, exactly.
pub trait ProtocolPacket: Sized {
    /// The packet's serialized image: its id varint, then its payload.
    spec fn wire_spec(&self) -> Seq<u8>;

    /// Whether all of `s` decodes to exactly the packet `p`.
    spec fn decodes(s: Seq<u8>, p: Self) -> bool;

    /// Whether the packet's variable-length fields fit their prefixes, so
    /// that it can be serialized.
    spec fn encodable(&self) -> bool;

    /// The protocol state this registry belongs to.
    spec fn state() -> ProtocolState;

    /// The direction this registry covers.
    spec fn direction() -> PacketDirection;

    /// Whether the registry assigns this packet id.
    spec fn known_id(id: nat) -> bool;

    /// Serialize the packet.
    fn encode(&self) -> (r: Vec<u8>)
        requires
            self.encodable(),
        ensures
            r@ == self.wire_spec(),
            1 <= r@.len(),
    ;

    /// Decode one whole packet from `bytes`. An id the registry does not
    /// assign is reported as an unknown packet of this state and direction.
    fn decode(bytes: &Vec<u8>) -> (r: Result<Self, ReadError>)
        ensures
            r matches Ok(p) ==> Self::decodes(bytes@, p),
            (exists|p: Self| Self::decodes(bytes@, p)) ==> r is Ok,
            (match varint_parse(bytes@, 5) {
                Some(i) => (i.0 <= u32::MAX as nat && !Self::known_id(i.0)) ==> r == Err::<
                    Self,
                    ReadError,
                >(
                    ReadError::UnknownPacket {
                        state: Self::state(),
                        direction: Self::direction(),
                        id: i.0 as u32,
                    },
                ),
                None => true,
            }),
    ;
}

/// The handshake's only packet: what the client intends to do.
#[derive(Debug, PartialEq, Eq)]
pub struct ClientIntentionPacket {
    pub protocol_version: u32,
    pub hostname: String,
    pub port: u16,
    pub intention: u32,
}

/// Serverbound handshake packets.
#[derive(Debug, PartialEq, Eq)]
pub enum ServerboundHandshakePacket {
    ClientIntention(ClientIntentionPacket),
}

/// Clientbound handshake packets: the registry assigns no ids in this
/// direction, so nothing ever decodes to this type; the one variant below
/// never appears on the wire.
#[derive(Debug, PartialEq, Eq)]
pub enum ClientboundHandshakePacket {
    Absent,
}

/// Serverbound status packets.
#[derive(Debug, PartialEq, Eq)]
pub enum ServerboundStatusPacket {
    StatusRequest,
}

/// Clientbound status packets.
#[derive(Debug, PartialEq, Eq)]
pub enum ClientboundStatusPacket {
    StatusResponse { status: String },
}

/// Serverbound login packets.
#[derive(Debug, PartialEq, Eq)]
pub enum ServerboundLoginPacket {
    Hello(ServerboundHelloPacket),
    Key { key_bytes: Vec<u8>, encrypted_challenge: Vec<u8> },
}

/// Clientbound login packets.
#[derive(Debug, PartialEq, Eq)]
pub enum ClientboundLoginPacket {
    LoginDisconnect { reason: String },
    Hello { server_id: String, public_key: Vec<u8>, challenge: Vec<u8> },
    GameProfile { profile_id: u128, name: String },
    LoginCompression { compression_threshold: i32 },
}

/// Serverbound game packets.
#[derive(Debug, PartialEq, Eq)]
pub enum ServerboundGamePacket {
    KeepAlive { id: u64 },
    Chat { message: String },
}

/// Clientbound game packets.
#[derive(Debug, PartialEq, Eq)]
pub enum ClientboundGamePacket {
    KeepAlive { id: u64 },
    Disconnect { reason: String },
}

impl ProtocolPacket for ServerboundHandshakePacket {
    open spec fn wire_spec(&self) -> Seq<u8> {
        match self {
            ServerboundHandshakePacket::ClientIntention(p) => seq![0u8] + varint_bytes(
                p.protocol_version as nat,
            ) + string_wire(p.hostname@) + be_bytes(p.port as nat, 2) + varint_bytes(
                p.intention as nat,
            ),
        }
    }

    open spec fn decodes(s: Seq<u8>, p: Self) -> bool {
        match p {
            ServerboundHandshakePacket::ClientIntention(q) => match varint_parse(s, 5) {
                Some(i) => i.0 == 0 && {
                    let s1 = s.skip(i.1 as int);
                    match varint_parse(s1, 5) {
                        Some(v) => v.0 == q.protocol_version as nat && {
                            let s2 = s1.skip(v.1 as int);
                            match string_parse(s2) {
                                Some(h) => h.0 == q.hostname@ && {
                                    let s3 = s2.skip(h.1 as int);
                                    s3.len() >= 2 && be_value(s3.subrange(0, 2))
                                        == q.port as nat && {
                                        let s4 = s3.skip(2);
                                        varint_parse(s4, 5) == Some(
                                            (q.intention as nat, s4.len()),
                                        )
                                    }
                                },
                                None => false,
                            }
                        },
                        None => false,
                    }
                },
                None => false,
            },
        }
    }

    open spec fn encodable(&self) -> bool {
        match self {
            ServerboundHandshakePacket::ClientIntention(p) => vstd::utf8::encode_utf8(
                p.hostname@,
            ).len() <= u32::MAX as nat,
        }
    }

    open spec fn state() -> ProtocolState {
        ProtocolState::Handshake
    }

    open spec fn direction() -> PacketDirection {
        PacketDirection::Serverbound
    }

    open spec fn known_id(id: nat) -> bool {
        id == 0
    }

    fn encode(&self) -> (r: Vec<u8>)
        ensures
            r@ == self.wire_spec(),
            1 <= r@.len(),
    {
        match self {
            ServerboundHandshakePacket::ClientIntention(p) => {
                let mut out: Vec<u8> = Vec::new();
                write_varint_u32(&mut out, 0);
                write_varint_u32(&mut out, p.protocol_version);
                write_string(&mut out, p.hostname.as_str());
                write_be_u64(&mut out, p.port as u64, 2);
                write_varint_u32(&mut out, p.intention);
                proof {
                    assert(varint_bytes(0) =~= seq![0u8]);
                    assert(out@ =~= self.wire_spec());
                }
                out
            },
        }
    }

    fn decode(bytes: &Vec<u8>) -> (r: Result<Self, ReadError>)
        ensures
            r matches Ok(p) ==> Self::decodes(bytes@, p),
            (exists|p: Self| Self::decodes(bytes@, p)) ==> r is Ok,
    {
        let blen: usize = bytes.len();
        proof {
            lemma_varint_parse_consumed(bytes@, 5);
            assert(bytes@.skip(0) =~= bytes@);
        }
        let (id, l0) = match read_varint_u32(bytes, 0) {
            VarRead::Val { value, len } => (value, len),
            VarRead::Incomplete => {
                return Err(ReadError::Decode);
            },
            VarRead::Malformed => {
                return Err(ReadError::MalformedVarInt);
            },
        };
        if id != 0 {
            return Err(
                ReadError::UnknownPacket {
                    state: ProtocolState::Handshake,
                    direction: PacketDirection::Serverbound,
                    id,
                },
            );
        }
        proof {
            lemma_varint_parse_consumed(bytes@.skip(l0 as int), 5);
        }
        let (protocol_version, l1) = match read_varint_u32(bytes, l0) {
            VarRead::Val { value, len } => {
                proof {
                    assert(len <= bytes@.len() - l0);
                }
                (value, l0 + len)
            },
            VarRead::Incomplete => {
                return Err(ReadError::Decode);
            },
            VarRead::Malformed => {
                return Err(ReadError::MalformedVarInt);
            },
        };
        proof {
            assert(bytes@.skip(l0 as int).skip((l1 - l0) as int) =~= bytes@.skip(l1 as int));
        }
        let (hostname, l2) = match read_string(bytes, l1) {
            Ok(t) => t,
            Err(e) => {
                return Err(e);
            },
        };
        proof {
            assert(bytes@.skip(l1 as int).skip((l2 - l1) as int) =~= bytes@.skip(l2 as int));
        }
        if bytes.len() - l2 < 2 {
            return Err(ReadError::Decode);
        }
        proof {
            assert(bytes@.subrange(l2 as int, l2 as int + 2) =~= bytes@.skip(l2 as int).subrange(
                0,
                2,
            ));
            crate::wire::lemma_be_value_bound(bytes@.subrange(l2 as int, l2 as int + 2));
            vstd::arithmetic::power2::lemma2_to64();
            assert(bytes@.skip(l2 as int).skip(2) =~= bytes@.skip(l2 as int + 2));
        }
        let port_raw: u64 = read_be_u64(bytes, l2, 2);
        let port: u16 = port_raw as u16;
        let l3: usize = l2 + 2;
        proof {
            lemma_varint_parse_consumed(bytes@.skip(l3 as int), 5);
        }
        let (intention, l4) = match read_varint_u32(bytes, l3) {
            VarRead::Val { value, len } => {
                proof {
                    assert(len <= bytes@.len() - l3);
                }
                (value, l3 + len)
            },
            VarRead::Incomplete => {
                return Err(ReadError::Decode);
            },
            VarRead::Malformed => {
                return Err(ReadError::MalformedVarInt);
            },
        };
        if l4 != bytes.len() {
            return Err(ReadError::Decode);
        }
        Ok(
            ServerboundHandshakePacket::ClientIntention(
                ClientIntentionPacket { protocol_version, hostname, port, intention },
            ),
        )
    }
}

/// Handshake round trip: every registered variant's image decodes to it.
pub proof fn lemma_handshake_round_trip(this: &ServerboundHandshakePacket)
    requires
        this.encodable(),
    ensures
        ServerboundHandshakePacket::decodes(this.wire_spec(), *this),
{
    vstd::arithmetic::power2::lemma2_to64();
    vstd::arithmetic::power2::lemma2_to64_rest();
    match this {
            ServerboundHandshakePacket::ClientIntention(p) => {
                let s = this.wire_spec();
                let rest1 = varint_bytes(p.protocol_version as nat) + string_wire(p.hostname@)
                    + be_bytes(p.port as nat, 2) + varint_bytes(p.intention as nat);
                assert(varint_bytes(0) =~= seq![0u8]);
                assert(s =~= varint_bytes(0) + rest1);
                lemma_varint_round_trip(0, rest1, 5);
                assert(s.skip(1) =~= rest1);
                let rest2 = string_wire(p.hostname@) + be_bytes(p.port as nat, 2) + varint_bytes(
                    p.intention as nat,
                );
                assert(rest1 =~= varint_bytes(p.protocol_version as nat) + rest2);
                lemma_varint_bytes_len(p.protocol_version as nat, 5);
                lemma_varint_round_trip(p.protocol_version as nat, rest2, 5);
                let lv = varint_bytes(p.protocol_version as nat).len();
                assert(rest1.skip(lv as int) =~= rest2);
                let rest3 = be_bytes(p.port as nat, 2) + varint_bytes(p.intention as nat);
                assert(rest2 =~= string_wire(p.hostname@) + rest3);
                lemma_string_round_trip(p.hostname@, rest3);
                let lh = string_wire(p.hostname@).len();
                assert(rest2.skip(lh as int) =~= rest3);
                lemma_be_bytes_len(p.port as nat, 2);
                assert(rest3.subrange(0, 2) =~= be_bytes(p.port as nat, 2));
                lemma_be_round_trip(p.port as nat, 2);
                let rest4 = varint_bytes(p.intention as nat);
                assert(rest3.skip(2) =~= rest4);
                lemma_varint_bytes_len(p.intention as nat, 5);
                lemma_varint_round_trip(p.intention as nat, Seq::empty(), 5);
                assert(rest4 + Seq::<u8>::empty() =~= rest4);
            },
        }
}

impl ProtocolPacket for ClientboundHandshakePacket {
    open spec fn wire_spec(&self) -> Seq<u8> {
        seq![0u8]
    }

    open spec fn decodes(s: Seq<u8>, p: Self) -> bool {
        false
    }

    open spec fn encodable(&self) -> bool {
        true
    }

    open spec fn state() -> ProtocolState {
        ProtocolState::Handshake
    }

    open spec fn direction() -> PacketDirection {
        PacketDirection::Clientbound
    }

    open spec fn known_id(id: nat) -> bool {
        false
    }

    fn encode(&self) -> (r: Vec<u8>)
        ensures
            r@ == self.wire_spec(),
            1 <= r@.len(),
    {
        let mut out: Vec<u8> = Vec::new();
        out.push(0u8);
        proof {
            assert(out@ =~= self.wire_spec());
        }
        out
    }

    fn decode(bytes: &Vec<u8>) -> (r: Result<Self, ReadError>)
        ensures
            r matches Ok(p) ==> Self::decodes(bytes@, p),
            (exists|p: Self| Self::decodes(bytes@, p)) ==> r is Ok,
            (match varint_parse(bytes@, 5) {
                Some(i) => (i.0 <= u32::MAX as nat && !Self::known_id(i.0)) ==> r == Err::<
                    Self,
                    ReadError,
                >(
                    ReadError::UnknownPacket {
                        state: Self::state(),
                        direction: Self::direction(),
                        id: i.0 as u32,
                    },
                ),
                None => true,
            }),
    {
        proof {
            assert(bytes@.skip(0) =~= bytes@);
        }
        match read_varint_u32(bytes, 0) {
            VarRead::Val { value, .. } => Err(
                ReadError::UnknownPacket {
                    state: ProtocolState::Handshake,
                    direction: PacketDirection::Clientbound,
                    id: value,
                },
            ),
            VarRead::Incomplete => Err(ReadError::Decode),
            VarRead::Malformed => Err(ReadError::MalformedVarInt),
        }
    }
}

} // verus!

verus! {

/// The id varint at the head of `s`, when canonical for small ids.
pub open spec fn id_at(s: Seq<u8>) -> Option<(nat, nat)> {
    varint_parse(s, 5)
}

impl ProtocolPacket for ServerboundStatusPacket {
    open spec fn wire_spec(&self) -> Seq<u8> {
        seq![0u8]
    }

    open spec fn decodes(s: Seq<u8>, p: Self) -> bool {
        match id_at(s) {
            Some(i) => i.0 == 0 && s.len() == i.1,
            None => false,
        }
    }

    open spec fn encodable(&self) -> bool {
        true
    }

    open spec fn state() -> ProtocolState {
        ProtocolState::Status
    }

    open spec fn direction() -> PacketDirection {
        PacketDirection::Serverbound
    }

    open spec fn known_id(id: nat) -> bool {
        id == 0
    }

    fn encode(&self) -> (r: Vec<u8>)
        ensures
            r@ == self.wire_spec(),
            1 <= r@.len(),
    {
        let mut out: Vec<u8> = Vec::new();
        write_varint_u32(&mut out, 0);
        proof {
            assert(varint_bytes(0) =~= seq![0u8]);
            assert(out@ =~= self.wire_spec());
        }
        out
    }

    fn decode(bytes: &Vec<u8>) -> (r: Result<Self, ReadError>)
        ensures
            r matches Ok(p) ==> Self::decodes(bytes@, p),
            (exists|p: Self| Self::decodes(bytes@, p)) ==> r is Ok,
    {
        proof {
            assert(bytes@.skip(0) =~= bytes@);
        }
        match read_varint_u32(bytes, 0) {
            VarRead::Val { value, len } => {
                if value == 0 && len == bytes.len() {
                    Ok(ServerboundStatusPacket::StatusRequest)
                } else if value != 0 {
                    Err(
                        ReadError::UnknownPacket {
                            state: ProtocolState::Status,
                            direction: PacketDirection::Serverbound,
                            id: value,
                        },
                    )
                } else {
                    Err(ReadError::Decode)
                }
            },
            VarRead::Incomplete => Err(ReadError::Decode),
            VarRead::Malformed => Err(ReadError::MalformedVarInt),
        }
    }
}

/// Status round trip.
pub proof fn lemma_status_serverbound_round_trip(this: &ServerboundStatusPacket)
    ensures
        ServerboundStatusPacket::decodes(this.wire_spec(), *this),
{
    assert(varint_bytes(0) =~= seq![0u8]);
    lemma_varint_round_trip(0, Seq::empty(), 5);
    assert(varint_bytes(0) + Seq::<u8>::empty() =~= this.wire_spec());
}

impl ProtocolPacket for ClientboundStatusPacket {
    open spec fn wire_spec(&self) -> Seq<u8> {
        match self {
            ClientboundStatusPacket::StatusResponse { status } => seq![0u8] + string_wire(
                status@,
            ),
        }
    }

    open spec fn decodes(s: Seq<u8>, p: Self) -> bool {
        match p {
            ClientboundStatusPacket::StatusResponse { status } => match id_at(s) {
                Some(i) => i.0 == 0 && string_parse(s.skip(i.1 as int)) == Some(
                    (status@, (s.len() - i.1) as nat),
                ),
                None => false,
            },
        }
    }

    open spec fn encodable(&self) -> bool {
        match self {
            ClientboundStatusPacket::StatusResponse { status } => vstd::utf8::encode_utf8(
                status@,
            ).len() <= u32::MAX as nat,
        }
    }

    open spec fn state() -> ProtocolState {
        ProtocolState::Status
    }

    open spec fn direction() -> PacketDirection {
        PacketDirection::Clientbound
    }

    open spec fn known_id(id: nat) -> bool {
        id == 0
    }

    fn encode(&self) -> (r: Vec<u8>)
        ensures
            r@ == self.wire_spec(),
            1 <= r@.len(),
    {
        match self {
            ClientboundStatusPacket::StatusResponse { status } => {
                let mut out: Vec<u8> = Vec::new();
                write_varint_u32(&mut out, 0);
                write_string(&mut out, status.as_str());
                proof {
                    assert(varint_bytes(0) =~= seq![0u8]);
                    assert(out@ =~= self.wire_spec());
                }
                out
            },
        }
    }

    fn decode(bytes: &Vec<u8>) -> (r: Result<Self, ReadError>)
        ensures
            r matches Ok(p) ==> Self::decodes(bytes@, p),
            (exists|p: Self| Self::decodes(bytes@, p)) ==> r is Ok,
    {
        let blen: usize = bytes.len();
        proof {
            lemma_varint_parse_consumed(bytes@, 5);
            assert(bytes@.skip(0) =~= bytes@);
        }
        let (id, l0) = match read_varint_u32(bytes, 0) {
            VarRead::Val { value, len } => (value, len),
            VarRead::Incomplete => {
                return Err(ReadError::Decode);
            },
            VarRead::Malformed => {
                return Err(ReadError::MalformedVarInt);
            },
        };
        if id != 0 {
            return Err(
                ReadError::UnknownPacket {
                    state: ProtocolState::Status,
                    direction: PacketDirection::Clientbound,
                    id,
                },
            );
        }
        let (status, l1) = match read_string(bytes, l0) {
            Ok(t) => t,
            Err(e) => {
                return Err(e);
            },
        };
        if l1 != bytes.len() {
            return Err(ReadError::Decode);
        }
        Ok(ClientboundStatusPacket::StatusResponse { status })
    }
}

/// Status response round trip.
pub proof fn lemma_status_clientbound_round_trip(this: &ClientboundStatusPacket)
    requires
        this.encodable(),
    ensures
        ClientboundStatusPacket::decodes(this.wire_spec(), *this),
{
    match this {
        ClientboundStatusPacket::StatusResponse { status } => {
            let s = this.wire_spec();
            assert(varint_bytes(0) =~= seq![0u8]);
            assert(s =~= varint_bytes(0) + string_wire(status@));
            lemma_varint_round_trip(0, string_wire(status@), 5);
            assert(s.skip(1) =~= string_wire(status@) + Seq::<u8>::empty());
            lemma_string_round_trip(status@, Seq::empty());
        },
    }
}

impl ProtocolPacket for ServerboundLoginPacket {
    open spec fn wire_spec(&self) -> Seq<u8> {
        match self {
            ServerboundLoginPacket::Hello(h) => seq![0u8] + hello_wire(h@),
            ServerboundLoginPacket::Key { key_bytes, encrypted_challenge } => seq![1u8]
                + bytes_wire(key_bytes@) + bytes_wire(encrypted_challenge@),
        }
    }

    open spec fn decodes(s: Seq<u8>, p: Self) -> bool {
        match p {
            ServerboundLoginPacket::Hello(h) => match id_at(s) {
                Some(i) => i.0 == 0 && hello_parse(s.skip(i.1 as int)) == Some(
                    (h@, (s.len() - i.1) as nat),
                ),
                None => false,
            },
            ServerboundLoginPacket::Key { key_bytes, encrypted_challenge } => match id_at(s) {
                Some(i) => i.0 == 1 && {
                    let s1 = s.skip(i.1 as int);
                    match bytes_parse(s1) {
                        Some(k) => k.0 == key_bytes@ && bytes_parse(s1.skip(k.1 as int)) == Some(
                            (encrypted_challenge@, (s1.len() - k.1) as nat),
                        ),
                        None => false,
                    }
                },
                None => false,
            },
        }
    }

    open spec fn encodable(&self) -> bool {
        match self {
            ServerboundLoginPacket::Hello(h) => vstd::utf8::encode_utf8(h.name@).len()
                <= u32::MAX as nat && (h.chat_session.profile_public_key matches Some(p)
                ==> p.key@.len() <= u32::MAX as nat && p.key_signature@.len()
                <= u32::MAX as nat),
            ServerboundLoginPacket::Key { key_bytes, encrypted_challenge } => key_bytes@.len()
                <= u32::MAX as nat && encrypted_challenge@.len() <= u32::MAX as nat,
        }
    }

    open spec fn state() -> ProtocolState {
        ProtocolState::Login
    }

    open spec fn direction() -> PacketDirection {
        PacketDirection::Serverbound
    }

    open spec fn known_id(id: nat) -> bool {
        id == 0 || id == 1
    }

    fn encode(&self) -> (r: Vec<u8>)
        ensures
            r@ == self.wire_spec(),
            1 <= r@.len(),
    {
        match self {
            ServerboundLoginPacket::Hello(h) => {
                let mut out: Vec<u8> = Vec::new();
                write_varint_u32(&mut out, 0);
                h.write_into(&mut out);
                proof {
                    assert(varint_bytes(0) =~= seq![0u8]);
                    assert(out@ =~= self.wire_spec());
                }
                out
            },
            ServerboundLoginPacket::Key { key_bytes, encrypted_challenge } => {
                let mut out: Vec<u8> = Vec::new();
                write_varint_u32(&mut out, 1);
                write_bytes_prefixed(&mut out, key_bytes);
                write_bytes_prefixed(&mut out, encrypted_challenge);
                proof {
                    assert(varint_bytes(1) =~= seq![1u8]);
                    assert(out@ =~= self.wire_spec());
                }
                out
            },
        }
    }

    fn decode(bytes: &Vec<u8>) -> (r: Result<Self, ReadError>)
        ensures
            r matches Ok(p) ==> Self::decodes(bytes@, p),
            (exists|p: Self| Self::decodes(bytes@, p)) ==> r is Ok,
    {
        let blen: usize = bytes.len();
        proof {
            lemma_varint_parse_consumed(bytes@, 5);
            assert(bytes@.skip(0) =~= bytes@);
        }
        let (id, l0) = match read_varint_u32(bytes, 0) {
            VarRead::Val { value, len } => (value, len),
            VarRead::Incomplete => {
                return Err(ReadError::Decode);
            },
            VarRead::Malformed => {
                return Err(ReadError::MalformedVarInt);
            },
        };
        if id == 0 {
            let (h, l1) = match ServerboundHelloPacket::read_from(bytes, l0) {
                Ok(t) => t,
                Err(e) => {
                    return Err(e);
                },
            };
            if l1 != bytes.len() {
                return Err(ReadError::Decode);
            }
            Ok(ServerboundLoginPacket::Hello(h))
        } else if id == 1 {
            let (key_bytes, l1) = match read_bytes_prefixed(bytes, l0) {
                Ok(t) => t,
                Err(e) => {
                    return Err(e);
                },
            };
            proof {
                assert(bytes@.skip(l0 as int).skip((l1 - l0) as int) =~= bytes@.skip(l1 as int));
            }
            let (encrypted_challenge, l2) = match read_bytes_prefixed(bytes, l1) {
                Ok(t) => t,
                Err(e) => {
                    return Err(e);
                },
            };
            if l2 != bytes.len() {
                return Err(ReadError::Decode);
            }
            Ok(ServerboundLoginPacket::Key { key_bytes, encrypted_challenge })
        } else {
            Err(
                ReadError::UnknownPacket {
                    state: ProtocolState::Login,
                    direction: PacketDirection::Serverbound,
                    id,
                },
            )
        }
    }
}

/// Login serverbound round trip.
pub proof fn lemma_login_serverbound_round_trip(this: &ServerboundLoginPacket)
    requires
        this.encodable(),
    ensures
        ServerboundLoginPacket::decodes(this.wire_spec(), *this),
{
    match this {
        ServerboundLoginPacket::Hello(h) => {
            let s = this.wire_spec();
            assert(varint_bytes(0) =~= seq![0u8]);
            assert(s =~= varint_bytes(0) + hello_wire(h@));
            lemma_varint_round_trip(0, hello_wire(h@), 5);
            assert(s.skip(1) =~= hello_wire(h@) + Seq::<u8>::empty());
            lemma_hello_round_trip(h@, Seq::empty());
        },
        ServerboundLoginPacket::Key { key_bytes, encrypted_challenge } => {
            let s = this.wire_spec();
            assert(varint_bytes(1) =~= seq![1u8]);
            assert(s =~= varint_bytes(1) + (bytes_wire(key_bytes@) + bytes_wire(
                encrypted_challenge@,
            )));
            lemma_varint_round_trip(1, bytes_wire(key_bytes@) + bytes_wire(encrypted_challenge@), 5);
            assert(s.skip(1) =~= bytes_wire(key_bytes@) + (bytes_wire(encrypted_challenge@)
                + Seq::<u8>::empty()));
            lemma_bytes_round_trip(key_bytes@, bytes_wire(encrypted_challenge@) + Seq::empty());
            let l1 = bytes_wire(key_bytes@).len();
            assert(s.skip(1).skip(l1 as int) =~= bytes_wire(encrypted_challenge@)
                + Seq::<u8>::empty());
            lemma_bytes_round_trip(encrypted_challenge@, Seq::empty());
        },
    }
}

} // verus!

verus! {

impl ProtocolPacket for ClientboundLoginPacket {
    open spec fn wire_spec(&self) -> Seq<u8> {
        match self {
            ClientboundLoginPacket::LoginDisconnect { reason } => seq![0u8] + string_wire(reason@),
            ClientboundLoginPacket::Hello { server_id, public_key, challenge } => seq![1u8]
                + string_wire(server_id@) + bytes_wire(public_key@) + bytes_wire(challenge@),
            ClientboundLoginPacket::GameProfile { profile_id, name } => seq![2u8] + be_bytes(
                *profile_id as nat,
                16,
            ) + string_wire(name@),
            ClientboundLoginPacket::LoginCompression { compression_threshold } => seq![3u8]
                + varint_bytes((*compression_threshold as u32) as nat),
        }
    }

    open spec fn decodes(s: Seq<u8>, p: Self) -> bool {
        match p {
            ClientboundLoginPacket::LoginDisconnect { reason } => match id_at(s) {
                Some(i) => i.0 == 0 && string_parse(s.skip(i.1 as int)) == Some(
                    (reason@, (s.len() - i.1) as nat),
                ),
                None => false,
            },
            ClientboundLoginPacket::Hello { server_id, public_key, challenge } => match id_at(s) {
                Some(i) => i.0 == 1 && {
                    let s1 = s.skip(i.1 as int);
                    match string_parse(s1) {
                        Some(d) => d.0 == server_id@ && {
                            let s2 = s1.skip(d.1 as int);
                            match bytes_parse(s2) {
                                Some(k) => k.0 == public_key@ && bytes_parse(s2.skip(k.1 as int))
                                    == Some((challenge@, (s2.len() - k.1) as nat)),
                                None => false,
                            }
                        },
                        None => false,
                    }
                },
                None => false,
            },
            ClientboundLoginPacket::GameProfile { profile_id, name } => match id_at(s) {
                Some(i) => i.0 == 2 && {
                    let s1 = s.skip(i.1 as int);
                    s1.len() >= 16 && be_value(s1.subrange(0, 16)) == profile_id as nat
                        && string_parse(s1.skip(16)) == Some((name@, (s1.len() - 16) as nat))
                },
                None => false,
            },
            ClientboundLoginPacket::LoginCompression { compression_threshold } => match id_at(s) {
                Some(i) => i.0 == 3 && varint_parse(s.skip(i.1 as int), 5) == Some(
                    ((compression_threshold as u32) as nat, (s.len() - i.1) as nat),
                ),
                None => false,
            },
        }
    }

    open spec fn encodable(&self) -> bool {
        match self {
            ClientboundLoginPacket::LoginDisconnect { reason } => vstd::utf8::encode_utf8(
                reason@,
            ).len() <= u32::MAX as nat,
            ClientboundLoginPacket::Hello { server_id, public_key, challenge } =>
                vstd::utf8::encode_utf8(server_id@).len() <= u32::MAX as nat && public_key@.len()
                <= u32::MAX as nat && challenge@.len() <= u32::MAX as nat,
            ClientboundLoginPacket::GameProfile { profile_id, name } => vstd::utf8::encode_utf8(
                name@,
            ).len() <= u32::MAX as nat,
            ClientboundLoginPacket::LoginCompression { .. } => true,
        }
    }

    open spec fn state() -> ProtocolState {
        ProtocolState::Login
    }

    open spec fn direction() -> PacketDirection {
        PacketDirection::Clientbound
    }

    open spec fn known_id(id: nat) -> bool {
        id <= 3
    }

    fn encode(&self) -> (r: Vec<u8>)
        ensures
            r@ == self.wire_spec(),
            1 <= r@.len(),
    {
        match self {
            ClientboundLoginPacket::LoginDisconnect { reason } => {
                let mut out: Vec<u8> = Vec::new();
                write_varint_u32(&mut out, 0);
                write_string(&mut out, reason.as_str());
                proof {
                    assert(varint_bytes(0) =~= seq![0u8]);
                    assert(out@ =~= self.wire_spec());
                }
                out
            },
            ClientboundLoginPacket::Hello { server_id, public_key, challenge } => {
                let mut out: Vec<u8> = Vec::new();
                write_varint_u32(&mut out, 1);
                write_string(&mut out, server_id.as_str());
                write_bytes_prefixed(&mut out, public_key);
                write_bytes_prefixed(&mut out, challenge);
                proof {
                    assert(varint_bytes(1) =~= seq![1u8]);
                    assert(out@ =~= self.wire_spec());
                }
                out
            },
            ClientboundLoginPacket::GameProfile { profile_id, name } => {
                let mut out: Vec<u8> = Vec::new();
                write_varint_u32(&mut out, 2);
                write_be_u128(&mut out, *profile_id, 16);
                write_string(&mut out, name.as_str());
                proof {
                    assert(varint_bytes(2) =~= seq![2u8]);
                    assert(out@ =~= self.wire_spec());
                }
                out
            },
            ClientboundLoginPacket::LoginCompression { compression_threshold } => {
                let mut out: Vec<u8> = Vec::new();
                write_varint_u32(&mut out, 3);
                write_varint_u32(&mut out, *compression_threshold as u32);
                proof {
                    assert(varint_bytes(3) =~= seq![3u8]);
                    assert(out@ =~= self.wire_spec());
                }
                out
            },
        }
    }

    fn decode(bytes: &Vec<u8>) -> (r: Result<Self, ReadError>)
        ensures
            r matches Ok(p) ==> Self::decodes(bytes@, p),
            (exists|p: Self| Self::decodes(bytes@, p)) ==> r is Ok,
    {
        let blen: usize = bytes.len();
        proof {
            lemma_varint_parse_consumed(bytes@, 5);
            assert(bytes@.skip(0) =~= bytes@);
        }
        let (id, l0) = match read_varint_u32(bytes, 0) {
            VarRead::Val { value, len } => (value, len),
            VarRead::Incomplete => {
                return Err(ReadError::Decode);
            },
            VarRead::Malformed => {
                return Err(ReadError::MalformedVarInt);
            },
        };
        if id == 0 {
            let (reason, l1) = match read_string(bytes, l0) {
                Ok(t) => t,
                Err(e) => {
                    return Err(e);
                },
            };
            if l1 != bytes.len() {
                return Err(ReadError::Decode);
            }
            Ok(ClientboundLoginPacket::LoginDisconnect { reason })
        } else if id == 1 {
            let (server_id, l1) = match read_string(bytes, l0) {
                Ok(t) => t,
                Err(e) => {
                    return Err(e);
                },
            };
            proof {
                assert(bytes@.skip(l0 as int).skip((l1 - l0) as int) =~= bytes@.skip(l1 as int));
            }
            let (public_key, l2) = match read_bytes_prefixed(bytes, l1) {
                Ok(t) => t,
                Err(e) => {
                    return Err(e);
                },
            };
            proof {
                assert(bytes@.skip(l1 as int).skip((l2 - l1) as int) =~= bytes@.skip(l2 as int));
            }
            let (challenge, l3) = match read_bytes_prefixed(bytes, l2) {
                Ok(t) => t,
                Err(e) => {
                    return Err(e);
                },
            };
            if l3 != bytes.len() {
                return Err(ReadError::Decode);
            }
            Ok(ClientboundLoginPacket::Hello { server_id, public_key, challenge })
        } else if id == 2 {
            if bytes.len() - l0 < 16 {
                return Err(ReadError::Decode);
            }
            let profile_id: u128 = read_be_u128(bytes, l0, 16);
            proof {
                assert(bytes@.subrange(l0 as int, l0 as int + 16) =~= bytes@.skip(
                    l0 as int,
                ).subrange(0, 16));
                assert(bytes@.skip(l0 as int).skip(16) =~= bytes@.skip(l0 as int + 16));
            }
            let (name, l2) = match read_string(bytes, l0 + 16) {
                Ok(t) => t,
                Err(e) => {
                    return Err(e);
                },
            };
            if l2 != bytes.len() {
                return Err(ReadError::Decode);
            }
            Ok(ClientboundLoginPacket::GameProfile { profile_id, name })
        } else if id == 3 {
            proof {
                lemma_varint_parse_consumed(bytes@.skip(l0 as int), 5);
            }
            let (raw, l1) = match read_varint_u32(bytes, l0) {
                VarRead::Val { value, len } => {
                    proof {
                        assert(len <= bytes@.len() - l0);
                    }
                    (value, l0 + len)
                },
                VarRead::Incomplete => {
                    return Err(ReadError::Decode);
                },
                VarRead::Malformed => {
                    return Err(ReadError::MalformedVarInt);
                },
            };
            if l1 != bytes.len() {
                return Err(ReadError::Decode);
            }
            proof {
                assert((raw as i32) as u32 == raw) by (bit_vector);
            }
            Ok(ClientboundLoginPacket::LoginCompression { compression_threshold: raw as i32 })
        } else {
            Err(
                ReadError::UnknownPacket {
                    state: ProtocolState::Login,
                    direction: PacketDirection::Clientbound,
                    id,
                },
            )
        }
    }
}

/// Login clientbound round trip.
pub proof fn lemma_login_clientbound_round_trip(this: &ClientboundLoginPacket)
    requires
        this.encodable(),
    ensures
        ClientboundLoginPacket::decodes(this.wire_spec(), *this),
{
    vstd::arithmetic::power2::lemma2_to64();
    vstd::arithmetic::power2::lemma2_to64_rest();
    match this {
        ClientboundLoginPacket::LoginDisconnect { reason } => {
            let s = this.wire_spec();
            assert(varint_bytes(0) =~= seq![0u8]);
            assert(s =~= varint_bytes(0) + string_wire(reason@));
            lemma_varint_round_trip(0, string_wire(reason@), 5);
            assert(s.skip(1) =~= string_wire(reason@) + Seq::<u8>::empty());
            lemma_string_round_trip(reason@, Seq::empty());
        },
        ClientboundLoginPacket::Hello { server_id, public_key, challenge } => {
            let s = this.wire_spec();
            assert(varint_bytes(1) =~= seq![1u8]);
            let rest1 = string_wire(server_id@) + (bytes_wire(public_key@) + (bytes_wire(
                challenge@,
            ) + Seq::<u8>::empty()));
            assert(s =~= varint_bytes(1) + rest1);
            lemma_varint_round_trip(1, rest1, 5);
            assert(s.skip(1) =~= rest1);
            lemma_string_round_trip(
                server_id@,
                bytes_wire(public_key@) + (bytes_wire(challenge@) + Seq::<u8>::empty()),
            );
            let l1 = string_wire(server_id@).len();
            assert(rest1.skip(l1 as int) =~= bytes_wire(public_key@) + (bytes_wire(challenge@)
                + Seq::<u8>::empty()));
            lemma_bytes_round_trip(public_key@, bytes_wire(challenge@) + Seq::<u8>::empty());
            let l2 = bytes_wire(public_key@).len();
            assert(rest1.skip(l1 as int).skip(l2 as int) =~= bytes_wire(challenge@)
                + Seq::<u8>::empty());
            lemma_bytes_round_trip(challenge@, Seq::empty());
        },
        ClientboundLoginPacket::GameProfile { profile_id, name } => {
            let s = this.wire_spec();
            assert(varint_bytes(2) =~= seq![2u8]);
            let rest1 = be_bytes(*profile_id as nat, 16) + string_wire(name@);
            assert(s =~= varint_bytes(2) + rest1);
            lemma_varint_round_trip(2, rest1, 5);
            assert(s.skip(1) =~= rest1);
            lemma_be_bytes_len(*profile_id as nat, 16);
            assert(rest1.subrange(0, 16) =~= be_bytes(*profile_id as nat, 16));
            vstd::arithmetic::power2::lemma_pow2_adds(64, 64);
            lemma_be_round_trip(*profile_id as nat, 16);
            assert(rest1.skip(16) =~= string_wire(name@) + Seq::<u8>::empty());
            lemma_string_round_trip(name@, Seq::empty());
        },
        ClientboundLoginPacket::LoginCompression { compression_threshold } => {
            let s = this.wire_spec();
            assert(varint_bytes(3) =~= seq![3u8]);
            let rest1 = varint_bytes((*compression_threshold as u32) as nat);
            assert(s =~= varint_bytes(3) + rest1);
            lemma_varint_round_trip(3, rest1, 5);
            assert(s.skip(1) =~= rest1);
            lemma_varint_bytes_len((*compression_threshold as u32) as nat, 5);
            lemma_varint_round_trip((*compression_threshold as u32) as nat, Seq::empty(), 5);
            assert(rest1 + Seq::<u8>::empty() =~= rest1);
        },
    }
}

} // verus!

verus! {

impl ProtocolPacket for ServerboundGamePacket {
    open spec fn wire_spec(&self) -> Seq<u8> {
        match self {
            ServerboundGamePacket::KeepAlive { id } => seq![0u8] + be_bytes(*id as nat, 8),
            ServerboundGamePacket::Chat { message } => seq![1u8] + string_wire(message@),
        }
    }

    open spec fn decodes(s: Seq<u8>, p: Self) -> bool {
        match p {
            ServerboundGamePacket::KeepAlive { id } => match id_at(s) {
                Some(i) => i.0 == 0 && s.len() == i.1 + 8 && be_value(
                    s.subrange(i.1 as int, i.1 as int + 8),
                ) == id as nat,
                None => false,
            },
            ServerboundGamePacket::Chat { message } => match id_at(s) {
                Some(i) => i.0 == 1 && string_parse(s.skip(i.1 as int)) == Some(
                    (message@, (s.len() - i.1) as nat),
                ),
                None => false,
            },
        }
    }

    open spec fn encodable(&self) -> bool {
        match self {
            ServerboundGamePacket::KeepAlive { .. } => true,
            ServerboundGamePacket::Chat { message } => vstd::utf8::encode_utf8(message@).len()
                <= u32::MAX as nat,
        }
    }

    open spec fn state() -> ProtocolState {
        ProtocolState::Game
    }

    open spec fn direction() -> PacketDirection {
        PacketDirection::Serverbound
    }

    open spec fn known_id(id: nat) -> bool {
        id == 0 || id == 1
    }

    fn encode(&self) -> (r: Vec<u8>)
        ensures
            r@ == self.wire_spec(),
            1 <= r@.len(),
    {
        match self {
            ServerboundGamePacket::KeepAlive { id } => {
                let mut out: Vec<u8> = Vec::new();
                write_varint_u32(&mut out, 0);
                write_be_u64(&mut out, *id, 8);
                proof {
                    assert(varint_bytes(0) =~= seq![0u8]);
                    assert(out@ =~= self.wire_spec());
                }
                out
            },
            ServerboundGamePacket::Chat { message } => {
                let mut out: Vec<u8> = Vec::new();
                write_varint_u32(&mut out, 1);
                write_string(&mut out, message.as_str());
                proof {
                    assert(varint_bytes(1) =~= seq![1u8]);
                    assert(out@ =~= self.wire_spec());
                }
                out
            },
        }
    }

    fn decode(bytes: &Vec<u8>) -> (r: Result<Self, ReadError>)
        ensures
            r matches Ok(p) ==> Self::decodes(bytes@, p),
            (exists|p: Self| Self::decodes(bytes@, p)) ==> r is Ok,
    {
        let blen: usize = bytes.len();
        proof {
            lemma_varint_parse_consumed(bytes@, 5);
            assert(bytes@.skip(0) =~= bytes@);
        }
        let (id, l0) = match read_varint_u32(bytes, 0) {
            VarRead::Val { value, len } => (value, len),
            VarRead::Incomplete => {
                return Err(ReadError::Decode);
            },
            VarRead::Malformed => {
                return Err(ReadError::MalformedVarInt);
            },
        };
        if id == 0 {
            if bytes.len() - l0 != 8 {
                return Err(ReadError::Decode);
            }
            let ka: u64 = read_be_u64(bytes, l0, 8);
            Ok(ServerboundGamePacket::KeepAlive { id: ka })
        } else if id == 1 {
            let (message, l1) = match read_string(bytes, l0) {
                Ok(t) => t,
                Err(e) => {
                    return Err(e);
                },
            };
            if l1 != bytes.len() {
                return Err(ReadError::Decode);
            }
            Ok(ServerboundGamePacket::Chat { message })
        } else {
            Err(
                ReadError::UnknownPacket {
                    state: ProtocolState::Game,
                    direction: PacketDirection::Serverbound,
                    id,
                },
            )
        }
    }
}

/// Game serverbound round trip.
pub proof fn lemma_game_serverbound_round_trip(this: &ServerboundGamePacket)
    requires
        this.encodable(),
    ensures
        ServerboundGamePacket::decodes(this.wire_spec(), *this),
{
    vstd::arithmetic::power2::lemma2_to64();
    match this {
        ServerboundGamePacket::KeepAlive { id } => {
            let s = this.wire_spec();
            assert(varint_bytes(0) =~= seq![0u8]);
            assert(s =~= varint_bytes(0) + be_bytes(*id as nat, 8));
            lemma_varint_round_trip(0, be_bytes(*id as nat, 8), 5);
            lemma_be_bytes_len(*id as nat, 8);
            assert(s.subrange(1, 9) =~= be_bytes(*id as nat, 8));
            lemma_be_round_trip(*id as nat, 8);
        },
        ServerboundGamePacket::Chat { message } => {
            let s = this.wire_spec();
            assert(varint_bytes(1) =~= seq![1u8]);
            assert(s =~= varint_bytes(1) + string_wire(message@));
            lemma_varint_round_trip(1, string_wire(message@), 5);
            assert(s.skip(1) =~= string_wire(message@) + Seq::<u8>::empty());
            lemma_string_round_trip(message@, Seq::empty());
        },
    }
}

impl ProtocolPacket for ClientboundGamePacket {
    open spec fn wire_spec(&self) -> Seq<u8> {
        match self {
            ClientboundGamePacket::KeepAlive { id } => seq![0u8] + be_bytes(*id as nat, 8),
            ClientboundGamePacket::Disconnect { reason } => seq![1u8] + string_wire(reason@),
        }
    }

    open spec fn decodes(s: Seq<u8>, p: Self) -> bool {
        match p {
            ClientboundGamePacket::KeepAlive { id } => match id_at(s) {
                Some(i) => i.0 == 0 && s.len() == i.1 + 8 && be_value(
                    s.subrange(i.1 as int, i.1 as int + 8),
                ) == id as nat,
                None => false,
            },
            ClientboundGamePacket::Disconnect { reason } => match id_at(s) {
                Some(i) => i.0 == 1 && string_parse(s.skip(i.1 as int)) == Some(
                    (reason@, (s.len() - i.1) as nat),
                ),
                None => false,
            },
        }
    }

    open spec fn encodable(&self) -> bool {
        match self {
            ClientboundGamePacket::KeepAlive { .. } => true,
            ClientboundGamePacket::Disconnect { reason } => vstd::utf8::encode_utf8(reason@).len()
                <= u32::MAX as nat,
        }
    }

    open spec fn state() -> ProtocolState {
        ProtocolState::Game
    }

    open spec fn direction() -> PacketDirection {
        PacketDirection::Clientbound
    }

    open spec fn known_id(id: nat) -> bool {
        id == 0 || id == 1
    }

    fn encode(&self) -> (r: Vec<u8>)
        ensures
            r@ == self.wire_spec(),
            1 <= r@.len(),
    {
        match self {
            ClientboundGamePacket::KeepAlive { id } => {
                let mut out: Vec<u8> = Vec::new();
                write_varint_u32(&mut out, 0);
                write_be_u64(&mut out, *id, 8);
                proof {
                    assert(varint_bytes(0) =~= seq![0u8]);
                    assert(out@ =~= self.wire_spec());
                }
                out
            },
            ClientboundGamePacket::Disconnect { reason } => {
                let mut out: Vec<u8> = Vec::new();
                write_varint_u32(&mut out, 1);
                write_string(&mut out, reason.as_str());
                proof {
                    assert(varint_bytes(1) =~= seq![1u8]);
                    assert(out@ =~= self.wire_spec());
                }
                out
            },
        }
    }

    fn decode(bytes: &Vec<u8>) -> (r: Result<Self, ReadError>)
        ensures
            r matches Ok(p) ==> Self::decodes(bytes@, p),
            (exists|p: Self| Self::decodes(bytes@, p)) ==> r is Ok,
    {
        let blen: usize = bytes.len();
        proof {
            lemma_varint_parse_consumed(bytes@, 5);
            assert(bytes@.skip(0) =~= bytes@);
        }
        let (id, l0) = match read_varint_u32(bytes, 0) {
            VarRead::Val { value, len } => (value, len),
            VarRead::Incomplete => {
                return Err(ReadError::Decode);
            },
            VarRead::Malformed => {
                return Err(ReadError::MalformedVarInt);
            },
        };
        if id == 0 {
            if bytes.len() - l0 != 8 {
                return Err(ReadError::Decode);
            }
            let ka: u64 = read_be_u64(bytes, l0, 8);
            Ok(ClientboundGamePacket::KeepAlive { id: ka })
        } else if id == 1 {
            let (reason, l1) = match read_string(bytes, l0) {
                Ok(t) => t,
                Err(e) => {
                    return Err(e);
                },
            };
            if l1 != bytes.len() {
                return Err(ReadError::Decode);
            }
            Ok(ClientboundGamePacket::Disconnect { reason })
        } else {
            Err(
                ReadError::UnknownPacket {
                    state: ProtocolState::Game,
                    direction: PacketDirection::Clientbound,
                    id,
                },
            )
        }
    }
}

/// Game clientbound round trip.
pub proof fn lemma_game_clientbound_round_trip(this: &ClientboundGamePacket)
    requires
        this.encodable(),
    ensures
        ClientboundGamePacket::decodes(this.wire_spec(), *this),
{
    vstd::arithmetic::power2::lemma2_to64();
    match this {
        ClientboundGamePacket::KeepAlive { id } => {
            let s = this.wire_spec();
            assert(varint_bytes(0) =~= seq![0u8]);
            assert(s =~= varint_bytes(0) + be_bytes(*id as nat, 8));
            lemma_varint_round_trip(0, be_bytes(*id as nat, 8), 5);
            lemma_be_bytes_len(*id as nat, 8);
            assert(s.subrange(1, 9) =~= be_bytes(*id as nat, 8));
            lemma_be_round_trip(*id as nat, 8);
        },
        ClientboundGamePacket::Disconnect { reason } => {
            let s = this.wire_spec();
            assert(varint_bytes(1) =~= seq![1u8]);
            assert(s =~= varint_bytes(1) + string_wire(reason@));
            lemma_varint_round_trip(1, string_wire(reason@), 5);
            assert(s.skip(1) =~= string_wire(reason@) + Seq::<u8>::empty());
            lemma_string_round_trip(reason@, Seq::empty());
        },
    }
}

} // verus!

verus! {

/// What one poll of the read half produced.
pub enum ReadPoll<R> {
    /// A whole frame was buffered and decoded.
    Packet(R),
    /// The buffer does not yet hold a whole frame.
    NeedMoreData,
    /// The buffered bytes cannot be a frame, or its packet cannot decode.
    Failed(ReadError),
}

/// The read half of a connection: inbound bytes are decrypted as they
/// arrive and accumulate until a whole frame can be decoded.
pub struct ReadConnection<R: ProtocolPacket> {
    pub buffer: Vec<u8>,
    pub compression_threshold: Option<u32>,
    pub dec_cipher: Option<Cfb8>,
    pub _reading: PhantomData<R>,
}

/// The write half of a connection.
pub struct WriteConnection<W: ProtocolPacket> {
    pub compression_threshold: Option<u32>,
    pub enc_cipher: Option<Cfb8>,
    pub _writing: PhantomData<W>,
}

impl<R: ProtocolPacket> ReadConnection<R> {
    pub open spec fn wf(&self) -> bool {
        match self.dec_cipher {
            Some(c) => c.wf(),
            None => true,
        }
    }

    /// Take bytes off the stream: decrypt them if a cipher is installed and
    /// append them to the frame buffer.
    pub fn feed(&mut self, chunk: &Vec<u8>)
        requires
            old(self).wf(),
        ensures
            final(self).wf(),
            final(self).compression_threshold == old(self).compression_threshold,
            (match old(self).dec_cipher {
                None => final(self).buffer@ == old(self).buffer@ + chunk@ && final(self).dec_cipher
                    is None,
                Some(c) => {
                    &&& final(self).buffer@ == old(self).buffer@ + cfb8_dec(c.key@, c.iv@, chunk@)
                    &&& final(self).dec_cipher matches Some(d) && d.key@ == c.key@ && d.iv@
                        == cfb8_dec_iv(c.key@, c.iv@, chunk@)
                },
            }),
    {
        proof {
            assert(chunk@.subrange(0, chunk@.len() as int) =~= chunk@);
        }
        match &mut self.dec_cipher {
            Some(c) => {
                let mut d = copy_range(chunk, 0, chunk.len());
                c.decrypt(&mut d);
                self.buffer.append(&mut d);
            },
            None => {
                self.buffer.extend_from_slice(chunk.as_slice());
            },
        }
    }

    /// Try to decode one frame from the buffer: parse the length prefix,
    /// take that many bytes, undo compression, and decode the packet. The
    /// frame's bytes are consumed exactly when a whole frame is buffered.
    pub fn read(&mut self) -> (r: ReadPoll<R>)
        requires
            old(self).wf(),
        ensures
            final(self).wf(),
            final(self).compression_threshold == old(self).compression_threshold,
            final(self).dec_cipher == old(self).dec_cipher,
            (match varint_parse(old(self).buffer@, 5) {
                Some(p) => if p.0 > u32::MAX as nat {
                    r matches ReadPoll::Failed(e) && e == ReadError::MalformedVarInt
                        && final(self).buffer == old(self).buffer
                } else if p.0 > MAX_FRAME_LEN as nat {
                    r matches ReadPoll::Failed(e) && e == ReadError::FrameTooLarge
                        && final(self).buffer == old(self).buffer
                } else if old(self).buffer@.len() < p.1 + p.0 {
                    r is NeedMoreData && final(self).buffer == old(self).buffer
                } else {
                    final(self).buffer@ == old(self).buffer@.skip((p.1 + p.0) as int) && (
                    match frame_body_parse(
                        old(self).buffer@.subrange(p.1 as int, (p.1 + p.0) as int),
                        old(self).compression_threshold is Some,
                    ) {
                        Some(pb) => {
                            &&& (r is Packet || r is Failed)
                            &&& (r matches ReadPoll::Packet(q) ==> R::decodes(pb, q))
                            &&& ((exists|q: R| R::decodes(pb, q)) ==> r is Packet)
                            &&& (match varint_parse(pb, 5) {
                                Some(i) => (i.0 <= u32::MAX as nat && !R::known_id(i.0)) ==> r
                                    == ReadPoll::<R>::Failed(
                                    ReadError::UnknownPacket {
                                        state: R::state(),
                                        direction: R::direction(),
                                        id: i.0 as u32,
                                    },
                                ),
                                None => true,
                            })
                        },
                        None => r matches ReadPoll::Failed(e) && e == frame_body_error(
                            old(self).buffer@.subrange(p.1 as int, (p.1 + p.0) as int),
                            old(self).compression_threshold is Some,
                        ),
                    })
                },
                None => if varint_incomplete(old(self).buffer@, 5) {
                    r is NeedMoreData && final(self).buffer == old(self).buffer
                } else {
                    r matches ReadPoll::Failed(e) && e == ReadError::MalformedVarInt
                        && final(self).buffer == old(self).buffer
                },
            }),
    {
        proof {
            lemma_varint_parse_consumed(self.buffer@, 5);
            assert(self.buffer@.skip(0) =~= self.buffer@);
        }
        let (body_len, l0) = match read_varint_u32(&self.buffer, 0) {
            VarRead::Val { value, len } => (value, len),
            VarRead::Incomplete => {
                return ReadPoll::NeedMoreData;
            },
            VarRead::Malformed => {
                return ReadPoll::Failed(ReadError::MalformedVarInt);
            },
        };
        if body_len as usize > MAX_FRAME_LEN {
            return ReadPoll::Failed(ReadError::FrameTooLarge);
        }
        if self.buffer.len() - l0 < body_len as usize {
            return ReadPoll::NeedMoreData;
        }
        let end: usize = l0 + body_len as usize;
        let body = copy_range(&self.buffer, l0, end);
        let rest = copy_range(&self.buffer, end, self.buffer.len());
        self.buffer = rest;
        let packet_bytes = match decode_frame_body(&body, self.compression_threshold.is_some()) {
            Ok(v) => v,
            Err(e) => {
                return ReadPoll::Failed(e);
            },
        };
        match R::decode(&packet_bytes) {
            Ok(p) => ReadPoll::Packet(p),
            Err(e) => ReadPoll::Failed(e),
        }
    }
}

impl<W: ProtocolPacket> WriteConnection<W> {
    pub open spec fn wf(&self) -> bool {
        match self.enc_cipher {
            Some(c) => c.wf(),
            None => true,
        }
    }

    /// Serialize a packet into its wire bytes: encode, compress when
    /// eligible, prepend the frame length, encrypt. Fails only when the
    /// compressed body outgrows its length prefix.
    pub fn write(&mut self, packet: &W) -> (r: Result<Vec<u8>, ReadError>)
        requires
            old(self).wf(),
            packet.encodable(),
            1 <= packet.wire_spec().len() <= MAX_FRAME_LEN,
        ensures
            final(self).wf(),
            final(self).compression_threshold == old(self).compression_threshold,
            old(self).compression_threshold is None ==> r is Ok,
            (old(self).compression_threshold matches Some(t) && packet.wire_spec().len() < t
                && packet.wire_spec().len() + 1 <= MAX_FRAME_LEN) ==> r is Ok,
            (match r {
                Ok(w) => match old(self).enc_cipher {
                    None => frame_exact(
                        w@,
                        packet.wire_spec(),
                        old(self).compression_threshold,
                    ) && frame_within_cap(w@) && final(self).enc_cipher is None,
                    Some(c) => exists|plain: Seq<u8>|
                        {
                            &&& w@ == #[trigger] cfb8_enc(c.key@, c.iv@, plain)
                            &&& frame_exact(
                                plain,
                                packet.wire_spec(),
                                old(self).compression_threshold,
                            )
                            &&& frame_within_cap(plain)
                            &&& final(self).enc_cipher matches Some(d) && d.key@ == c.key@
                                && d.iv@ == cfb8_enc_iv(c.key@, c.iv@, plain)
                        },
                },
                Err(e) => e == ReadError::FrameTooLarge && old(self).compression_threshold is Some,
            }),
    {
        let wire = packet.encode();
        let body = encode_frame_body(&wire, self.compression_threshold);
        if body.len() > MAX_FRAME_LEN {
            return Err(ReadError::FrameTooLarge);
        }
        let mut framed: Vec<u8> = Vec::new();
        write_varint_u32(&mut framed, body.len() as u32);
        framed.extend_from_slice(body.as_slice());
        proof {
            vstd::arithmetic::power2::lemma2_to64();
            vstd::arithmetic::power2::lemma2_to64_rest();
            lemma_varint_bytes_len(body@.len(), 5);
            lemma_varint_round_trip(body@.len(), body@, 5);
            assert(framed@ =~= varint_bytes(body@.len()) + body@);
            assert(framed@.skip(varint_bytes(body@.len()).len() as int) =~= body@);
            assert(frame_exact(framed@, packet.wire_spec(), self.compression_threshold));
            assert(frame_within_cap(framed@));
        }
        match &mut self.enc_cipher {
            Some(c) => {
                let ghost plain = framed@;
                let ghost key0 = c.key@;
                let ghost iv0 = c.iv@;
                c.encrypt(&mut framed);
                proof {
                    assert(framed@ == cfb8_enc(key0, iv0, plain));
                }
                Ok(framed)
            },
            None => Ok(framed),
        }
    }
}

} // verus!

verus! {

/// A connection that can read `R` packets and write `W` packets. The type
/// parameters are the protocol state: a read can only yield the variants
/// registered for that state, and transitions consume the typed view.
pub struct Connection<R: ProtocolPacket, W: ProtocolPacket> {
    pub reader: ReadConnection<R>,
    pub writer: WriteConnection<W>,
}

impl<R: ProtocolPacket, W: ProtocolPacket> Connection<R, W> {
    pub open spec fn wf(&self) -> bool {
        self.reader.wf() && self.writer.wf()
    }

    /// Try to decode one buffered packet from the other side.
    pub fn read(&mut self) -> (r: ReadPoll<R>)
        requires
            old(self).wf(),
        ensures
            final(self).wf(),
            final(self).writer == old(self).writer,
            final(self).reader.compression_threshold == old(self).reader.compression_threshold,
            final(self).reader.dec_cipher == old(self).reader.dec_cipher,
            (match varint_parse(old(self).reader.buffer@, 5) {
                Some(p) => if p.0 > u32::MAX as nat {
                    r matches ReadPoll::Failed(e) && e == ReadError::MalformedVarInt
                        && final(self).reader.buffer == old(self).reader.buffer
                } else if p.0 > MAX_FRAME_LEN as nat {
                    r matches ReadPoll::Failed(e) && e == ReadError::FrameTooLarge
                        && final(self).reader.buffer == old(self).reader.buffer
                } else if old(self).reader.buffer@.len() < p.1 + p.0 {
                    r is NeedMoreData && final(self).reader.buffer == old(self).reader.buffer
                } else {
                    final(self).reader.buffer@ == old(self).reader.buffer@.skip(
                        (p.1 + p.0) as int,
                    ) && (match frame_body_parse(
                        old(self).reader.buffer@.subrange(p.1 as int, (p.1 + p.0) as int),
                        old(self).reader.compression_threshold is Some,
                    ) {
                        Some(pb) => {
                            &&& (r is Packet || r is Failed)
                            &&& (r matches ReadPoll::Packet(q) ==> R::decodes(pb, q))
                            &&& ((exists|q: R| R::decodes(pb, q)) ==> r is Packet)
                            &&& (match varint_parse(pb, 5) {
                                Some(i) => (i.0 <= u32::MAX as nat && !R::known_id(i.0)) ==> r
                                    == ReadPoll::<R>::Failed(
                                    ReadError::UnknownPacket {
                                        state: R::state(),
                                        direction: R::direction(),
                                        id: i.0 as u32,
                                    },
                                ),
                                None => true,
                            })
                        },
                        None => r matches ReadPoll::Failed(e) && e == frame_body_error(
                            old(self).reader.buffer@.subrange(p.1 as int, (p.1 + p.0) as int),
                            old(self).reader.compression_threshold is Some,
                        ),
                    })
                },
                None => if varint_incomplete(old(self).reader.buffer@, 5) {
                    r is NeedMoreData && final(self).reader.buffer == old(self).reader.buffer
                } else {
                    r matches ReadPoll::Failed(e) && e == ReadError::MalformedVarInt
                        && final(self).reader.buffer == old(self).reader.buffer
                },
            }),
    {
        self.reader.read()
    }

    /// Serialize a packet into the bytes to send to the other side.
    pub fn write(&mut self, packet: &W) -> (r: Result<Vec<u8>, ReadError>)
        requires
            old(self).wf(),
            packet.encodable(),
            1 <= packet.wire_spec().len() <= MAX_FRAME_LEN,
        ensures
            final(self).wf(),
            final(self).reader == old(self).reader,
            final(self).writer.compression_threshold == old(self).writer.compression_threshold,
            old(self).writer.compression_threshold is None ==> r is Ok,
            (old(self).writer.compression_threshold matches Some(t) && packet.wire_spec().len()
                < t && packet.wire_spec().len() + 1 <= MAX_FRAME_LEN) ==> r is Ok,
            (match r {
                Ok(w) => match old(self).writer.enc_cipher {
                    None => frame_exact(
                        w@,
                        packet.wire_spec(),
                        old(self).writer.compression_threshold,
                    ) && frame_within_cap(w@) && final(self).writer.enc_cipher is None,
                    Some(c) => exists|plain: Seq<u8>|
                        {
                            &&& w@ == #[trigger] cfb8_enc(c.key@, c.iv@, plain)
                            &&& frame_exact(
                                plain,
                                packet.wire_spec(),
                                old(self).writer.compression_threshold,
                            )
                            &&& frame_within_cap(plain)
                            &&& final(self).writer.enc_cipher matches Some(d) && d.key@ == c.key@
                                && d.iv@ == cfb8_enc_iv(c.key@, c.iv@, plain)
                        },
                },
                Err(e) => e == ReadError::FrameTooLarge && old(self).writer.compression_threshold
                    is Some,
            }),
    {
        self.writer.write(packet)
    }

    /// Split the reader and writer into two objects. This does not copy
    /// any buffered state.
    pub fn into_split(self) -> (r: (ReadConnection<R>, WriteConnection<W>))
        ensures
            r.0 == self.reader,
            r.1 == self.writer,
    {
        (self.reader, self.writer)
    }
}

/// Move the untyped core between two typed views: buffered bytes, the
/// compression threshold and the cipher state carry over.
fn convert<R1: ProtocolPacket, W1: ProtocolPacket, R2: ProtocolPacket, W2: ProtocolPacket>(
    connection: Connection<R1, W1>,
) -> (r: Connection<R2, W2>)
    ensures
        r.reader.buffer == connection.reader.buffer,
        r.reader.compression_threshold == connection.reader.compression_threshold,
        r.reader.dec_cipher == connection.reader.dec_cipher,
        r.writer.compression_threshold == connection.writer.compression_threshold,
        r.writer.enc_cipher == connection.writer.enc_cipher,
{
    Connection {
        reader: ReadConnection {
            buffer: connection.reader.buffer,
            compression_threshold: connection.reader.compression_threshold,
            dec_cipher: connection.reader.dec_cipher,
            _reading: PhantomData,
        },
        writer: WriteConnection {
            compression_threshold: connection.writer.compression_threshold,
            enc_cipher: connection.writer.enc_cipher,
            _writing: PhantomData,
        },
    }
}

impl Connection<ClientboundHandshakePacket, ServerboundHandshakePacket> {
    /// A fresh connection: handshake state, no compression, no encryption,
    /// nothing buffered. The I/O layer owns the socket.
    pub fn new() -> (r: Connection<ClientboundHandshakePacket, ServerboundHandshakePacket>)
        ensures
            r.wf(),
            r.reader.buffer@ == Seq::<u8>::empty(),
            r.reader.compression_threshold is None,
            r.reader.dec_cipher is None,
            r.writer.compression_threshold is None,
            r.writer.enc_cipher is None,
    {
        Connection {
            reader: ReadConnection {
                buffer: Vec::new(),
                compression_threshold: None,
                dec_cipher: None,
                _reading: PhantomData,
            },
            writer: WriteConnection {
                compression_threshold: None,
                enc_cipher: None,
                _writing: PhantomData,
            },
        }
    }

    /// Change our state from handshake to login. This is the state that is
    /// used for logging in.
    pub fn login(self) -> (r: Connection<ClientboundLoginPacket, ServerboundLoginPacket>)
        requires
            self.wf(),
        ensures
            r.wf(),
            r.reader.buffer == self.reader.buffer,
            r.reader.compression_threshold == self.reader.compression_threshold,
            r.reader.dec_cipher == self.reader.dec_cipher,
            r.writer.compression_threshold == self.writer.compression_threshold,
            r.writer.enc_cipher == self.writer.enc_cipher,
    {
        convert(self)
    }

    /// Change our state from handshake to status. This is the state that is
    /// used for pinging the server.
    pub fn status(self) -> (r: Connection<ClientboundStatusPacket, ServerboundStatusPacket>)
        requires
            self.wf(),
        ensures
            r.wf(),
            r.reader.buffer == self.reader.buffer,
            r.reader.compression_threshold == self.reader.compression_threshold,
            r.reader.dec_cipher == self.reader.dec_cipher,
            r.writer.compression_threshold == self.writer.compression_threshold,
            r.writer.enc_cipher == self.writer.enc_cipher,
    {
        convert(self)
    }
}

impl Connection<ClientboundLoginPacket, ServerboundLoginPacket> {
    /// Set our compression threshold: the minimum size a packet must reach
    /// before it is compressed. Negative thresholds disable compression.
    pub fn set_compression_threshold(&mut self, threshold: i32)
        requires
            old(self).wf(),
        ensures
            final(self).wf(),
            threshold >= 0 ==> {
                &&& final(self).reader.compression_threshold == Some(threshold as u32)
                &&& final(self).writer.compression_threshold == Some(threshold as u32)
            },
            threshold < 0 ==> {
                &&& final(self).reader.compression_threshold is None
                &&& final(self).writer.compression_threshold is None
            },
            final(self).reader.buffer == old(self).reader.buffer,
            final(self).reader.dec_cipher == old(self).reader.dec_cipher,
            final(self).writer.enc_cipher == old(self).writer.enc_cipher,
    {
        if threshold >= 0 {
            self.reader.compression_threshold = Some(threshold as u32);
            self.writer.compression_threshold = Some(threshold as u32);
        } else {
            self.reader.compression_threshold = None;
            self.writer.compression_threshold = None;
        }
    }

    /// Set the encryption key that is used to encrypt and decrypt packets;
    /// both halves get a cipher seeded from it.
    pub fn set_encryption_key(&mut self, key: &Vec<u8>)
        requires
            old(self).wf(),
            key@.len() == 16,
        ensures
            final(self).wf(),
            final(self).reader.dec_cipher matches Some(d) && d.key@ == key@ && d.iv@ == key@,
            final(self).writer.enc_cipher matches Some(e) && e.key@ == key@ && e.iv@ == key@,
            final(self).reader.buffer == old(self).reader.buffer,
            final(self).reader.compression_threshold == old(self).reader.compression_threshold,
            final(self).writer.compression_threshold == old(self).writer.compression_threshold,
    {
        let (enc_cipher, dec_cipher) = crate::cipher::create_cipher(key);
        self.reader.dec_cipher = Some(dec_cipher);
        self.writer.enc_cipher = Some(enc_cipher);
    }

    /// Change our state from login to game. This is the state that is used
    /// when you are actually in the game.
    pub fn game(self) -> (r: Connection<ClientboundGamePacket, ServerboundGamePacket>)
        requires
            self.wf(),
        ensures
            r.wf(),
            r.reader.buffer == self.reader.buffer,
            r.reader.compression_threshold == self.reader.compression_threshold,
            r.reader.dec_cipher == self.reader.dec_cipher,
            r.writer.compression_threshold == self.writer.compression_threshold,
            r.writer.enc_cipher == self.writer.enc_cipher,
    {
        convert(self)
    }
}

} // verus!
