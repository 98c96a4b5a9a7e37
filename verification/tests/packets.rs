//! Packet decoding and the per-variant round trips of the registry.

use mcproto::chat::ChatType;
use mcproto::conn::{
    ClientIntentionPacket, ClientboundGamePacket, ClientboundLoginPacket, ClientboundStatusPacket,
    ProtocolPacket, ServerboundGamePacket, ServerboundHandshakePacket, ServerboundLoginPacket,
    ServerboundStatusPacket,
};
use mcproto::error::ReadError;
use mcproto::hello::{ProfilePublicKeyData, RemoteChatSessionData, ServerboundHelloPacket};

#[test]
fn test_chat_type() {
    let chat_type_enum = ChatType::read_from(&vec![0x06], 0).unwrap().0;
    assert_eq!(chat_type_enum, ChatType::EmoteCommand);
    // a discriminant past the last variant is a decode failure
    assert!(ChatType::read_from(&vec![0x07], 0).is_err());
}

#[test]
fn chat_type_all_ids_round_trip() {
    let all = [
        ChatType::Chat,
        ChatType::SayCommand,
        ChatType::MsgCommandIncoming,
        ChatType::MsgCommandOutgoing,
        ChatType::TeamMsgCommandIncoming,
        ChatType::TeamMsgCommandOutgoing,
        ChatType::EmoteCommand,
    ];
    for ct in all {
        let mut buf: Vec<u8> = Vec::new();
        ct.write_into(&mut buf);
        let (back, end) = ChatType::read_from(&buf, 0).unwrap();
        assert_eq!(back, ct);
        assert_eq!(end, buf.len());
    }
}

#[test]
fn test_read_write() {
    let packet = ServerboundHelloPacket {
        name: "test".to_string(),
        chat_session: RemoteChatSessionData { session_id: 0, profile_public_key: None },
        profile_id: Some(0),
    };
    let mut buf: Vec<u8> = Vec::new();
    packet.write_into(&mut buf);
    let packet2 = ServerboundHelloPacket::read_from(&buf, 0).unwrap().0;
    assert_eq!(packet, packet2);
}

#[test]
fn hello_with_key_round_trip() {
    let packet = ServerboundHelloPacket {
        name: "someone".to_string(),
        chat_session: RemoteChatSessionData {
            session_id: 0x0123_4567_89ab_cdef_0011_2233_4455_6677,
            profile_public_key: Some(ProfilePublicKeyData {
                expires_at: 9_999_999,
                key: vec![1, 2, 3, 4],
                key_signature: vec![9, 8, 7],
            }),
        },
        profile_id: None,
    };
    let mut buf: Vec<u8> = Vec::new();
    packet.write_into(&mut buf);
    let (packet2, end) = ServerboundHelloPacket::read_from(&buf, 0).unwrap();
    assert_eq!(packet, packet2);
    assert_eq!(end, buf.len());
}

fn round_trips<P: ProtocolPacket + PartialEq + std::fmt::Debug>(p: P) {
    let wire = p.encode();
    let back = P::decode(&wire).unwrap();
    assert_eq!(back, p);
}

#[test]
fn registry_round_trips() {
    round_trips(ServerboundHandshakePacket::ClientIntention(ClientIntentionPacket {
        protocol_version: 760,
        hostname: "localhost".to_string(),
        port: 25565,
        intention: 2,
    }));
    round_trips(ServerboundStatusPacket::StatusRequest);
    round_trips(ClientboundStatusPacket::StatusResponse { status: "{}".to_string() });
    round_trips(ServerboundLoginPacket::Hello(ServerboundHelloPacket {
        name: "test".to_string(),
        chat_session: RemoteChatSessionData { session_id: 1, profile_public_key: None },
        profile_id: Some(42),
    }));
    round_trips(ServerboundLoginPacket::Key {
        key_bytes: vec![1, 2, 3],
        encrypted_challenge: vec![4, 5],
    });
    round_trips(ClientboundLoginPacket::LoginDisconnect { reason: "bye".to_string() });
    round_trips(ClientboundLoginPacket::Hello {
        server_id: "".to_string(),
        public_key: vec![0; 162],
        challenge: vec![1, 2, 3, 4],
    });
    round_trips(ClientboundLoginPacket::GameProfile {
        profile_id: 7,
        name: "someone".to_string(),
    });
    round_trips(ClientboundLoginPacket::LoginCompression { compression_threshold: 256 });
    round_trips(ClientboundLoginPacket::LoginCompression { compression_threshold: -1 });
    round_trips(ServerboundGamePacket::KeepAlive { id: u64::MAX });
    round_trips(ServerboundGamePacket::Chat { message: "hello".to_string() });
    round_trips(ClientboundGamePacket::KeepAlive { id: 3 });
    round_trips(ClientboundGamePacket::Disconnect { reason: "server closed".to_string() });
}

#[test]
fn unknown_id_is_reported() {
    // id 9 is not registered for serverbound login packets
    let bytes: Vec<u8> = vec![9];
    match ServerboundLoginPacket::decode(&bytes) {
        Err(ReadError::UnknownPacket { id, .. }) => assert_eq!(id, 9),
        other => panic!("expected an unknown packet error, got {:?}", other),
    }
}

#[test]
fn trailing_bytes_are_a_decode_error() {
    let mut wire = ServerboundStatusPacket::StatusRequest.encode();
    wire.push(0);
    assert!(ServerboundStatusPacket::decode(&wire).is_err());
}
