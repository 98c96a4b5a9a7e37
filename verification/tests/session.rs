//! The state-typed connection end to end: framing under all four modes,
//! encrypted sessions, and the per-state packet types.

use mcproto::conn::{
    ClientboundGamePacket, ClientboundLoginPacket, Connection, ProtocolPacket, ReadPoll,
};
use mcproto::error::{PacketDirection, ProtocolState, ReadError};

/// Wire bytes of `packet`, as a login-state server would send them.
fn server_sends(
    packet: &ClientboundLoginPacket,
    threshold: Option<i32>,
    key: Option<&Vec<u8>>,
) -> Vec<u8> {
    // a server-side writer for the clientbound direction
    let mut conn = Connection::new().login();
    if let Some(t) = threshold {
        conn.set_compression_threshold(t);
    }
    if let Some(k) = key {
        conn.set_encryption_key(k);
    }
    let (_, mut writer) = conn.into_split();
    // reuse the writer machinery by re-typing it onto the clientbound set
    let mut w = mcproto::conn::WriteConnection::<ClientboundLoginPacket> {
        compression_threshold: writer.compression_threshold.take(),
        enc_cipher: writer.enc_cipher.take(),
        _writing: core::marker::PhantomData,
    };
    w.write(packet).unwrap()
}

fn client_login(threshold: Option<i32>, key: Option<&Vec<u8>>) -> Connection<
    ClientboundLoginPacket,
    mcproto::conn::ServerboundLoginPacket,
> {
    let mut conn = Connection::new().login();
    if let Some(t) = threshold {
        conn.set_compression_threshold(t);
    }
    if let Some(k) = key {
        conn.set_encryption_key(k);
    }
    conn
}

fn frame_round_trip(threshold: Option<i32>, key: Option<Vec<u8>>) {
    let packet = ClientboundLoginPacket::GameProfile {
        profile_id: 0xfeed_beef,
        name: "someone".to_string(),
    };
    let wire = server_sends(&packet, threshold, key.as_ref());
    let mut conn = client_login(threshold, key.as_ref());
    // deliver the bytes in two arbitrary chunks, as a socket might
    let split = wire.len() / 2;
    let first: Vec<u8> = wire[..split].to_vec();
    let second: Vec<u8> = wire[split..].to_vec();
    conn.reader.feed(&first);
    match conn.read() {
        ReadPoll::NeedMoreData => {},
        ReadPoll::Packet(_) => panic!("half a frame should not decode"),
        ReadPoll::Failed(e) => panic!("half a frame should not fail: {:?}", e),
    }
    conn.reader.feed(&second);
    match conn.read() {
        ReadPoll::Packet(p) => assert_eq!(p, packet),
        other => panic!("expected the packet back, got {:?}", poll_kind(&other)),
    }
}

fn poll_kind(p: &ReadPoll<ClientboundLoginPacket>) -> &'static str {
    match p {
        ReadPoll::Packet(_) => "packet",
        ReadPoll::NeedMoreData => "need more data",
        ReadPoll::Failed(_) => "failed",
    }
}

#[test]
fn frame_round_trip_plain() {
    frame_round_trip(None, None);
}

#[test]
fn frame_round_trip_compressed() {
    // threshold 0 compresses everything; 1000 compresses nothing this small
    frame_round_trip(Some(0), None);
    frame_round_trip(Some(1000), None);
}

#[test]
fn frame_round_trip_encrypted() {
    let key: Vec<u8> = (100..116u8).collect();
    frame_round_trip(None, Some(key));
}

#[test]
fn frame_round_trip_compressed_and_encrypted() {
    let key: Vec<u8> = (1..17u8).collect();
    frame_round_trip(Some(0), Some(key.clone()));
    frame_round_trip(Some(64), Some(key));
}

#[test]
fn encrypted_framing_three_packets() {
    let key: Vec<u8> = (7..23u8).collect();
    let packets = vec![
        ClientboundLoginPacket::LoginCompression { compression_threshold: 64 },
        ClientboundLoginPacket::GameProfile { profile_id: 1, name: "a".to_string() },
        ClientboundLoginPacket::LoginDisconnect { reason: "done".to_string() },
    ];
    // one server-side writer carries its cipher state across all frames
    let mut w = mcproto::conn::WriteConnection::<ClientboundLoginPacket> {
        compression_threshold: None,
        enc_cipher: Some(mcproto::cipher::Cfb8::new(&key)),
        _writing: core::marker::PhantomData,
    };
    let mut stream: Vec<u8> = Vec::new();
    for p in &packets {
        stream.extend_from_slice(&w.write(p).unwrap());
    }
    let mut conn = client_login(None, Some(&key));
    conn.reader.feed(&stream);
    for p in &packets {
        match conn.read() {
            ReadPoll::Packet(got) => assert_eq!(&got, p),
            other => panic!("expected a packet, got {:?}", poll_kind(&other)),
        }
    }

    // a reader with one key byte swapped must not produce the packets
    let mut bad_key = key.clone();
    bad_key[0] ^= 0x55;
    let mut bad = client_login(None, Some(&bad_key));
    bad.reader.feed(&stream);
    match bad.read() {
        ReadPoll::Packet(got) => assert!(!packets.contains(&got)),
        ReadPoll::NeedMoreData => {},
        ReadPoll::Failed(_) => {},
    }
}

#[test]
fn state_transitions_carry_settings() {
    let mut conn = Connection::new().login();
    conn.set_compression_threshold(256);
    let key: Vec<u8> = (0..16u8).collect();
    conn.set_encryption_key(&key);
    let game = conn.game();
    assert_eq!(game.reader.compression_threshold, Some(256));
    assert_eq!(game.writer.compression_threshold, Some(256));
    assert!(game.reader.dec_cipher.is_some());
    assert!(game.writer.enc_cipher.is_some());

    let mut off = Connection::new().login();
    off.set_compression_threshold(-1);
    assert_eq!(off.reader.compression_threshold, None);
}

#[test]
fn game_state_reads_game_variants() {
    // a game-state read can only yield clientbound game variants; feed a
    // keep-alive frame and get that variant back
    let packet = ClientboundGamePacket::KeepAlive { id: 77 };
    let wire = packet.encode();
    let mut frame: Vec<u8> = vec![wire.len() as u8];
    frame.extend_from_slice(&wire);
    let mut conn = Connection::new().login().game();
    conn.reader.feed(&frame);
    match conn.read() {
        ReadPoll::Packet(ClientboundGamePacket::KeepAlive { id }) => assert_eq!(id, 77),
        _ => panic!("expected the keep-alive back"),
    }
}

#[test]
fn oversized_frame_is_rejected() {
    let mut conn = Connection::new().login();
    // a declared frame length beyond the hard cap fails immediately
    let decl: Vec<u8> = vec![0xff, 0xff, 0xff, 0x7f];
    conn.reader.feed(&decl);
    match conn.read() {
        ReadPoll::Failed(ReadError::FrameTooLarge) => {},
        _ => panic!("expected the frame cap to reject this"),
    }
}

#[test]
fn unknown_id_surfaces_through_read() {
    // a frame whose packet id the login registry does not assign comes
    // back as that id's unknown-packet error
    let mut conn = client_login(None, None);
    conn.reader.feed(&vec![1u8, 9u8]);
    match conn.read() {
        ReadPoll::Failed(ReadError::UnknownPacket { state, direction, id }) => {
            assert_eq!(state, ProtocolState::Login);
            assert_eq!(direction, PacketDirection::Clientbound);
            assert_eq!(id, 9);
        },
        _ => panic!("expected the unknown-packet error"),
    }
}
