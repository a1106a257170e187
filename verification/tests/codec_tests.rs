use crawly::codec::{
    build_version_message, decode_addr_payload, decode_addrv2_payload, decode_frame_payload,
    decode_message, decode_version, encode_frame, encode_payload, command_of, frame_len_ok,
    parse_header, AddrEntry, AddrV2Entry, Decoded, FrameHeader, Message, NetAddr, VersionMsg,
};

fn sample_version() -> VersionMsg {
    VersionMsg {
        version: 70016,
        services: 0x409,
        timestamp: 1700000000,
        receiver: NetAddr { services: 0, ip: vec![0u8; 16], port: 8333 },
        sender: NetAddr { services: 9, ip: vec![0u8; 16], port: 8333 },
        nonce: 0x1122334455667788,
        user_agent: b"Crawly".to_vec(),
        start_height: 820000,
        relay: true,
    }
}

#[test]
fn version_payload_round_trip() {
    let msg = sample_version();
    let payload = encode_payload(&Message::Version(sample_version()));
    let back = decode_version(payload.as_slice()).expect("version must decode");
    assert_eq!(back.version, msg.version);
    assert_eq!(back.services, msg.services);
    assert_eq!(back.timestamp, msg.timestamp);
    assert_eq!(back.receiver.ip, msg.receiver.ip);
    assert_eq!(back.receiver.port, msg.receiver.port);
    assert_eq!(back.sender.services, msg.sender.services);
    assert_eq!(back.nonce, msg.nonce);
    assert_eq!(back.user_agent, msg.user_agent);
    assert_eq!(back.start_height, msg.start_height);
    assert_eq!(back.relay, msg.relay);
}

#[test]
fn version_truncated_payload_rejected() {
    let payload = encode_payload(&Message::Version(sample_version()));
    let short = &payload.as_slice()[..payload.len() - 1];
    assert!(decode_version(short).is_none());
}

#[test]
fn version_trailing_byte_rejected() {
    let mut payload = encode_payload(&Message::Version(sample_version()));
    payload.push(0);
    assert!(decode_version(payload.as_slice()).is_none());
}

#[test]
fn ping_pong_round_trip() {
    for msg in [Message::Ping(7), Message::Pong(0xffffffffffffffff)] {
        let cmd = command_of(&msg);
        let payload = encode_payload(&msg);
        match (msg, decode_message(cmd.as_slice(), payload.as_slice())) {
            (Message::Ping(n), Decoded::Known(Message::Ping(m))) => assert_eq!(n, m),
            (Message::Pong(n), Decoded::Known(Message::Pong(m))) => assert_eq!(n, m),
            _ => panic!("ping or pong did not round trip"),
        }
    }
}

#[test]
fn empty_messages_round_trip() {
    for msg in [Message::Verack, Message::SendAddrV2, Message::GetAddr] {
        let cmd = command_of(&msg);
        let payload = encode_payload(&msg);
        assert!(payload.is_empty());
        match decode_message(cmd.as_slice(), payload.as_slice()) {
            Decoded::Known(_) => {}
            _ => panic!("empty message did not round trip"),
        }
    }
}

#[test]
fn unknown_command_is_ignored() {
    let cmd = b"sendheaders\0".to_vec();
    match decode_message(cmd.as_slice(), &[]) {
        Decoded::UnknownCmd => {}
        _ => panic!("unknown command must be ignored"),
    }
}

#[test]
fn known_command_with_bad_payload_is_malformed() {
    let cmd = command_of(&Message::Verack);
    match decode_message(cmd.as_slice(), &[1]) {
        Decoded::Malformed => {}
        _ => panic!("verack with payload must be malformed"),
    }
}

#[test]
fn addr_payload_round_trip() {
    let entries = vec![
        AddrEntry { time: 1700000000, services: 1, ip: vec![1u8; 16], port: 8333 },
        AddrEntry { time: 1700000100, services: 9, ip: vec![2u8; 16], port: 18333 },
    ];
    let payload = encode_payload(&Message::Addr(entries));
    let back = decode_addr_payload(payload.as_slice()).expect("addr must decode");
    assert_eq!(back.len(), 2);
    assert_eq!(back[0].time, 1700000000);
    assert_eq!(back[1].port, 18333);
    assert_eq!(back[1].ip, vec![2u8; 16]);
}

#[test]
fn addrv2_payload_round_trip() {
    let entries = vec![
        AddrV2Entry {
            time: 1700000000,
            services: 0x409,
            network_id: 1,
            addr: vec![1, 2, 3, 4],
            port: 8333,
        },
        AddrV2Entry {
            time: 1700000001,
            services: 1,
            network_id: 4,
            addr: vec![7u8; 32],
            port: 0,
        },
    ];
    let payload = encode_payload(&Message::AddrV2(entries));
    let back = decode_addrv2_payload(payload.as_slice()).expect("addrv2 must decode");
    assert_eq!(back.len(), 2);
    assert_eq!(back[0].network_id, 1);
    assert_eq!(back[0].addr, vec![1, 2, 3, 4]);
    assert_eq!(back[1].network_id, 4);
    assert_eq!(back[1].addr.len(), 32);
}

#[test]
fn addr_count_must_be_canonical() {
    // count 1 written with the three-byte form instead of one byte
    let mut payload = vec![0xfd, 0x01, 0x00];
    payload.extend_from_slice(&[0u8; 30]);
    assert!(decode_addr_payload(payload.as_slice()).is_none());
}

#[test]
fn frame_round_trip() {
    let msg = Message::Version(sample_version());
    let frame = encode_frame(&msg).expect("version fits a frame");
    let header: FrameHeader = parse_header(&frame.as_slice()[..24]).expect("magic must match");
    assert_eq!(header.payload_len as usize, frame.len() - 24);
    let payload = &frame.as_slice()[24..];
    match decode_frame_payload(header.command.as_slice(), header.checksum.as_slice(), payload) {
        Decoded::Known(Message::Version(v)) => assert_eq!(v.user_agent, b"Crawly".to_vec()),
        _ => panic!("frame did not decode to the version message"),
    }
}

#[test]
fn frame_bad_checksum_is_malformed() {
    let frame = encode_frame(&Message::GetAddr).expect("getaddr fits a frame");
    let mut header_bytes = frame.as_slice()[..24].to_vec();
    header_bytes[20] ^= 0xff;
    let header = parse_header(header_bytes.as_slice()).expect("magic still matches");
    match decode_frame_payload(header.command.as_slice(), header.checksum.as_slice(), &[]) {
        Decoded::Malformed => {}
        _ => panic!("corrupt checksum must be malformed"),
    }
}

#[test]
fn frame_bad_magic_rejected() {
    let mut frame = encode_frame(&Message::GetAddr).expect("getaddr fits a frame");
    frame[0] = 0;
    assert!(parse_header(&frame.as_slice()[..24]).is_none());
}

#[test]
fn frame_matches_reference_serializer() {
    // the same ping, serialized by the rust-bitcoin consensus encoder
    let ours = encode_frame(&Message::Ping(0xdeadbeef)).expect("ping fits a frame");
    let reference = bitcoin::consensus::serialize(&bitcoin::p2p::message::RawNetworkMessage::new(
        bitcoin::Network::Bitcoin.magic(),
        bitcoin::p2p::message::NetworkMessage::Ping(0xdeadbeef),
    ));
    assert_eq!(ours, reference);
}

#[test]
fn built_version_message_has_the_agreed_fields() {
    let recv: Vec<u8> = {
        let mut v = vec![0u8; 16];
        v[10] = 0xff;
        v[11] = 0xff;
        v[12] = 1;
        v[13] = 2;
        v[14] = 3;
        v[15] = 4;
        v
    };
    let m = build_version_message(1700000000, 42, recv.clone(), 8333, vec![0u8; 16], 8333);
    let payload = encode_payload(&m);
    let v = decode_version(payload.as_slice()).expect("own version must decode");
    assert_eq!(v.version, 70016);
    assert_eq!(v.services, 9);
    assert_eq!(v.timestamp, 1700000000);
    assert_eq!(v.receiver.services, 0);
    assert_eq!(v.receiver.ip, recv);
    assert_eq!(v.receiver.port, 8333);
    assert_eq!(v.sender.services, 9);
    assert_eq!(v.nonce, 42);
    assert_eq!(v.user_agent, b"Crawly".to_vec());
    assert_eq!(v.start_height, 0);
    assert!(!v.relay);
}

#[test]
fn payload_cap_boundary() {
    assert!(frame_len_ok(1000000));
    assert!(!frame_len_ok(1000001));
}

#[test]
fn oversized_payload_refused_by_encoder() {
    let entries: Vec<AddrEntry> = (0..34000)
        .map(|i| AddrEntry { time: i, services: 0, ip: vec![0u8; 16], port: 0 })
        .collect();
    assert!(encode_frame(&Message::Addr(entries)).is_none());
}
