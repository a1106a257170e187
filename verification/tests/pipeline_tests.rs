use crawly::addr::AddrKind;
use crawly::codec::{Decoded, Message, NetAddr, VersionMsg};
use crawly::codec::AddrV2Entry;
use crawly::engine::{
    conv_step, event_of_decoded, inbound_version, listener_first_frame_ok, ConvAction, ConvEvent,
    ConvState,
};
use crawly::ingest::{
    chunk_nodes, default_port, filter_addrv2_entries, filter_time, ingest_addrv2, retry_allowed,
    retry_backoff_ms, TimeFilter,
};
use crawly::sched::ConversationBudget;
use crawly::store::create_db;

const NOW32: u32 = 1700000000;
const NOW64: u64 = 1700000000;

fn entry(network_id: u8, addr: Vec<u8>, time: u32, port: u16) -> AddrV2Entry {
    AddrV2Entry { time, services: 9, network_id, addr, port }
}

#[test]
fn timestamp_window_boundaries() {
    // inside the near-future window the stamp clamps to now
    assert_eq!(filter_time(NOW32 + 600, NOW32), TimeFilter::Keep { effective: NOW32 });
    assert_eq!(filter_time(NOW32 + 1, NOW32), TimeFilter::Keep { effective: NOW32 });
    // beyond it the stamp stands as reported
    assert_eq!(filter_time(NOW32 + 601, NOW32), TimeFilter::Keep { effective: NOW32 + 601 });
    // the far-future cutoff is exact
    assert_eq!(filter_time(NOW32 + 3600, NOW32), TimeFilter::Keep { effective: NOW32 + 3600 });
    assert_eq!(filter_time(NOW32 + 3601, NOW32), TimeFilter::Attack);
    // staleness is measured against the effective stamp
    assert_eq!(filter_time(NOW32 - 172800, NOW32), TimeFilter::Keep { effective: NOW32 - 172800 });
    assert_eq!(filter_time(NOW32 - 172801, NOW32), TimeFilter::Stale);
    assert_eq!(filter_time(NOW32, NOW32), TimeFilter::Keep { effective: NOW32 });
}

#[test]
fn port_defaulting() {
    assert_eq!(default_port(0, AddrKind::I2p), 8333);
    assert_eq!(default_port(0, AddrKind::OnionV2), 8333);
    assert_eq!(default_port(0, AddrKind::Ipv4), 0);
    assert_eq!(default_port(0, AddrKind::OnionV3), 0);
    assert_eq!(default_port(1234, AddrKind::I2p), 1234);
}

#[test]
fn mixed_gossip_batch_filters_as_specified() {
    let entries = vec![
        entry(1, vec![1, 2, 3, 4], NOW32 - 60, 8333),
        entry(2, vec![0u8; 16], NOW32 - 259200, 8333),
        entry(4, vec![6u8; 32], NOW32 + 7200, 8333),
        entry(5, vec![7u8; 32], NOW32 - 60, 0),
    ];
    let nodes = filter_addrv2_entries(&entries, NOW32);
    assert_eq!(nodes.len(), 2);
    assert_eq!(nodes[0].addr_type, "ipv4");
    assert_eq!(nodes[0].addr_str, "1.2.3.4");
    assert_eq!(nodes[0].port, 8333);
    assert_eq!(nodes[1].addr_type, "i2p");
    assert!(nodes[1].addr_str.ends_with(".b32.i2p"));
    assert_eq!(nodes[1].port, 8333);
}

#[test]
fn gossip_deduplicates_last_occurrence_wins() {
    let entries = vec![
        entry(1, vec![1, 2, 3, 4], NOW32, 8333),
        AddrV2Entry { time: NOW32, services: 77, network_id: 1, addr: vec![1, 2, 3, 4], port: 9000 },
    ];
    let nodes = filter_addrv2_entries(&entries, NOW32);
    assert_eq!(nodes.len(), 1);
    assert_eq!(nodes[0].addr_str, "1.2.3.4");
    assert_eq!(nodes[0].port, 9000);
    assert_eq!(nodes[0].services, "77");
}

#[test]
fn gossip_services_render_in_decimal() {
    let entries = vec![entry(1, vec![9, 9, 9, 9], NOW32, 8333)];
    let nodes = filter_addrv2_entries(&entries, NOW32);
    assert_eq!(nodes[0].services, "9");
}

#[test]
fn chunking_splits_batches_of_fifty() {
    let nodes = filter_addrv2_entries(
        &(0..120u8)
            .map(|i| entry(1, vec![10, 0, (i / 10), (i % 10) * 10], NOW32, 8333))
            .collect(),
        NOW32,
    );
    assert_eq!(nodes.len(), 120);
    let chunks = chunk_nodes(nodes, 50);
    assert_eq!(chunks.len(), 3);
    assert_eq!(chunks[0].len(), 50);
    assert_eq!(chunks[1].len(), 50);
    assert_eq!(chunks[2].len(), 20);
}

#[test]
fn ingest_writes_only_admitted_entries() {
    let mut db = create_db();
    let entries = vec![
        entry(1, vec![1, 2, 3, 4], NOW32 - 60, 8333),
        entry(2, vec![0u8; 16], NOW32 - 259200, 8333),
        entry(4, vec![6u8; 32], NOW32 + 7200, 8333),
        entry(5, vec![7u8; 32], NOW32 - 60, 0),
    ];
    ingest_addrv2(&mut db, &entries, NOW64, NOW32);
    assert_eq!(db.get_total_nodes_count(), 2);
    assert!(db.peer_row("1.2.3.4").is_some());
    let i2p_name = data_encoding::BASE32_NOPAD.encode(&[7u8; 32]).to_lowercase() + ".b32.i2p";
    let i2p_row = db.peer_row(i2p_name.as_str()).expect("i2p row stored");
    assert_eq!(i2p_row.port, 8333);
}

#[test]
fn deadlock_retry_policy() {
    assert!(retry_allowed(1, true));
    assert!(retry_allowed(2, true));
    assert!(!retry_allowed(3, true));
    assert!(!retry_allowed(1, false));
    let pause = retry_backoff_ms();
    assert!((100..=600).contains(&pause));
}

#[test]
fn conversation_follows_the_handshake() {
    let (s1, a1) = conv_step(ConvState::VersionSent, ConvEvent::RecvVersion);
    assert_eq!(s1, ConvState::AwaitingVerack);
    assert_eq!(a1, ConvAction::RecordPeerAndReply);

    let (s2, a2) = conv_step(s1, ConvEvent::RecvVerack);
    assert_eq!(s2, ConvState::AwaitingAddr);
    assert_eq!(a2, ConvAction::SendGetAddr);

    let (s3, a3) = conv_step(s2, ConvEvent::RecvPing { nonce: 42 });
    assert_eq!(s3, ConvState::AwaitingAddr);
    assert_eq!(a3, ConvAction::SendPong { nonce: 42 });

    let (s4, a4) = conv_step(s3, ConvEvent::RecvAddrGossip);
    assert_eq!(s4, ConvState::Done);
    assert_eq!(a4, ConvAction::IngestGossip);
}

#[test]
fn protocol_deviation_fails_the_conversation() {
    let (s, a) = conv_step(ConvState::VersionSent, ConvEvent::RecvVerack);
    assert_eq!(s, ConvState::Failed);
    assert_eq!(a, ConvAction::CloseFailed);

    let (s, a) = conv_step(ConvState::AwaitingVerack, ConvEvent::RecvFailed);
    assert_eq!(s, ConvState::Failed);
    assert_eq!(a, ConvAction::CloseFailed);
}

#[test]
fn unknown_messages_are_ignored_in_any_state() {
    for state in [ConvState::VersionSent, ConvState::AwaitingVerack, ConvState::AwaitingAddr] {
        let (s, a) = conv_step(state, ConvEvent::RecvUnknown);
        assert_eq!(s, state);
        assert_eq!(a, ConvAction::Ignore);
    }
}

#[test]
fn decoded_frames_raise_the_right_events() {
    assert_eq!(event_of_decoded(&Decoded::Known(Message::Verack)), ConvEvent::RecvVerack);
    assert_eq!(
        event_of_decoded(&Decoded::Known(Message::Ping(5))),
        ConvEvent::RecvPing { nonce: 5 },
    );
    assert_eq!(event_of_decoded(&Decoded::Known(Message::AddrV2(vec![]))), ConvEvent::RecvAddrGossip);
    assert_eq!(event_of_decoded(&Decoded::UnknownCmd), ConvEvent::RecvUnknown);
    assert_eq!(event_of_decoded(&Decoded::Malformed), ConvEvent::RecvFailed);
}

#[test]
fn listener_first_frame_cap() {
    assert!(listener_first_frame_ok(1024));
    assert!(!listener_first_frame_ok(1025));
}

#[test]
fn listener_records_only_version_frames() {
    let version = VersionMsg {
        version: 70016,
        services: 9,
        timestamp: NOW64,
        receiver: NetAddr { services: 0, ip: vec![0u8; 16], port: 8333 },
        sender: NetAddr { services: 9, ip: vec![0u8; 16], port: 8333 },
        nonce: 1,
        user_agent: b"/Satoshi:26.0.0/".to_vec(),
        start_height: 820000,
        relay: true,
    };
    let v = inbound_version(Decoded::Known(Message::Version(version))).expect("version records");
    assert_eq!(v.user_agent, b"/Satoshi:26.0.0/".to_vec());
    assert!(inbound_version(Decoded::Known(Message::Verack)).is_none());
    assert!(inbound_version(Decoded::Malformed).is_none());
}

#[test]
fn conversation_budget_bounds_the_pool() {
    let mut budget = ConversationBudget::new();
    for _ in 0..100 {
        assert!(budget.try_acquire());
    }
    assert!(!budget.try_acquire());
    budget.release();
    assert!(budget.try_acquire());
    assert!(!budget.try_acquire());
}
