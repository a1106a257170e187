use crawly::store::{create_db, DiscoveredNode, NodeToScan, SeedEndpoint};

const NOW: u64 = 1700000000;

#[test]
fn upsert_inserts_and_refreshes() {
    let mut db = create_db();
    db.upsert_addrv2_node("ipv4", "1.2.3.4", 8333, "9", NOW);
    assert_eq!(db.get_total_nodes_count(), 1);
    let first = db.peer_row("1.2.3.4").expect("row exists");
    assert_eq!(first.added, NOW);
    assert_eq!(first.detected, NOW);
    assert_eq!(first.port, 8333);

    // a conflicting upsert refreshes only the detected stamp
    db.upsert_addrv2_node("ipv4", "1.2.3.4", 9999, "1", NOW + 50);
    assert_eq!(db.get_total_nodes_count(), 1);
    let after = db.peer_row("1.2.3.4").expect("row still exists");
    assert_eq!(after.detected, NOW + 50);
    assert_eq!(after.added, NOW);
    assert_eq!(after.port, 8333);
    assert_eq!(after.services, "9");
}

#[test]
fn successful_connection_accounting() {
    let mut db = create_db();
    db.upsert_addrv2_node("ipv4", "1.2.3.4", 8333, "", NOW);
    db.update_handshake_info("1.2.3.4:8333", "/Satoshi:26.0.0/", "1033", 70016, 820000, true, NOW);
    db.handle_successful_connection("1.2.3.4:8333", NOW);
    let row = db.peer_row("1.2.3.4").expect("row exists");
    assert_eq!(row.soft.as_deref(), Some("/Satoshi:26.0.0/"));
    assert_eq!(row.protocol_version, Some(70016));
    assert_eq!(row.start_height, Some(820000));
    assert_eq!(row.relay, Some(true));
    assert_eq!(row.incoming, Some(true));
    assert_eq!(row.consecutive_failures, 0);
    assert_eq!(row.reliability_score, 1);
    assert_eq!(row.scanned, Some(NOW));
    // clearnet peers come back exactly half a day later
    assert_eq!(row.next_attempt_time, Some(NOW + 43200));
}

#[test]
fn hidden_service_success_has_jittered_rescan() {
    let mut db = create_db();
    let onion = crawly::addr::torv3_address(&[7u8; 32]);
    db.upsert_addrv2_node("onionv3", onion.as_str(), 8333, "", NOW);
    db.handle_successful_connection(onion.as_str(), NOW);
    let row = db.peer_row(onion.as_str()).expect("row exists");
    let next = row.next_attempt_time.expect("rescan scheduled");
    assert!(next >= NOW + 28800);
    assert!(next <= NOW + 57540);
}

#[test]
fn failed_connection_increments_failures() {
    let mut db = create_db();
    db.upsert_addrv2_node("ipv4", "1.2.3.4", 8333, "", NOW);
    db.handle_failed_connection("1.2.3.4:8333", NOW);
    let row = db.peer_row("1.2.3.4").expect("row exists");
    assert_eq!(row.consecutive_failures, 1);
    assert_eq!(row.reliability_score, -1);
    assert_eq!(row.incoming, None);
    let next = row.next_attempt_time.expect("backoff scheduled");
    assert!(next >= NOW + 14400);
    assert!(next <= NOW + 86400);

    db.handle_failed_connection("1.2.3.4:8333", NOW);
    db.handle_failed_connection("1.2.3.4:8333", NOW);
    let row = db.peer_row("1.2.3.4").expect("clearnet row survives");
    assert_eq!(row.consecutive_failures, 3);
    assert_eq!(row.incoming, Some(false));
}

#[test]
fn failed_unknown_address_is_harmless() {
    let mut db = create_db();
    db.handle_failed_connection("9.9.9.9:8333", NOW);
    assert_eq!(db.get_total_nodes_count(), 0);
}

#[test]
fn tor_peer_pruned_at_third_failure() {
    let mut db = create_db();
    let onion = crawly::addr::torv3_address(&[1u8; 32]);
    db.upsert_addrv2_node("onionv3", onion.as_str(), 8333, "", NOW);
    db.handle_failed_connection(onion.as_str(), NOW);
    db.handle_failed_connection(onion.as_str(), NOW);
    assert_eq!(db.peer_row(onion.as_str()).expect("still there").consecutive_failures, 2);
    // the third failure deletes the row outright
    db.handle_failed_connection(onion.as_str(), NOW);
    assert!(db.peer_row(onion.as_str()).is_none());
    assert!(db.find_node_by_address(onion.as_str()).is_none());
}

#[test]
fn scheduler_skips_future_and_undialable_peers() {
    let mut db = create_db();
    db.upsert_addrv2_node("ipv4", "1.2.3.4", 8333, "", NOW);
    db.upsert_addrv2_node("ipv4", "5.6.7.8", 8333, "", NOW);
    // a failure pushes the next attempt at least four hours out
    db.handle_failed_connection("5.6.7.8:8333", NOW);
    // a deprecated onionv2 peer is never dialled
    db.upsert_addrv2_node("onionv2", "legacy.onion", 8333, "", NOW);

    let jobs = db.get_nodes_to_scan(100, NOW + 60);
    assert_eq!(jobs.len(), 1);
    match &jobs[0] {
        NodeToScan::Ip { address, port } => {
            assert_eq!(address, "1.2.3.4");
            assert_eq!(*port, 8333);
        }
        _ => panic!("expected a direct dial job"),
    }
}

#[test]
fn scheduler_orders_by_next_attempt_nulls_first() {
    let mut db = create_db();
    db.upsert_addrv2_node("ipv4", "1.1.1.1", 8333, "", NOW);
    db.upsert_addrv2_node("ipv4", "2.2.2.2", 8333, "", NOW);
    db.handle_successful_connection("1.1.1.1:8333", NOW);
    // half a day later both are due: the never-attempted one first
    let later = NOW + 50000;
    let jobs = db.get_nodes_to_scan(100, later);
    assert_eq!(jobs.len(), 2);
    match (&jobs[0], &jobs[1]) {
        (
            NodeToScan::Ip { address: first, .. },
            NodeToScan::Ip { address: second, .. },
        ) => {
            assert_eq!(first, "2.2.2.2");
            assert_eq!(second, "1.1.1.1");
        }
        _ => panic!("expected two direct dial jobs"),
    }
}

#[test]
fn scheduler_takes_the_earliest_due_when_over_limit() {
    let mut db = create_db();
    db.upsert_addrv2_node("ipv4", "1.1.1.1", 8333, "", NOW);
    db.upsert_addrv2_node("ipv4", "2.2.2.2", 8333, "", NOW);
    db.upsert_addrv2_node("ipv4", "3.3.3.3", 8333, "", NOW);
    // two rows earn far-out rescans, one stays due immediately
    db.handle_successful_connection("1.1.1.1:8333", NOW);
    db.handle_successful_connection("2.2.2.2:8333", NOW);
    let jobs = db.get_nodes_to_scan(1, NOW + 100000);
    assert_eq!(jobs.len(), 1);
    match &jobs[0] {
        NodeToScan::Ip { address, .. } => assert_eq!(address, "3.3.3.3"),
        _ => panic!("expected a direct dial job"),
    }
}

#[test]
fn scheduler_honors_limit() {
    let mut db = create_db();
    for i in 0..5u8 {
        let addr = crawly::addr::format_ipv4(10, 0, 0, i);
        db.upsert_addrv2_node("ipv4", addr.as_str(), 8333, "", NOW);
    }
    assert_eq!(db.get_nodes_to_scan(3, NOW).len(), 3);
    assert_eq!(db.get_nodes_to_scan(100, NOW).len(), 5);
}

#[test]
fn hidden_jobs_carry_their_transport() {
    let mut db = create_db();
    let onion = crawly::addr::torv3_address(&[2u8; 32]);
    let i2p = "xaxqxlkluxdvyyzbmp2ciz3cftrpvz5kdxoxgkvmz4uachrxstsa.b32.i2p";
    db.upsert_addrv2_node("onionv3", onion.as_str(), 8333, "", NOW);
    db.upsert_addrv2_node("i2p", i2p, 8333, "", NOW);
    let jobs = db.get_nodes_to_scan(100, NOW);
    assert_eq!(jobs.len(), 2);
    let mut seen_tor = false;
    let mut seen_i2p = false;
    for job in &jobs {
        match job {
            NodeToScan::Tor { address, .. } => {
                assert_eq!(address, &onion);
                seen_tor = true;
            }
            NodeToScan::I2p { address, .. } => {
                assert_eq!(address, i2p);
                seen_i2p = true;
            }
            NodeToScan::Ip { .. } => panic!("no direct job expected"),
        }
    }
    assert!(seen_tor && seen_i2p);
}

#[test]
fn clean_db_removes_stale_rows() {
    let mut db = create_db();
    db.upsert_addrv2_node("ipv4", "1.2.3.4", 8333, "", NOW);
    db.upsert_addrv2_node("ipv4", "5.6.7.8", 8333, "", NOW + 172801);
    db.clean_db(NOW + 172801 + 1);
    assert!(db.peer_row("1.2.3.4").is_none());
    assert!(db.peer_row("5.6.7.8").is_some());
    assert_eq!(db.get_total_nodes_count(), 1);
}

#[test]
fn seed_nodes_primes_the_store() {
    let mut db = create_db();
    let endpoints = vec![
        SeedEndpoint::V4 { a: 1, b: 2, c: 3, d: 4, port: 8333 },
        SeedEndpoint::V6 { groups: vec![0x2001, 0xdb8, 0, 0, 0, 0, 0, 1], port: 8333 },
        SeedEndpoint::V4 { a: 1, b: 2, c: 3, d: 4, port: 8333 },
    ];
    db.seed_nodes(&endpoints, NOW);
    assert_eq!(db.get_total_nodes_count(), 2);
    assert!(db.peer_row("1.2.3.4").is_some());
    let v6 = db.peer_row("2001:db8::1").expect("v6 seed stored");
    assert_eq!(v6.kind, crawly::addr::AddrKind::Ipv6);
}

#[test]
fn batch_upsert_applies_in_order() {
    let mut db = create_db();
    let nodes = vec![
        DiscoveredNode {
            addr_type: "ipv4".to_string(),
            addr_str: "1.2.3.4".to_string(),
            port: 8333,
            services: "9".to_string(),
        },
        DiscoveredNode {
            addr_type: "ipv6".to_string(),
            addr_str: "2001:db8::1".to_string(),
            port: 8333,
            services: "1".to_string(),
        },
    ];
    db.batch_upsert_addrv2_nodes(&nodes, NOW);
    assert_eq!(db.get_total_nodes_count(), 2);
    assert_eq!(db.peer_row("2001:db8::1").expect("stored").services, "1");
}

#[test]
fn the_chosen_tor_picks_a_due_onion_row() {
    let mut db = create_db();
    assert_eq!(db.the_chosen_tor(NOW), "");
    let onion = crawly::addr::torv3_address(&[3u8; 32]);
    db.upsert_addrv2_node("onionv3", onion.as_str(), 8333, "", NOW);
    assert_eq!(db.the_chosen_tor(NOW), onion);
    // once freshly scanned it is no longer due
    db.handle_successful_connection(onion.as_str(), NOW);
    assert_eq!(db.the_chosen_tor(NOW + 10), "");
}

#[test]
fn ip_info_list_names_unenriched_ip_rows() {
    let mut db = create_db();
    db.upsert_addrv2_node("ipv4", "1.2.3.4", 8333, "", NOW);
    let onion = crawly::addr::torv3_address(&[4u8; 32]);
    db.upsert_addrv2_node("onionv3", onion.as_str(), 8333, "", NOW);
    assert_eq!(db.ip_info_list(), vec!["1.2.3.4".to_string()]);
    db.update_ip_info("1.2.3.4", "DE", "Berlin", "Example AS", "64500");
    assert!(db.ip_info_list().is_empty());
    let row = db.peer_row("1.2.3.4").expect("row exists");
    assert_eq!(row.country.as_deref(), Some("DE"));
    assert_eq!(row.city.as_deref(), Some("Berlin"));
}

#[test]
fn inbound_info_does_not_mark_reachable() {
    let mut db = create_db();
    db.upsert_addrv2_node("ipv4", "1.2.3.4", 8333, "", NOW);
    db.update_inbound_node_info("1.2.3.4:52000", "/Satoshi:26.0.0/", "9", 70016, 820000, false);
    let row = db.peer_row("1.2.3.4").expect("row exists");
    assert_eq!(row.soft.as_deref(), Some("/Satoshi:26.0.0/"));
    assert_eq!(row.incoming, None);
    assert_eq!(row.scanned, None);
}

#[test]
fn reachable_counts_by_family() {
    let mut db = create_db();
    db.upsert_addrv2_node("ipv4", "1.2.3.4", 8333, "", NOW);
    db.upsert_addrv2_node("ipv6", "2001:db8::1", 8333, "", NOW);
    let onion = crawly::addr::torv3_address(&[8u8; 32]);
    db.upsert_addrv2_node("onionv3", onion.as_str(), 8333, "", NOW);
    assert_eq!(db.get_incoming_nodes_count(), 0);
    db.handle_successful_connection("1.2.3.4:8333", NOW);
    db.handle_successful_connection(onion.as_str(), NOW);
    assert_eq!(db.get_incoming_nodes_count(), 2);
    assert_eq!(db.get_ipv4_nodes_count(), 1);
    assert_eq!(db.get_ipv6_nodes_count(), 0);
    assert_eq!(db.get_tor_nodes_count(), 1);
}

#[test]
fn find_node_by_address_projects_the_row() {
    let mut db = create_db();
    db.upsert_addrv2_node("ipv4", "1.2.3.4", 8333, "", NOW);
    let info = db.find_node_by_address("1.2.3.4").expect("row exists");
    assert_eq!(info.address, "1.2.3.4");
    assert_eq!(info.detected, NOW);
    assert!(info.soft.is_none());
    assert!(db.find_node_by_address("9.9.9.9").is_none());
}
