use crawly::store::create_db;

#[test]
fn should_fail() {
    let db = create_db();
    assert_eq!(db.get_total_nodes_count(), 0);
    assert!(db.find_node_by_address("0.0.0.0").is_none());
}
