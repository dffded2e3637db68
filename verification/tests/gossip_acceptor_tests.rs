use neighborhood::cryptde::CryptData;
use neighborhood::cryptde::CryptDeNull;
use neighborhood::cryptde::Key;
use neighborhood::gossip::Gossip;
use neighborhood::gossip::GossipBuilder;
use neighborhood::gossip::GossipNodeRecord;
use neighborhood::gossip_acceptor::GossipAcceptorReal;
use neighborhood::neighborhood_database::NeighborhoodDatabase;
use neighborhood::neighborhood_database::NodeRecord;
use neighborhood::neighborhood_database::NodeSignatures;
use neighborhood::node_addr::IpAddr;
use neighborhood::node_addr::NodeAddr;

fn make_node_record(n: u16, has_addr: bool, is_bootstrap: bool) -> NodeRecord {
    let a = (n / 1000 % 10) as u8;
    let b = (n / 100 % 10) as u8;
    let c = (n / 10 % 10) as u8;
    let d = (n % 10) as u8;
    let key = Key::new(&[a, b, c, d]);
    let addr = NodeAddr::new(&IpAddr::new(a, b, c, d), &vec![n]);
    let mut rec = NodeRecord::new(
        &key,
        if has_addr { Some(&addr) } else { None },
        is_bootstrap,
        None,
        0,
    );
    rec.sign(&CryptDeNull::from(&key));
    rec
}

fn cryptde() -> CryptDeNull {
    CryptDeNull::new()
}

fn neighbor_keys_of<'a>(database: &'a NeighborhoodDatabase, record: &NodeRecord) -> &'a Vec<Key> {
    database
        .node_by_key(record.public_key())
        .unwrap()
        .neighbors()
}

fn logs_of(subject: &GossipAcceptorReal) -> Vec<String> {
    subject.logger.entries.clone()
}

#[test]
fn add_ip_neighbors_does_not_add_neighbors_without_ip() {
    let mut subject: GossipAcceptorReal = GossipAcceptorReal::new();
    let this_addr = NodeAddr::new(&IpAddr::new(5, 7, 3, 4), &vec![13]);
    let mut db = NeighborhoodDatabase::new(&Key::new(b"scrud"), &this_addr, false, &cryptde());

    let other_node = make_node_record(3333, false, false);
    let other_node_gossip = GossipNodeRecord::from(&other_node, true);

    let gossip = Gossip {
        node_records: vec![other_node_gossip],
    };

    subject.handle(&mut db, gossip);

    assert!(!db.has_neighbor(&db.root().public_key().clone(), other_node.public_key()))
}

#[test]
fn gossip_is_copied_into_single_node_database() {
    let mut existing_node = make_node_record(1234, true, false);
    let mut database = NeighborhoodDatabase::new(
        existing_node.public_key(),
        existing_node.node_addr_opt().as_ref().unwrap(),
        existing_node.is_bootstrap_node(),
        &cryptde(),
    );
    let incoming_far_left = make_node_record(2345, false, false);
    let mut incoming_near_left = make_node_record(3456, true, false);
    let mut incoming_near_right = make_node_record(4657, true, false);
    let mut incoming_far_right = make_node_record(5678, false, false);
    let mut bad_record_with_blank_key = NodeRecord::new(
        &Key::new(&[]),
        None,
        false,
        Some(NodeSignatures::new(
            CryptData::new(b"hello"),
            CryptData::new(b"world"),
        )),
        0,
    );
    incoming_near_left
        .neighbors_mut()
        .push(incoming_far_left.public_key().clone());
    incoming_near_left
        .neighbors_mut()
        .push(existing_node.public_key().clone());
    existing_node
        .neighbors_mut()
        .push(incoming_near_left.public_key().clone());
    existing_node
        .neighbors_mut()
        .push(incoming_near_right.public_key().clone());
    incoming_near_right
        .neighbors_mut()
        .push(existing_node.public_key().clone());
    incoming_near_right
        .neighbors_mut()
        .push(incoming_far_right.public_key().clone());
    incoming_far_right
        .neighbors_mut()
        .push(bad_record_with_blank_key.public_key().clone());
    bad_record_with_blank_key
        .neighbors_mut()
        .push(incoming_far_right.public_key().clone());
    let gossip = GossipBuilder::new()
        .node(&incoming_far_left, false)
        .node(&incoming_near_left, true)
        .node(&existing_node, true)
        .node(&incoming_near_right, true)
        .node(&incoming_far_right, false)
        .node(&bad_record_with_blank_key, false)
        .build();
    let mut subject = GossipAcceptorReal::new();

    subject.handle(&mut database, gossip);

    let keys = database.keys();
    assert_eq!(keys.len(), 4);
    assert!(keys.contains(incoming_far_left.public_key()));
    assert!(keys.contains(incoming_near_left.public_key()));
    assert!(keys.contains(existing_node.public_key()));
    assert!(keys.contains(incoming_near_right.public_key()));
    let empty_neighbors: Vec<Key> = vec![];
    assert_eq!(
        neighbor_keys_of(&database, &incoming_far_left),
        &empty_neighbors
    );
    assert_eq!(
        neighbor_keys_of(&database, &incoming_near_left),
        &vec![
            incoming_far_left.public_key().clone(),
            existing_node.public_key().clone()
        ]
    );
    assert_eq!(
        neighbor_keys_of(&database, &existing_node),
        &vec![
            incoming_near_left.public_key().clone(),
            incoming_near_right.public_key().clone()
        ]
    );
    assert_eq!(
        neighbor_keys_of(&database, &incoming_near_right),
        &vec![
            existing_node.public_key().clone(),
            incoming_far_right.public_key().clone()
        ]
    );
    let logs = logs_of(&subject);
    let blank_neighbor_pos = logs
        .iter()
        .position(|l| l == "ERROR: GossipAcceptorReal: Rejecting neighbor reference with blank public key")
        .expect("missing blank-neighbor log");
    let blank_key_pos = logs
        .iter()
        .position(|l| l == "ERROR: GossipAcceptorReal: Rejecting GossipNodeRecord with blank public key")
        .expect("missing blank-key log");
    assert!(blank_neighbor_pos < blank_key_pos);
}

#[test]
fn gossip_generates_neighbors_from_provided_ip_addresses_with_standard_gossip_acceptor() {
    let existing_node = make_node_record(1234, true, false);
    let mut database = NeighborhoodDatabase::new(
        existing_node.public_key(),
        existing_node.node_addr_opt().as_ref().unwrap(),
        existing_node.is_bootstrap_node(),
        &cryptde(),
    );
    let neighbor_one = make_node_record(4657, true, false);
    let neighbor_two = make_node_record(5678, true, false);
    let not_a_neighbor_one = make_node_record(2345, false, false);
    let not_a_neighbor_two = make_node_record(3456, false, false);
    let gossip = GossipBuilder::new()
        .node(&neighbor_one, true)
        .node(&neighbor_two, true)
        .node(&not_a_neighbor_one, false)
        .node(&not_a_neighbor_two, false)
        .build();
    let mut subject = GossipAcceptorReal::new();

    subject.handle(&mut database, gossip);

    assert_eq!(
        neighbor_keys_of(&database, &existing_node),
        &vec![
            neighbor_one.public_key().clone(),
            neighbor_two.public_key().clone()
        ]
    );
    assert!(
        neighbor_keys_of(&database, &neighbor_one).is_empty(),
        "expected neighbor one neighbors to be empty"
    );
    assert!(
        neighbor_keys_of(&database, &neighbor_two).is_empty(),
        "expected neighbor two neighbors to be empty"
    );
    assert!(
        neighbor_keys_of(&database, &not_a_neighbor_one).is_empty(),
        "expected not a neighbor one neighbors to be empty"
    );
    assert!(
        neighbor_keys_of(&database, &not_a_neighbor_two).is_empty(),
        "expected not a neighbor two neighbors to be empty"
    );
    assert_eq!(database.keys().len(), 5);
}

#[test]
fn gossip_that_would_change_existing_node_ip_is_rejected() {
    let this_node = make_node_record(1234, true, false);
    let existing_node = make_node_record(2345, true, false);
    let mut database = NeighborhoodDatabase::new(
        this_node.public_key(),
        this_node.node_addr_opt().as_ref().unwrap(),
        this_node.is_bootstrap_node(),
        &cryptde(),
    );
    database.add_node(&existing_node).unwrap();
    let mut new_node = NodeRecord::new(
        existing_node.public_key(),
        Some(&NodeAddr::new(&IpAddr::new(3, 4, 5, 6), &vec![12345])),
        false,
        None,
        0,
    );
    new_node.sign(&CryptDeNull::from(existing_node.public_key()));
    let gossip = GossipBuilder::new().node(&new_node, true).build();
    let mut subject = GossipAcceptorReal::new();

    subject.handle(&mut database, gossip);

    let existing_node_ref = database.node_by_key(existing_node.public_key()).unwrap();
    let existing_node_addr = existing_node_ref.node_addr_opt().unwrap();
    assert_eq!(
        existing_node_addr.ip_addr(),
        existing_node.node_addr_opt().unwrap().ip_addr()
    );
    let logs = logs_of(&subject);
    assert!(
        logs.contains(&"ERROR: GossipAcceptorReal: Gossip attempted to change IP address of node AgMEBQ from 2.3.4.5 to 3.4.5.6: ignoring".to_string()),
        "logs were {:?}",
        logs
    );
}

#[test]
fn gossip_that_would_add_new_ip_for_existing_node_is_accepted() {
    let this_node = make_node_record(1234, true, false);
    let existing_node = make_node_record(2345, false, false);
    let incoming_node = make_node_record(2345, true, false);
    let mut database = NeighborhoodDatabase::new(
        this_node.public_key(),
        this_node.node_addr_opt().as_ref().unwrap(),
        this_node.is_bootstrap_node(),
        &cryptde(),
    );
    database.add_node(&existing_node).unwrap();

    let gossip = GossipBuilder::new().node(&incoming_node, true).build();
    let mut subject = GossipAcceptorReal::new();

    subject.handle(&mut database, gossip);

    let incoming_node_ref = database.node_by_key(incoming_node.public_key()).unwrap();
    let incoming_node_addr = incoming_node_ref.node_addr_opt().unwrap();
    assert_eq!(
        incoming_node_addr.ip_addr(),
        incoming_node.node_addr_opt().unwrap().ip_addr()
    );
    assert_eq!(
        database.has_neighbor(this_node.public_key(), incoming_node.public_key()),
        true
    );
}

#[test]
fn handle_neighbor_pairs_complains_about_gossip_records_that_neighbor_themselves() {
    let mut this_node = make_node_record(1234, true, false);
    // existing_neighbor (2345) has a neighbor of its own: 5678.
    let mut existing_neighbor = make_node_record(2345, true, false);
    existing_neighbor
        .neighbors_mut()
        .push(Key::new(&[5, 6, 7, 8]));
    this_node
        .neighbors_mut()
        .push(existing_neighbor.public_key().clone());
    let mut database = NeighborhoodDatabase::new(
        this_node.public_key(),
        this_node.node_addr_opt().as_ref().unwrap(),
        this_node.is_bootstrap_node(),
        &cryptde(),
    );
    database.add_node(&existing_neighbor).unwrap();

    // Now node 2345 claims a completely different neighbors list including itself: 2345 and 6789.
    let mut invalid_record = make_node_record(2345, true, false);
    let invalid_record_public_key = invalid_record.public_key().clone();
    invalid_record
        .neighbors_mut()
        .push(invalid_record_public_key);
    invalid_record.neighbors_mut().push(Key::new(&[6, 7, 8, 9]));

    let gossip = Gossip {
        node_records: vec![GossipNodeRecord::from(&invalid_record, true)],
    };
    let mut subject = GossipAcceptorReal::new();

    subject.handle(&mut database, gossip);

    // existing_neighbor in the database is untouched by the invalid Gossip.
    assert_eq!(
        database
            .node_by_key(existing_neighbor.public_key())
            .unwrap()
            .neighbors(),
        &vec![Key::new(&[5, 6, 7, 8])]
    );
    let logs = logs_of(&subject);
    assert!(
        logs.contains(&"ERROR: GossipAcceptorReal: Gossip attempted to make node AgMEBQ neighbor to itself: ignoring".to_string()),
        "logs were {:?}",
        logs
    );
}

#[test]
fn handle_returns_true_when_an_existing_node_record_updates_signatures() {
    let this_node = make_node_record(1234, true, false);
    let neighbor = NodeRecord::new(
        &Key::new(&[2, 3, 4, 5]),
        Some(&NodeAddr::new(&IpAddr::new(2, 3, 4, 5), &vec![1337])),
        false,
        None,
        0,
    );
    let mut database = NeighborhoodDatabase::new(
        this_node.public_key(),
        &this_node.node_addr_opt().unwrap(),
        this_node.is_bootstrap_node(),
        &cryptde(),
    );

    database.add_node(&neighbor).unwrap();
    database
        .add_neighbor(this_node.public_key(), neighbor.public_key())
        .unwrap();

    let mut signed_neighbor = neighbor.clone();
    signed_neighbor.increment_version();
    signed_neighbor.sign(&cryptde());

    let gossip = GossipBuilder::new().node(&signed_neighbor, true).build();
    let mut subject = GossipAcceptorReal::new();

    let result = subject.handle(&mut database, gossip);

    let neighbor_in_db = database.node_by_key(neighbor.public_key()).unwrap();
    assert!(result, "Gossip did not result in a change to the DB as expected");
    assert_eq!(neighbor_in_db.signatures(), signed_neighbor.signatures());
}

#[test]
fn handle_returns_true_when_a_new_node_record_is_added_without_a_node_addr_or_new_edges() {
    let this_node = make_node_record(1234, true, false);
    let incoming_node = make_node_record(2345, false, false);
    let mut database = NeighborhoodDatabase::new(
        this_node.public_key(),
        this_node.node_addr_opt().as_ref().unwrap(),
        this_node.is_bootstrap_node(),
        &cryptde(),
    );
    let gossip = GossipBuilder::new().node(&incoming_node, false).build();
    let mut subject = GossipAcceptorReal::new();

    let result = subject.handle(&mut database, gossip);

    let incoming_node_ref = database.node_by_key(incoming_node.public_key()).unwrap();
    let incoming_node_addr = incoming_node_ref.node_addr_opt();
    assert!(incoming_node_addr.is_none());
    assert!(result, "Gossip did not result in a change to the DB as expected")
}

#[test]
fn handle_returns_true_when_a_new_edge_is_created_between_already_known_nodes() {
    let this_node = make_node_record(1234, true, false);

    let existing_node_with_ip = make_node_record(2345, true, false);
    let existing_node_without_ip = make_node_record(2345, false, false);

    let mut database = NeighborhoodDatabase::new(
        this_node.public_key(),
        this_node.node_addr_opt().as_ref().unwrap(),
        this_node.is_bootstrap_node(),
        &cryptde(),
    );

    database.add_node(&existing_node_without_ip).unwrap();

    let gossip = GossipBuilder::new()
        .node(&this_node, true)
        .node(&existing_node_with_ip, true)
        .build();
    let mut subject = GossipAcceptorReal::new();

    let result = subject.handle(&mut database, gossip);

    assert!(
        database.has_neighbor(this_node.public_key(), existing_node_without_ip.public_key()),
        "DB does not have a connection from {} to {}",
        this_node.public_key().to_string(),
        existing_node_without_ip.public_key().to_string(),
    );
    assert!(result, "Gossip did not result in a change to the DB as expected")
}

#[test]
fn handle_returns_true_when_a_new_node_record_includes_a_node_addr() {
    let this_node = make_node_record(1234, true, false);

    let incoming_node = make_node_record(2345, true, false);

    let mut database = NeighborhoodDatabase::new(
        this_node.public_key(),
        this_node.node_addr_opt().as_ref().unwrap(),
        this_node.is_bootstrap_node(),
        &cryptde(),
    );

    let gossip = GossipBuilder::new().node(&incoming_node, true).build();
    let mut subject = GossipAcceptorReal::new();

    let result = subject.handle(&mut database, gossip);

    assert_eq!(
        database.has_neighbor(this_node.public_key(), incoming_node.public_key()),
        true
    );
    assert!(result, "Gossip did not result in a change to the DB as expected")
}

#[test]
fn handle_returns_false_when_gossip_results_in_no_changes_for_existing_node_with_no_node_addr() {
    let this_node = make_node_record(1234, true, false);
    let existing_node = make_node_record(2345, false, false);
    let mut database = NeighborhoodDatabase::new(
        this_node.public_key(),
        this_node.node_addr_opt().as_ref().unwrap(),
        this_node.is_bootstrap_node(),
        &cryptde(),
    );
    database.add_node(&existing_node).unwrap();

    let gossip = GossipBuilder::new().node(&existing_node, false).build();
    let mut subject = GossipAcceptorReal::new();

    let result = subject.handle(&mut database, gossip);

    assert!(!result, "Gossip unexpectedly resulted in a change to the DB");
}

#[test]
fn handle_returns_false_when_gossip_results_in_no_changes_for_existing_node_with_node_addr() {
    let this_node = make_node_record(1234, true, false);
    let mut existing_node = make_node_record(2345, true, false);
    existing_node
        .neighbors_mut()
        .push(this_node.public_key().clone());
    let mut database = NeighborhoodDatabase::new(
        this_node.public_key(),
        this_node.node_addr_opt().as_ref().unwrap(),
        this_node.is_bootstrap_node(),
        &cryptde(),
    );
    database.add_node(&existing_node).unwrap();
    database
        .add_neighbor(this_node.public_key(), existing_node.public_key())
        .unwrap();

    let gossip = GossipBuilder::new().node(&existing_node, true).build();
    let mut subject = GossipAcceptorReal::new();

    let result = subject.handle(&mut database, gossip);

    assert!(
        database.has_neighbor(this_node.public_key(), existing_node.public_key()),
        "DB has no connection from {} to {}",
        this_node.public_key().to_string(),
        existing_node.public_key().to_string(),
    );
    assert!(!result, "Gossip unexpectedly resulted in a change to the DB");
}

#[test]
fn handle_does_not_complain_when_gossip_contains_an_existing_signature() {
    let this_node = make_node_record(1234, true, false);
    let neighbor = make_node_record(9876, true, false);
    let mut database = NeighborhoodDatabase::new(
        this_node.public_key(),
        &this_node.node_addr_opt().unwrap(),
        this_node.is_bootstrap_node(),
        &cryptde(),
    );

    database.add_node(&neighbor).unwrap();
    database
        .add_neighbor(this_node.public_key(), neighbor.public_key())
        .unwrap();

    let gossip = GossipBuilder::new().node(&neighbor, true).build();
    let mut subject = GossipAcceptorReal::new();

    subject.handle(&mut database, gossip);

    let logs = logs_of(&subject);
    assert!(
        !logs.iter().any(|l| l.contains("Gossip tried to modify signatures")),
        "logs were {:?}",
        logs
    );
}

#[test]
fn handle_updates_root_node_record_version_number_when_gossip_includes_a_new_introduction() {
    let this_node = make_node_record(1234, true, false);

    let incoming_node = make_node_record(2345, true, false);

    let mut database = NeighborhoodDatabase::new(
        this_node.public_key(),
        this_node.node_addr_opt().as_ref().unwrap(),
        this_node.is_bootstrap_node(),
        &cryptde(),
    );

    let gossip = GossipBuilder::new().node(&incoming_node, true).build();
    let mut subject = GossipAcceptorReal::new();

    assert_eq!(
        database.node_by_key(this_node.public_key()).unwrap().version(),
        0,
        "Initial version should be zero. Failed to set up test"
    );

    let _result = subject.handle(&mut database, gossip);

    assert_eq!(
        database.node_by_key(this_node.public_key()).unwrap().version(),
        1
    );
}

#[test]
fn handle_ignores_node_records_for_which_we_have_a_newer_version() {
    let this_node = make_node_record(1234, true, false);
    let mut existing_node = make_node_record(2345, true, false);
    let older_version = existing_node.clone();

    existing_node.increment_version();

    let mut database = NeighborhoodDatabase::new(
        this_node.public_key(),
        this_node.node_addr_opt().as_ref().unwrap(),
        this_node.is_bootstrap_node(),
        &cryptde(),
    );
    database.add_node(&existing_node).unwrap();
    database
        .add_neighbor(this_node.public_key(), existing_node.public_key())
        .unwrap();

    database
        .add_neighbor(existing_node.public_key(), this_node.public_key())
        .unwrap();

    let gossip = GossipBuilder::new().node(&older_version, true).build();
    let mut subject = GossipAcceptorReal::new();

    let result = subject.handle(&mut database, gossip);

    assert!(
        database.has_neighbor(existing_node.public_key(), this_node.public_key()),
        "Database did not contain a connection from {} to {}",
        existing_node.public_key().to_string(),
        this_node.public_key().to_string()
    );
    assert!(!result, "Gossip unexpectedly changed DB")
}

#[test]
fn handle_updates_version_number_of_other_nodes_when_a_newer_version_is_received_but_does_not_gossip_about_it_as_a_db_change(
) {
    let this_node = make_node_record(1234, true, false);
    let existing_node = make_node_record(2345, true, false);
    let mut newer_version = existing_node.clone();
    newer_version.increment_version();
    newer_version.increment_version();
    newer_version.increment_version();
    newer_version
        .neighbors_mut()
        .push(this_node.public_key().clone());

    let mut database = NeighborhoodDatabase::new(
        this_node.public_key(),
        this_node.node_addr_opt().as_ref().unwrap(),
        this_node.is_bootstrap_node(),
        &cryptde(),
    );
    database.add_node(&existing_node).unwrap();
    database
        .add_neighbor(this_node.public_key(), existing_node.public_key())
        .unwrap();
    database
        .add_neighbor(existing_node.public_key(), this_node.public_key())
        .unwrap();

    let gossip = GossipBuilder::new().node(&newer_version, true).build();
    let mut subject = GossipAcceptorReal::new();

    let result = subject.handle(&mut database, gossip);

    assert!(!result, "Gossip should not have resulted in a change report");
    assert_eq!(
        database
            .node_by_key(existing_node.public_key())
            .unwrap()
            .version(),
        newer_version.version()
    );
}

#[test]
fn blank_key_record_is_rejected_and_leaves_database_unchanged() {
    let this_node = make_node_record(1234, true, false);
    let mut database = NeighborhoodDatabase::new(
        this_node.public_key(),
        this_node.node_addr_opt().as_ref().unwrap(),
        false,
        &CryptDeNull::from(this_node.public_key()),
    );
    let blank = NodeRecord::new(
        &Key::new(&[]),
        None,
        false,
        Some(NodeSignatures::new(CryptData::new(b"x"), CryptData::new(b"y"))),
        0,
    );
    let gossip = Gossip {
        node_records: vec![GossipNodeRecord::from(&blank, false)],
    };
    let mut subject = GossipAcceptorReal::new();

    let result = subject.handle(&mut database, gossip);

    assert!(!result);
    assert_eq!(database.keys().len(), 1);
    assert_eq!(database.root().version(), 0);
    assert!(logs_of(&subject).contains(
        &"ERROR: GossipAcceptorReal: Rejecting GossipNodeRecord with blank public key".to_string()
    ));
}

#[test]
fn root_edge_induction_creates_edge_and_bumps_root_version() {
    let this_node = make_node_record(1234, true, false);
    let mut database = NeighborhoodDatabase::new(
        this_node.public_key(),
        this_node.node_addr_opt().as_ref().unwrap(),
        false,
        &CryptDeNull::from(this_node.public_key()),
    );
    let announced = make_node_record(2345, true, false);
    let gossip = GossipBuilder::new().node(&announced, true).build();
    let mut subject = GossipAcceptorReal::new();

    let result = subject.handle(&mut database, gossip);

    assert!(result);
    assert!(database.has_neighbor(this_node.public_key(), announced.public_key()));
    assert_eq!(database.root().version(), 1);
}

#[test]
fn version_gate_blocks_neighbor_updates_from_older_gossip() {
    let this_node = make_node_record(1234, true, false);
    let mut existing_node = make_node_record(2345, true, false);
    existing_node.set_version(3);
    let mut database = NeighborhoodDatabase::new(
        this_node.public_key(),
        this_node.node_addr_opt().as_ref().unwrap(),
        false,
        &CryptDeNull::from(this_node.public_key()),
    );
    database.add_node(&existing_node).unwrap();
    database
        .add_neighbor(this_node.public_key(), existing_node.public_key())
        .unwrap();

    let mut older = make_node_record(2345, true, false);
    older.set_version(2);
    older.neighbors_mut().push(Key::new(&[9, 9, 9, 9]));
    let gossip = GossipBuilder::new().node(&older, true).build();
    let mut subject = GossipAcceptorReal::new();

    let result = subject.handle(&mut database, gossip);

    assert!(!result, "older gossip should not change the database");
    assert_eq!(
        database
            .node_by_key(existing_node.public_key())
            .unwrap()
            .neighbors(),
        &Vec::<Key>::new()
    );
    assert_eq!(
        database
            .node_by_key(existing_node.public_key())
            .unwrap()
            .version(),
        3
    );
}
