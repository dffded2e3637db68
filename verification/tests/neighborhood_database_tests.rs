use neighborhood::cryptde::CryptDeNull;
use neighborhood::cryptde::Key;
use neighborhood::neighborhood_database::NeighborhoodDatabase;
use neighborhood::neighborhood_database::NeighborhoodDatabaseError;
use neighborhood::neighborhood_database::NodeRecord;
use neighborhood::node_addr::IpAddr;
use neighborhood::node_addr::NodeAddr;

fn make_node_record(n: u16, has_addr: bool, is_bootstrap: bool) -> NodeRecord {
    let a = (n / 1000 % 10) as u8;
    let b = (n / 100 % 10) as u8;
    let c = (n / 10 % 10) as u8;
    let d = (n % 10) as u8;
    let key = Key::new(&[a, b, c, d]);
    let addr = NodeAddr::new(&IpAddr::new(a, b, c, d), &vec![n]);
    let mut rec = NodeRecord::new(
        &key,
        if has_addr { Some(&addr) } else { None },
        is_bootstrap,
        None,
        0,
    );
    rec.sign(&CryptDeNull::from(&key));
    rec
}

#[test]
fn a_brand_new_database_has_the_expected_contents() {
    let this_node = make_node_record(1234, true, false);

    let subject = NeighborhoodDatabase::new(
        &this_node.public_key(),
        this_node.node_addr_opt().as_ref().unwrap(),
        false,
        &CryptDeNull::from(this_node.public_key()),
    );

    let keys = subject.keys();
    assert_eq!(keys.len(), 1);
    assert!(keys.contains(this_node.public_key()));
    assert_eq!(
        subject
            .node_by_ip(&this_node.node_addr_opt().unwrap().ip_addr())
            .unwrap(),
        &this_node
    );
    let root = subject.root();
    assert_eq!(*root, this_node);
}

#[test]
fn can_get_mutable_root() {
    let this_node = make_node_record(1234, true, false);

    let mut subject = NeighborhoodDatabase::new(
        &this_node.public_key(),
        this_node.node_addr_opt().as_ref().unwrap(),
        false,
        &CryptDeNull::from(this_node.public_key()),
    );

    // mutate the root through the database's controlled operations
    let other = make_node_record(2345, true, false);
    subject.add_node(&other).unwrap();
    subject
        .add_neighbor(this_node.public_key(), other.public_key())
        .unwrap();

    let root = subject.root();
    assert_eq!(root.public_key(), this_node.public_key());
    assert!(root.has_neighbor(other.public_key()));
}

#[test]
fn cant_add_a_node_twice() {
    let this_node = make_node_record(1234, true, false);
    let first_copy = make_node_record(2345, true, false);
    let second_copy = make_node_record(2345, true, false);
    let mut subject = NeighborhoodDatabase::new(
        &this_node.public_key(),
        this_node.node_addr_opt().as_ref().unwrap(),
        false,
        &CryptDeNull::from(this_node.public_key()),
    );
    let first_result = subject.add_node(&first_copy);

    let second_result = subject.add_node(&second_copy);

    assert_eq!(first_result.unwrap(), ());
    assert_eq!(
        second_result.err().unwrap(),
        NeighborhoodDatabaseError::NodeKeyCollision(second_copy.public_key().clone())
    )
}

#[test]
fn node_by_key_works() {
    let this_node = make_node_record(1234, true, false);
    let one_node = make_node_record(4567, true, false);
    let another_node = make_node_record(5678, true, false);
    let mut subject = NeighborhoodDatabase::new(
        &this_node.public_key(),
        this_node.node_addr_opt().as_ref().unwrap(),
        false,
        &CryptDeNull::from(this_node.public_key()),
    );

    subject.add_node(&one_node).unwrap();

    assert_eq!(
        subject.node_by_key(&this_node.public_key()).unwrap().clone(),
        this_node
    );
    assert_eq!(
        subject.node_by_key(&one_node.public_key()).unwrap().clone(),
        one_node
    );
    assert_eq!(subject.node_by_key(&another_node.public_key()), None);
}

#[test]
fn node_by_ip_works() {
    let this_node = make_node_record(1234, true, false);
    let one_node = make_node_record(4567, true, false);
    let another_node = make_node_record(5678, true, false);
    let mut subject = NeighborhoodDatabase::new(
        &this_node.public_key(),
        this_node.node_addr_opt().as_ref().unwrap(),
        false,
        &CryptDeNull::from(this_node.public_key()),
    );

    subject.add_node(&one_node).unwrap();

    assert_eq!(
        subject
            .node_by_ip(&this_node.node_addr_opt().unwrap().ip_addr())
            .unwrap()
            .clone(),
        this_node
    );
    assert_eq!(
        subject
            .node_by_ip(&one_node.node_addr_opt().unwrap().ip_addr())
            .unwrap()
            .clone(),
        one_node
    );
    assert_eq!(
        subject.node_by_ip(&another_node.node_addr_opt().unwrap().ip_addr()),
        None
    );
}

#[test]
fn add_neighbor_works() {
    let this_node = make_node_record(1234, true, false);
    let one_node = make_node_record(2345, false, false);
    let another_node = make_node_record(3456, true, false);
    let mut subject = NeighborhoodDatabase::new(
        &this_node.public_key(),
        this_node.node_addr_opt().as_ref().unwrap(),
        false,
        &CryptDeNull::from(this_node.public_key()),
    );
    subject.add_node(&one_node).unwrap();
    subject.add_node(&another_node).unwrap();

    subject
        .add_neighbor(&one_node.public_key(), &this_node.public_key())
        .unwrap();
    subject
        .add_neighbor(&one_node.public_key(), &another_node.public_key())
        .unwrap();
    subject
        .add_neighbor(&another_node.public_key(), &this_node.public_key())
        .unwrap();
    subject
        .add_neighbor(&another_node.public_key(), &one_node.public_key())
        .unwrap();

    assert_eq!(
        subject
            .node_by_key(&this_node.public_key())
            .unwrap()
            .has_neighbor(&this_node.public_key()),
        false
    );
    assert_eq!(
        subject
            .node_by_key(&this_node.public_key())
            .unwrap()
            .has_neighbor(&one_node.public_key()),
        false
    );
    assert_eq!(
        subject
            .node_by_key(&this_node.public_key())
            .unwrap()
            .has_neighbor(&another_node.public_key()),
        false
    );
    assert_eq!(
        subject
            .node_by_key(&one_node.public_key())
            .unwrap()
            .has_neighbor(&this_node.public_key()),
        true
    );
    assert_eq!(
        subject
            .node_by_key(&one_node.public_key())
            .unwrap()
            .has_neighbor(&one_node.public_key()),
        false
    );
    assert_eq!(
        subject
            .node_by_key(&one_node.public_key())
            .unwrap()
            .has_neighbor(&another_node.public_key()),
        true
    );
    assert_eq!(
        subject
            .node_by_key(&another_node.public_key())
            .unwrap()
            .has_neighbor(&this_node.public_key()),
        true
    );
    assert_eq!(
        subject
            .node_by_key(&another_node.public_key())
            .unwrap()
            .has_neighbor(&one_node.public_key()),
        true
    );
    assert_eq!(
        subject
            .node_by_key(&another_node.public_key())
            .unwrap()
            .has_neighbor(&another_node.public_key()),
        false
    );
    let keys = subject.keys();
    assert_eq!(keys.len(), 3);
    assert!(keys.contains(this_node.public_key()));
    assert!(keys.contains(one_node.public_key()));
    assert!(keys.contains(another_node.public_key()));
}

#[test]
fn add_neighbor_complains_if_from_node_doesnt_exist() {
    let this_node = make_node_record(1234, true, false);
    let nonexistent_node = make_node_record(2345, true, false);
    let mut subject = NeighborhoodDatabase::new(
        &this_node.public_key(),
        this_node.node_addr_opt().as_ref().unwrap(),
        false,
        &CryptDeNull::from(this_node.public_key()),
    );

    let result = subject.add_neighbor(nonexistent_node.public_key(), this_node.public_key());

    assert_eq!(
        result,
        Err(NeighborhoodDatabaseError::NodeKeyNotFound(
            nonexistent_node.public_key().clone()
        ))
    )
}

#[test]
fn add_neighbor_complains_if_to_node_doesnt_exist() {
    let this_node = make_node_record(1234, true, false);
    let nonexistent_node = make_node_record(2345, true, false);
    let mut subject = NeighborhoodDatabase::new(
        &this_node.public_key(),
        this_node.node_addr_opt().as_ref().unwrap(),
        false,
        &CryptDeNull::from(this_node.public_key()),
    );

    let result = subject.add_neighbor(this_node.public_key(), nonexistent_node.public_key());

    assert_eq!(
        result,
        Err(NeighborhoodDatabaseError::NodeKeyNotFound(
            nonexistent_node.public_key().clone()
        ))
    )
}

#[test]
fn add_neighbor_returns_true_when_new_edge_is_created() {
    let this_node = make_node_record(1234, true, false);
    let other_node = make_node_record(2345, true, false);
    let mut subject = NeighborhoodDatabase::new(
        &this_node.public_key(),
        this_node.node_addr_opt().as_ref().unwrap(),
        false,
        &CryptDeNull::from(this_node.public_key()),
    );
    subject.add_node(&other_node).unwrap();

    let result = subject.add_neighbor(this_node.public_key(), other_node.public_key());

    assert!(result.unwrap(), "add_neighbor done goofed");
}

#[test]
fn add_neighbor_returns_false_when_edge_already_exists() {
    let this_node = make_node_record(1234, true, false);
    let other_node = make_node_record(2345, true, false);
    let mut subject = NeighborhoodDatabase::new(
        &this_node.public_key(),
        this_node.node_addr_opt().as_ref().unwrap(),
        false,
        &CryptDeNull::from(this_node.public_key()),
    );
    subject.add_node(&other_node).unwrap();
    subject
        .add_neighbor(this_node.public_key(), other_node.public_key())
        .unwrap();

    let result = subject.add_neighbor(this_node.public_key(), other_node.public_key());

    assert!(!result.unwrap(), "add_neighbor done goofed");
}

#[test]
fn database_can_be_pretty_printed_to_dot_format() {
    let cryptde = CryptDeNull::new();
    let this_node = make_node_record(1234, true, true); // AQIDBA
    let node_one = make_node_record(2345, true, false); // AgMEBQ
    let node_two = make_node_record(3456, true, false); // AwQFBg
    let node_three = make_node_record(4567, true, false); // BAUGBw

    let mut subject = NeighborhoodDatabase::new(
        &this_node.public_key(),
        this_node.node_addr_opt().as_ref().unwrap(),
        this_node.is_bootstrap_node(),
        &cryptde,
    );

    subject.add_node(&node_one).unwrap();
    subject.add_node(&node_two).unwrap();
    subject.add_node(&node_three).unwrap();

    subject
        .add_neighbor(&this_node.public_key(), &node_one.public_key())
        .unwrap();
    subject
        .add_neighbor(&node_one.public_key(), &this_node.public_key())
        .unwrap();

    subject
        .add_neighbor(&node_one.public_key(), &node_two.public_key())
        .unwrap();
    subject
        .add_neighbor(&node_two.public_key(), &node_one.public_key())
        .unwrap();
    subject
        .add_neighbor(&node_two.public_key(), &this_node.public_key())
        .unwrap();

    subject
        .add_neighbor(&node_two.public_key(), &node_three.public_key())
        .unwrap();
    subject
        .add_neighbor(&node_three.public_key(), &node_two.public_key())
        .unwrap();
    subject
        .add_neighbor(&node_three.public_key(), &this_node.public_key())
        .unwrap();

    let result = subject.to_dot_graph();

    assert_eq!(result.matches("->").count(), 8);
    assert_eq!(
        result.contains("\"AQIDBA\" [label=\"AQIDBA\\n1.2.3.4:1234\\nbootstrap\"] [style=filled];"),
        true,
        "bootstrap node (this_node) is not displayed properly"
    );
    assert_eq!(
        result.contains("\"AgMEBQ\" [label=\"AgMEBQ\\n2.3.4.5:2345\"];"),
        true,
        "node_one is not displayed properly"
    );
    assert_eq!(
        result.contains("\"AwQFBg\" [label=\"AwQFBg\\n3.4.5.6:3456\"];"),
        true,
        "node_two is not displayed properly"
    );
    assert_eq!(
        result.contains("\"BAUGBw\" [label=\"BAUGBw\\n4.5.6.7:4567\"];"),
        true,
        "node_three is not displayed properly"
    );
    assert_eq!(
        result.contains("\"AQIDBA\" -> \"AgMEBQ\" [style=dashed];"),
        true,
        "this_node -x-> node_one"
    );
    assert_eq!(
        result.contains("\"AgMEBQ\" -> \"AQIDBA\" [style=dashed];"),
        true,
        "node_one -x-> this_node"
    );
    assert_eq!(
        result.contains("\"AgMEBQ\" -> \"AwQFBg\";"),
        true,
        "node_one -x-> node_two"
    );
    assert_eq!(
        result.contains("\"AwQFBg\" -> \"AgMEBQ\";"),
        true,
        "node_two -x-> node_one"
    );
    assert_eq!(
        result.contains("\"AwQFBg\" -> \"AQIDBA\" [style=dashed];"),
        true,
        "node_two -x-> this_node"
    );
    assert_eq!(
        result.contains("\"BAUGBw\" -> \"AwQFBg\";"),
        true,
        "node_three -x-> node_two"
    );
    assert_eq!(
        result.contains("\"AwQFBg\" -> \"BAUGBw\";"),
        true,
        "node_two -x-> node_three"
    );
    assert_eq!(
        result.contains("\"BAUGBw\" -> \"AQIDBA\" [style=dashed];"),
        true,
        "node_three -x-> this_node"
    );
}

#[test]
fn remove_neighbor_returns_error_when_given_nonexistent_node_key() {
    let this_node = make_node_record(123, true, false);
    let mut subject = NeighborhoodDatabase::new(
        &this_node.public_key(),
        this_node.node_addr_opt().as_ref().unwrap(),
        false,
        &CryptDeNull::from(this_node.public_key()),
    );
    let nonexistent_key = &Key::new(b"nonexistent");

    let result = subject.remove_neighbor(nonexistent_key);

    let err_message = format!(
        "could not remove nonexistent neighbor by public key: {}",
        nonexistent_key.to_string()
    );
    assert_eq!(err_message, result.expect_err("not an error"));
}

#[test]
fn remove_neighbor_returns_true_when_neighbor_was_removed() {
    let this_node = make_node_record(123, true, false);
    let mut subject = NeighborhoodDatabase::new(
        &this_node.public_key(),
        this_node.node_addr_opt().as_ref().unwrap(),
        false,
        &CryptDeNull::from(this_node.public_key()),
    );
    let other_node = make_node_record(2345, true, false);
    subject.add_node(&other_node).unwrap();
    subject
        .add_neighbor(&this_node.public_key(), &other_node.public_key())
        .unwrap();

    let result = subject.remove_neighbor(other_node.public_key());

    assert_eq!(
        None,
        subject
            .node_by_key(other_node.public_key())
            .unwrap()
            .node_addr_opt()
    );
    assert_eq!(
        None,
        subject.node_by_ip(&other_node.node_addr_opt().unwrap().ip_addr())
    );
    assert!(result.ok().expect("should be ok"));
}

#[test]
fn remove_neighbor_returns_false_when_neighbor_was_not_removed() {
    let this_node = make_node_record(123, true, false);
    let mut subject = NeighborhoodDatabase::new(
        &this_node.public_key(),
        this_node.node_addr_opt().as_ref().unwrap(),
        false,
        &CryptDeNull::from(this_node.public_key()),
    );
    let neighborless_node = make_node_record(2345, true, false);
    subject.add_node(&neighborless_node).unwrap();

    let result = subject.remove_neighbor(neighborless_node.public_key());

    assert_eq!(
        None,
        subject
            .node_by_key(neighborless_node.public_key())
            .unwrap()
            .node_addr_opt()
    );
    assert_eq!(
        None,
        subject.node_by_ip(&neighborless_node.node_addr_opt().unwrap().ip_addr())
    );
    assert!(!result.ok().expect("should be ok"));
}
