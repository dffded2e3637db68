use neighborhood::cryptde::CryptDeNull;
use neighborhood::cryptde::CryptData;
use neighborhood::cryptde::Key;
use neighborhood::neighborhood_database::NeighborhoodDatabaseError;
use neighborhood::neighborhood_database::NodeRecord;
use neighborhood::neighborhood_database::NodeRecordInner;
use neighborhood::neighborhood_database::NodeSignatures;
use neighborhood::node_addr::IpAddr;
use neighborhood::node_addr::NodeAddr;

fn make_node_record(n: u16, has_addr: bool, is_bootstrap: bool) -> NodeRecord {
    let a = (n / 1000 % 10) as u8;
    let b = (n / 100 % 10) as u8;
    let c = (n / 10 % 10) as u8;
    let d = (n % 10) as u8;
    let key = Key::new(&[a, b, c, d]);
    let addr = NodeAddr::new(&IpAddr::new(a, b, c, d), &vec![n]);
    let mut rec = NodeRecord::new(
        &key,
        if has_addr { Some(&addr) } else { None },
        is_bootstrap,
        None,
        0,
    );
    rec.sign(&CryptDeNull::from(&key));
    rec
}

#[test]
fn set_node_addr_works_once_but_not_twice() {
    let mut subject = make_node_record(1234, false, false);
    assert_eq!(subject.node_addr_opt(), None);
    let first_node_addr = NodeAddr::new(&IpAddr::new(4, 3, 2, 1), &vec![4321]);
    let result = subject.set_node_addr(&first_node_addr);
    assert_eq!(result, Ok(()));
    assert_eq!(subject.node_addr_opt(), Some(first_node_addr.clone()));
    let second_node_addr = NodeAddr::new(&IpAddr::new(5, 4, 3, 2), &vec![5432]);
    let result = subject.set_node_addr(&second_node_addr);
    assert_eq!(
        result,
        Err(NeighborhoodDatabaseError::NodeAddrAlreadySet(first_node_addr.clone()))
    );
    assert_eq!(subject.node_addr_opt(), Some(first_node_addr));
}

#[test]
fn unset_node_addr() {
    let mut subject = make_node_record(1234, true, false);

    subject.unset_node_addr();

    assert_eq!(None, subject.node_addr_opt());
}

#[test]
fn set_signatures_returns_true_when_signatures_are_not_set() {
    let subject_signed = make_node_record(1234, false, false);
    let mut subject = NodeRecord::new(
        subject_signed.public_key(),
        subject_signed.node_addr_opt().as_ref(),
        subject_signed.is_bootstrap_node(),
        None,
        0,
    );

    assert_eq!(subject.signatures(), None);

    let signatures = NodeSignatures::new(
        CryptData::new(&[123, 56, 89]),
        CryptData::new(&[87, 54, 21]),
    );

    let result = subject.set_signatures(signatures.clone());

    assert_eq!(result, true);
    assert_eq!(subject.signatures(), Some(signatures.clone()));
}

#[test]
fn set_signatures_returns_false_when_new_signatures_are_identical() {
    let mut subject = make_node_record(1234, false, false);

    let signatures = subject.signatures().unwrap();
    let result = subject.set_signatures(signatures.clone());

    assert_eq!(result, false);
}

#[test]
fn set_signatures_returns_true_when_existing_signatures_are_changed() {
    let mut subject = make_node_record(1234, false, false);

    let signatures = NodeSignatures::new(
        CryptData::new(&[123, 56, 89]),
        CryptData::new(&[87, 54, 21]),
    );
    let result = subject.set_signatures(signatures);

    assert_eq!(result, true);
}

#[test]
fn node_signatures_can_be_created_from_node_record_inner() {
    let to_be_signed = NodeRecordInner {
        public_key: Key::new(&[1, 2, 3, 4]),
        node_addr_opt: Some(NodeAddr::new(&IpAddr::new(1, 2, 3, 4), &vec![1234])),
        is_bootstrap_node: true,
        neighbors: Vec::new(),
        version: 0,
    };
    let cryptde = CryptDeNull::from(&to_be_signed.public_key);

    let result = NodeSignatures::from(&cryptde, &to_be_signed);

    assert_eq!(result.complete(), &to_be_signed.generate_signature(&cryptde));
    let to_be_signed_obscured = NodeRecordInner {
        public_key: to_be_signed.public_key.clone(),
        node_addr_opt: None,
        is_bootstrap_node: to_be_signed.is_bootstrap_node,
        neighbors: Vec::new(),
        version: to_be_signed.version,
    };
    assert_eq!(
        result.obscured(),
        &to_be_signed_obscured.generate_signature(&cryptde)
    )
}

#[test]
fn node_record_partial_eq() {
    let node_addr = NodeAddr::new(&IpAddr::new(1, 2, 3, 4), &vec![1234]);
    let exemplar = NodeRecord::new(&Key::new(b"poke"), Some(&node_addr), true, None, 0);
    let duplicate = NodeRecord::new(&Key::new(b"poke"), Some(&node_addr), true, None, 0);
    let mut with_neighbor = NodeRecord::new(&Key::new(b"poke"), Some(&node_addr), true, None, 0);
    let mod_key = NodeRecord::new(&Key::new(b"kope"), Some(&node_addr), true, None, 0);
    let mod_node_addr = NodeRecord::new(
        &Key::new(b"poke"),
        Some(&NodeAddr::new(&IpAddr::new(1, 2, 3, 5), &vec![1234])),
        true,
        None,
        0,
    );
    let mod_is_bootstrap = NodeRecord::new(&Key::new(b"poke"), Some(&node_addr), false, None, 0);
    let mod_signatures = NodeRecord::new(
        &Key::new(b"poke"),
        Some(&node_addr),
        true,
        Some(NodeSignatures::new(CryptData::new(b""), CryptData::new(b""))),
        0,
    );
    with_neighbor.neighbors_mut().push(mod_key.public_key().clone());

    assert_eq!(exemplar, exemplar);
    assert_eq!(exemplar, duplicate);
    assert_ne!(exemplar, with_neighbor);
    assert_ne!(exemplar, mod_key);
    assert_ne!(exemplar, mod_node_addr);
    assert_ne!(exemplar, mod_is_bootstrap);
    assert_ne!(exemplar, mod_signatures);
}

#[test]
fn increment_version_increments_node_record_version_by_1() {
    let mut this_node = make_node_record(123, true, false);

    assert_eq!(this_node.version(), 0);

    this_node.increment_version();
    assert_eq!(this_node.version(), 1);

    this_node.increment_version();
    assert_eq!(this_node.version(), 2);

    this_node.increment_version();
    assert_eq!(this_node.version(), 3);
}

#[test]
fn set_version_sets_the_version() {
    let mut this_node = make_node_record(123, true, false);
    assert_eq!(this_node.version(), 0);

    this_node.set_version(10000);

    assert_eq!(this_node.version(), 10000);
}

#[test]
fn generate_signature_signs_the_digest_of_the_canonical_encoding() {
    let inner = NodeRecordInner {
        public_key: Key::new(&[9, 8, 7]),
        node_addr_opt: Some(NodeAddr::new(&IpAddr::new(9, 8, 7, 6), &vec![987, 654])),
        is_bootstrap_node: false,
        neighbors: vec![Key::new(&[1, 1]), Key::new(&[2, 2])],
        version: 3,
    };
    let cryptde = CryptDeNull::from(&inner.public_key);

    let signature = inner.generate_signature(&cryptde);

    let mut canonical: Vec<u8> = Vec::new();
    neighborhood::record_codec::enc_inner(&mut canonical, &inner);
    let digest = <sha1::Sha1 as sha1::Digest>::digest(&canonical[..]);
    // null crypto signs by prefixing the signer's key to the digest
    let mut expected = vec![9u8, 8, 7];
    expected.extend_from_slice(&digest[..]);
    assert_eq!(signature.data, expected);
}

#[test]
fn key_renders_as_base64_without_padding() {
    assert_eq!(Key::new(&[1, 2, 3, 4]).to_string(), "AQIDBA");
    assert_eq!(Key::new(&[2, 3, 4, 5]).to_string(), "AgMEBQ");
    assert_eq!(Key::new(&[]).to_string(), "");
}

#[test]
fn node_addr_renders_ip_and_ports() {
    let addr = NodeAddr::new(&IpAddr::new(1, 2, 3, 4), &vec![1234, 2345]);
    assert_eq!(addr.to_string(), "1.2.3.4:1234,2345");
    let single = NodeAddr::new(&IpAddr::new(255, 0, 12, 9), &vec![65535]);
    assert_eq!(single.to_string(), "255.0.12.9:65535");
}
