use neighborhood::cryptde::CryptData;
use neighborhood::cryptde::CryptDe;
use neighborhood::cryptde::CryptDeNull;
use neighborhood::cryptde::PlainData;
use neighborhood::cryptde::Key;
use neighborhood::encodings::u64_to_dec;
use neighborhood::gossip::Gossip;
use neighborhood::gossip::GossipBuilder;
use neighborhood::logger::Logger;
use neighborhood::masquerader::JsonMasquerader;
use neighborhood::neighborhood_database::NodeRecord;
use neighborhood::node_addr::IpAddr;
use neighborhood::node_addr::NodeAddr;

fn make_node_record(n: u16, has_addr: bool, is_bootstrap: bool) -> NodeRecord {
    let a = (n / 1000 % 10) as u8;
    let b = (n / 100 % 10) as u8;
    let c = (n / 10 % 10) as u8;
    let d = (n % 10) as u8;
    let key = Key::new(&[a, b, c, d]);
    let addr = NodeAddr::new(&IpAddr::new(a, b, c, d), &vec![n]);
    let mut rec = NodeRecord::new(
        &key,
        if has_addr { Some(&addr) } else { None },
        is_bootstrap,
        None,
        0,
    );
    rec.sign(&CryptDeNull::from(&key));
    rec
}

#[test]
fn decimal_rendering_is_exact() {
    assert_eq!(u64_to_dec(0), "0");
    assert_eq!(u64_to_dec(7), "7");
    assert_eq!(u64_to_dec(10), "10");
    assert_eq!(u64_to_dec(12345), "12345");
    assert_eq!(u64_to_dec(65535), "65535");
}

#[test]
fn logger_records_error_lines_in_the_sink_format() {
    let mut logger = Logger::new("Widget");
    logger.error(String::from("something broke"));
    logger.error(String::from("twice"));
    assert_eq!(
        logger.entries,
        vec![
            "ERROR: Widget: something broke".to_string(),
            "ERROR: Widget: twice".to_string()
        ]
    );
}

#[test]
fn mask_produces_the_textual_envelope() {
    let masquerader = JsonMasquerader::new();
    let masked = masquerader.mask(&vec![0xABu8, 0x01]);
    assert_eq!(masked, b"{\"bodyCBOR\":\"ab01\"}".to_vec());
}

#[test]
fn try_unmask_returns_chunk_and_leftover() {
    let masquerader = JsonMasquerader::new();
    let mut stream = masquerader.mask(&vec![1u8, 2, 3]);
    stream.extend_from_slice(b"extra bytes");

    let (chunk, leftover) = masquerader.try_unmask(&stream).unwrap();

    assert_eq!(chunk, vec![1u8, 2, 3]);
    assert_eq!(leftover, b"extra bytes".to_vec());
}

#[test]
fn try_unmask_withholds_judgment_on_an_incomplete_envelope() {
    let masquerader = JsonMasquerader::new();
    let mut partial = masquerader.mask(&vec![1u8, 2, 3]);
    partial.pop();
    partial.pop();

    assert!(masquerader.try_unmask(&partial).is_none());
}

#[test]
fn gossip_serialization_round_trips() {
    let mut with_neighbors = make_node_record(1234, true, false);
    with_neighbors
        .neighbors_mut()
        .push(Key::new(&[9, 9, 9, 9]));
    let obscured = make_node_record(2345, true, true);
    let bare = make_node_record(3456, false, false);
    let gossip = GossipBuilder::new()
        .node(&with_neighbors, true)
        .node(&obscured, false)
        .node(&bare, true)
        .build();

    let bytes = gossip.serialize();
    let restored = Gossip::deserialize(&bytes).unwrap();

    assert_eq!(restored, gossip);
}

#[test]
fn gossip_deserialize_rejects_a_truncated_buffer() {
    let gossip = GossipBuilder::new()
        .node(&make_node_record(1234, true, false), true)
        .build();
    let mut bytes = gossip.serialize();
    bytes.pop();

    assert!(Gossip::deserialize(&bytes).is_none());
}

#[test]
fn gossip_builder_ignores_a_duplicate_key() {
    let record = make_node_record(1234, true, false);
    let same_key_again = make_node_record(1234, false, false);
    let gossip = GossipBuilder::new()
        .node(&record, true)
        .node(&same_key_again, false)
        .build();

    assert_eq!(gossip.node_records.len(), 1);
    assert_eq!(
        gossip.node_records[0].inner.public_key,
        *record.public_key()
    );
}

#[test]
fn gossip_builder_obscures_the_address_when_not_revealed() {
    let record = make_node_record(1234, true, false);
    let gossip = GossipBuilder::new().node(&record, false).build();

    assert_eq!(gossip.node_records[0].inner.node_addr_opt, None);
    assert_eq!(
        Some(gossip.node_records[0].signatures.clone()),
        record.signatures()
    );
}

#[test]
fn null_crypto_round_trips_through_its_own_key() {
    let cryptde = CryptDeNull::from(&Key::new(&[1, 2, 3]));
    let cipher = cryptde
        .encode(&cryptde.public_key(), &PlainData::new(b"hello"))
        .unwrap();
    assert_eq!(cipher.data, vec![1u8, 2, 3, 104, 101, 108, 108, 111]);
    let plain = cryptde.decode(&cipher).unwrap();
    assert_eq!(plain.data, b"hello".to_vec());
    assert!(cryptde.decode(&CryptData::new(b"wrong prefix")).is_none());
}
