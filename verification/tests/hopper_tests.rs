use neighborhood::cryptde::CryptDeNull;
use neighborhood::cryptde::CryptDe;
use neighborhood::cryptde::Key;
use neighborhood::cryptde::PlainData;
use neighborhood::hopper::ExpiredCoresPackage;
use neighborhood::hopper::IncipientCoresPackage;
use neighborhood::hopper::LiveCoresPackage;
use neighborhood::hopper::masquerade_live_cores_package;
use neighborhood::hopper::package_to_wire;
use neighborhood::hopper::wire_to_live;
use neighborhood::masquerader::JsonMasquerader;
use neighborhood::route::Component;
use neighborhood::route::Route;
use neighborhood::route::RouteSegment;

#[test]
fn incipient_cores_package_is_created_correctly() {
    let route_key = Key::new(&[1]);
    let route = Route::new(
        &vec![
            RouteSegment::new(&vec![route_key.clone()], Component::ProxyClient),
            RouteSegment::new(
                &vec![route_key.clone(), route_key.clone()],
                Component::ProxyServer,
            ),
        ],
        &CryptDeNull::new(),
    )
    .unwrap();
    let payload = PlainData::new(b"payload");
    let key = Key::new(&[5, 6]);

    let subject = IncipientCoresPackage::new(route.clone(), payload.clone(), &key);

    assert_eq!(subject.route, route);
    assert_eq!(subject.payload_destination_key, key);
    assert_eq!(subject.payload.data, b"payload".to_vec());
}

#[test]
fn expired_cores_package_is_created_correctly() {
    let a_key = Key::new(&[65, 65, 65]);
    let b_key = Key::new(&[66, 66, 66]);
    let cryptde = CryptDeNull::new();
    let route = Route::new(
        &vec![RouteSegment::new(
            &vec![a_key.clone(), b_key.clone()],
            Component::Neighborhood,
        )],
        &cryptde,
    )
    .unwrap();
    let payload = b"booga booga".to_vec();

    let subject = ExpiredCoresPackage::new(route.clone(), PlainData::new(&payload[..]));

    assert_eq!(subject.remaining_route, route);
    assert_eq!(subject.payload.data, payload);
}

#[test]
fn live_package_serialization_round_trips() {
    let cryptde = CryptDeNull::new();
    let own_key = cryptde.public_key();
    let route = Route::new(
        &vec![RouteSegment::new(
            &vec![own_key.clone(), Key::new(&[7, 7])],
            Component::Hopper,
        )],
        &cryptde,
    )
    .unwrap();
    let package = LiveCoresPackage::new(route, neighborhood::cryptde::CryptData::new(b"cipher"));

    let serialized = package.serialize();
    let deserialized = LiveCoresPackage::deserialize(&serialized).unwrap();

    assert_eq!(deserialized.route, package.route);
    assert_eq!(deserialized.payload, package.payload);
}

#[test]
fn deserialize_rejects_trailing_garbage() {
    let cryptde = CryptDeNull::new();
    let route = Route::new(
        &vec![RouteSegment::new(
            &vec![cryptde.public_key(), Key::new(&[9])],
            Component::Hopper,
        )],
        &cryptde,
    )
    .unwrap();
    let package = LiveCoresPackage::new(route, neighborhood::cryptde::CryptData::new(b"x"));
    let mut serialized = package.serialize();
    serialized.push(0);

    assert!(LiveCoresPackage::deserialize(&serialized).is_none());
}

#[test]
fn route_shift_peels_the_first_hop() {
    let cryptde = CryptDeNull::new();
    let own_key = cryptde.public_key();
    let next_key = Key::new(&[4, 4, 4, 4]);
    let route = Route::new(
        &vec![RouteSegment::new(
            &vec![own_key.clone(), next_key.clone()],
            Component::Neighborhood,
        )],
        &cryptde,
    )
    .unwrap();

    let (hop, rest) = route.shift(&cryptde).unwrap();

    assert_eq!(hop.public_key, Some(next_key));
    assert_eq!(hop.component, Component::Neighborhood);
    assert_eq!(rest.hops.len(), route.hops.len() - 1);
}

#[test]
fn route_new_rejects_an_empty_segment_list() {
    let cryptde = CryptDeNull::new();
    let result = Route::new(&vec![], &cryptde);
    assert_eq!(result.err().unwrap(), neighborhood::route::RouteError::EmptyRoute);
}

#[test]
fn route_new_rejects_a_single_short_segment() {
    let cryptde = CryptDeNull::new();
    let result = Route::new(
        &vec![RouteSegment::new(&vec![Key::new(&[1])], Component::Hopper)],
        &cryptde,
    );
    assert_eq!(result.err().unwrap(), neighborhood::route::RouteError::TooFewKeys);
}

#[test]
fn full_pipeline_round_trip_delivers_the_expected_expired_package() {
    let cryptde = CryptDeNull::new();
    let own_key = cryptde.public_key();
    let far_key = Key::new(&[9, 9, 9, 9]);
    let route = Route::new(
        &vec![RouteSegment::new(
            &vec![own_key.clone(), far_key.clone()],
            Component::Neighborhood,
        )],
        &cryptde,
    )
    .unwrap();
    let expected_remaining_hop = route.hops[1].clone();
    let payload = PlainData::new(b"the payload itself");
    let package = IncipientCoresPackage::new(route, payload.clone(), &own_key);
    let masquerader = JsonMasquerader::new();

    let wire = package_to_wire(package, &cryptde, &masquerader, &own_key).unwrap();
    let (live, leftover) = wire_to_live(&wire, &cryptde, &masquerader).unwrap();
    let expired = live.to_expired(&cryptde).unwrap();

    assert!(leftover.is_empty());
    assert_eq!(expired.payload.data, payload.data);
    assert_eq!(expired.remaining_route.hops.len(), 1);
    assert_eq!(expired.remaining_route.hops[0], expected_remaining_hop);
}

#[test]
fn masquerade_live_cores_package_wraps_the_serialized_package() {
    let cryptde = CryptDeNull::new();
    let route = Route::new(
        &vec![RouteSegment::new(
            &vec![cryptde.public_key(), Key::new(&[3])],
            Component::Hopper,
        )],
        &cryptde,
    )
    .unwrap();
    let package = LiveCoresPackage::new(route, neighborhood::cryptde::CryptData::new(b"z"));
    let masquerader = JsonMasquerader::new();

    let masked = masquerade_live_cores_package(&package, &masquerader);

    let (chunk, leftover) = masquerader.try_unmask(&masked).unwrap();
    assert_eq!(chunk, package.serialize());
    assert!(leftover.is_empty());
}
