use bgp_paths::error::PathError;
use bgp_paths::net::{Asn, Community, IpAddress, LargeCommunity, Peer, Prefix, Testing, MOCK_ASN};
use bgp_paths::route::Route;

fn sample(as_path: Vec<u32>, filename: &str, communities: Vec<Community>) -> Route {
    Route::new(
        as_path,
        String::from(filename),
        IpAddress::V4(0xCB00_7101),
        Peer::new(0x0A00_0001, IpAddress::V4(0x0A00_0001), 64500),
        Prefix::new(IpAddress::V4(0xCB00_7100), 24).unwrap(),
        communities,
        Vec::new(),
    )
    .unwrap()
}

#[test]
fn route_new_rejects_empty_as_path() {
    let r = Route::new(
        Vec::new(),
        String::from("f"),
        IpAddress::get_mock(),
        Peer::get_mock(),
        Prefix::get_mock(),
        Vec::new(),
        Vec::new(),
    );
    assert_eq!(r.err(), Some(PathError::MalformedRoute));
}

#[test]
fn route_accessors_return_what_was_given() {
    let r = Route::new(
        vec![10, 20, 20, 30],
        String::from("f"),
        IpAddress::get_mock(),
        Peer::get_mock(),
        Prefix::get_mock(),
        vec![Community::Custom(10, 1), Community::NoExport],
        vec![LargeCommunity::new(10, 2, 3)],
    )
    .unwrap();
    assert_eq!(r.get_as_path(), &vec![10, 20, 20, 30]);
    assert_eq!(*r.get_origin(), 30);
    assert_eq!(r.get_communities(), &vec![Community::Custom(10, 1), Community::NoExport]);
    assert_eq!(r.get_large_communities(), &vec![LargeCommunity::new(10, 2, 3)]);
}

#[test]
fn route_equality_ignores_communities() {
    let a = sample(vec![1, 2, 3], "f", vec![Community::Custom(1, 1)]);
    let b = sample(vec![1, 2, 3], "f", vec![Community::NoAdvertise]);
    assert!(a == b);
}

#[test]
fn route_equality_reads_every_identity_field() {
    let base = sample(vec![1, 2, 3], "f", Vec::new());
    assert!(base != sample(vec![1, 2, 2, 3], "f", Vec::new()));
    assert!(base != sample(vec![1, 2, 3], "g", Vec::new()));
    let other_hop = Route::new(
        vec![1, 2, 3],
        String::from("f"),
        IpAddress::V4(0xCB00_7102),
        Peer::new(0x0A00_0001, IpAddress::V4(0x0A00_0001), 64500),
        Prefix::new(IpAddress::V4(0xCB00_7100), 24).unwrap(),
        Vec::new(),
        Vec::new(),
    )
    .unwrap();
    assert!(base != other_hop);
    let other_peer = Route::new(
        vec![1, 2, 3],
        String::from("f"),
        IpAddress::V4(0xCB00_7101),
        Peer::new(0x0A00_0001, IpAddress::V4(0x0A00_0001), 64501),
        Prefix::new(IpAddress::V4(0xCB00_7100), 24).unwrap(),
        Vec::new(),
        Vec::new(),
    )
    .unwrap();
    assert!(base != other_peer);
    let other_prefix = Route::new(
        vec![1, 2, 3],
        String::from("f"),
        IpAddress::V4(0xCB00_7101),
        Peer::new(0x0A00_0001, IpAddress::V4(0x0A00_0001), 64500),
        Prefix::new(IpAddress::V4(0xCB00_7100), 25).unwrap(),
        Vec::new(),
        Vec::new(),
    )
    .unwrap();
    assert!(base != other_prefix);
}

#[test]
fn route_clone_is_equal_and_keeps_communities() {
    let a = sample(vec![1, 2, 3], "f", vec![Community::Custom(1, 1)]);
    let b = a.clone();
    assert!(a == b);
    assert_eq!(b.get_communities(), &vec![Community::Custom(1, 1)]);
    assert_eq!(b.get_as_path(), &vec![1, 2, 3]);
}

#[test]
fn mock_route_has_the_documented_fields() {
    let r = Route::get_mock(None);
    assert_eq!(r.get_as_path(), &vec![1, 2, 65535]);
    assert_eq!(*r.get_origin(), MOCK_ASN);
    let r = Route::get_mock(Some(7));
    assert_eq!(r.get_as_path(), &vec![1, 2, 7]);
    assert_eq!(*r.get_origin(), 7);
    assert!(Route::get_mock(None) == Route::get_mock(None));
    assert!(Route::get_mock(Some(1)) != Route::get_mock(Some(2)));
}

#[test]
fn mock_values_of_the_small_types() {
    assert_eq!(Asn::get_mock(None), 65535);
    assert_eq!(Asn::get_mock(Some(3)), 3);
    assert_eq!(IpAddress::get_mock(), IpAddress::V4(0xC000_0201));
    assert_eq!(Prefix::get_mock(), Prefix { addr: IpAddress::V4(0xC000_0201), len: 24 });
    assert_eq!(
        Peer::get_mock(),
        Peer { asn: 65535, address: IpAddress::V4(0xC000_0201), bgp_id: 0xC000_0201 }
    );
    assert_eq!(Community::get_mock(None), Community::Custom(65535, 23456));
    assert_eq!(Community::get_mock(Some((7, 8))), Community::Custom(7, 8));
    assert_eq!(LargeCommunity::get_mock(None), LargeCommunity::new(65535, 65535, 23456));
    assert_eq!(LargeCommunity::get_mock(Some((1, 2, 3))), LargeCommunity::new(1, 2, 3));
}

#[test]
fn prefix_length_is_bounded_by_the_address_family() {
    assert!(Prefix::new(IpAddress::V4(0), 32).is_some());
    assert_eq!(Prefix::new(IpAddress::V4(0), 33), None);
    assert!(Prefix::new(IpAddress::V6(0), 128).is_some());
    assert_eq!(Prefix::new(IpAddress::V6(0), 129), None);
    assert_eq!(IpAddress::V4(1).max_prefix_len(), 32);
    assert_eq!(IpAddress::V6(1).max_prefix_len(), 128);
}

#[test]
fn default_routes_are_recognised() {
    assert!(Prefix::new(IpAddress::V4(0), 0).unwrap().is_default_route());
    assert!(Prefix::new(IpAddress::V6(0), 0).unwrap().is_default_route());
    assert!(!Prefix::new(IpAddress::V4(0), 8).unwrap().is_default_route());
    assert!(!Prefix::new(IpAddress::V4(0x0A00_0000), 0).unwrap().is_default_route());
    assert!(!Prefix::get_mock().is_default_route());
    assert!(IpAddress::V6(0).is_unspecified());
    assert!(!IpAddress::V6(1).is_unspecified());
}

#[test]
fn error_messages_name_the_error() {
    assert_eq!(PathError::MalformedMrt.message(), "MalformedMrt");
    assert_eq!(PathError::MalformedRoute.message(), "MalformedRoute");
    assert_eq!(PathError::MalformedAsPath.message(), "MalformedAsPath");
    assert_eq!(PathError::UnexpectedRecordType.message(), "UnexpectedRecordType");
    assert_eq!(PathError::MissingAttribute.message(), "MissingAttribute");
    assert_eq!(PathError::InvariantViolation.message(), "InvariantViolation");
    assert_eq!(PathError::EmptyMerge.message(), "EmptyMerge");
}

#[test]
fn mock_tag_lists_end_with_the_given_tag() {
    assert_eq!(
        bgp_paths::communities::get_mock(None),
        vec![Community::Custom(1, 1), Community::Custom(2, 2), Community::Custom(65535, 23456)]
    );
    assert_eq!(
        bgp_paths::communities::get_mock(Some((9, 8))),
        vec![Community::Custom(1, 1), Community::Custom(2, 2), Community::Custom(9, 8)]
    );
    assert_eq!(
        bgp_paths::large_communities::get_mock(None),
        vec![
            LargeCommunity::new(1, 1, 1),
            LargeCommunity::new(2, 2, 2),
            LargeCommunity::new(65535, 65535, 23456)
        ]
    );
    assert_eq!(
        bgp_paths::large_communities::get_mock(Some((7, 6, 5))),
        vec![LargeCommunity::new(1, 1, 1), LargeCommunity::new(2, 2, 2), LargeCommunity::new(7, 6, 5)]
    );
}
