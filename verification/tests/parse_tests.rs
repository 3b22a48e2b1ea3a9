use bgp_paths::error::PathError;
use bgp_paths::net::{Asn, Community, IpAddress, LargeCommunity, Peer, Prefix};
use bgp_paths::parse::{
    candidate_as_paths, index_peers, is_link_local, parse_rib, split_path_segments, MpNextHop,
    MpReach, MrtRecord, PathSegment, RibAfiEntries, RibEntry, RibParser, TableDumpType,
};
use bgp_paths::path_data::PathData;

const GLOBAL: u128 = 0x2001_07f8_0001_0000_a500_0032_8832_0001;
const LINK_LOCAL: u128 = 0xfe80_0000_0000_0000_4201_7aff_fe41_a186;

fn peer(n: u32) -> Peer {
    Peer::new(0x0A00_0000 + n, IpAddress::V4(0x0A00_0000 + n), 64500 + n)
}

fn peer_table() -> MrtRecord {
    MrtRecord::PeerIndexTable(vec![(0, peer(0)), (1, peer(1)), (7, peer(7))])
}

fn v4_prefix() -> Prefix {
    Prefix::new(IpAddress::V4(0xCB00_7100), 24).unwrap()
}

fn entry(peer_index: u16, segments: Vec<PathSegment>) -> RibEntry {
    RibEntry {
        peer_index,
        as_path: Some(segments),
        next_hop: Some(IpAddress::V4(0x5000_0001)),
        mp_reach: None,
        communities: None,
        large_communities: None,
    }
}

fn rib(prefix: Prefix, rib_entries: Vec<RibEntry>) -> MrtRecord {
    MrtRecord::RibAfi(RibAfiEntries { rib_type: TableDumpType::RibIpv4Unicast, prefix, rib_entries })
}

fn paths_of(d: &PathData) -> Vec<(Asn, Vec<Asn>, usize)> {
    let mut out = Vec::new();
    for o in d.get_origins() {
        for ap in d.get_as_paths_for_origin(&o).unwrap().get_as_paths() {
            out.push((o, ap.get_as_path().clone(), ap.get_routes().len()));
        }
    }
    out.sort();
    out
}

#[test]
fn as_set_fans_out_into_one_path_per_member() {
    assert_eq!(
        candidate_as_paths(&vec![10, 20], &vec![30, 40]),
        vec![vec![10, 20, 30], vec![10, 20, 40]]
    );
}

#[test]
fn sequence_alone_is_the_only_path() {
    assert_eq!(candidate_as_paths(&vec![10, 20], &Vec::new()), vec![vec![10, 20]]);
}

#[test]
fn empty_sequence_and_set_give_no_path() {
    assert_eq!(candidate_as_paths(&Vec::new(), &Vec::new()), Vec::<Vec<Asn>>::new());
}

#[test]
fn set_without_sequence_gives_bare_origins() {
    assert_eq!(candidate_as_paths(&Vec::new(), &vec![30, 40]), vec![vec![30], vec![40]]);
}

#[test]
fn segments_split_into_sequence_and_set() {
    let split = split_path_segments(&vec![
        PathSegment::AsSequence(vec![10, 20]),
        PathSegment::AsSet(vec![30, 40]),
    ]);
    assert_eq!(split, Ok((vec![10, 20], vec![30, 40])));
    assert_eq!(split_path_segments(&Vec::new()), Ok((Vec::new(), Vec::new())));
    assert_eq!(
        split_path_segments(&vec![PathSegment::AsSet(vec![1])]),
        Ok((Vec::new(), vec![1]))
    );
}

#[test]
fn later_segment_of_a_kind_replaces_the_earlier() {
    let split = split_path_segments(&vec![
        PathSegment::AsSequence(vec![1]),
        PathSegment::AsSet(vec![2]),
        PathSegment::AsSequence(vec![3, 4]),
        PathSegment::AsSet(vec![5, 6]),
    ]);
    assert_eq!(split, Ok((vec![3, 4], vec![5, 6])));
}

#[test]
fn confederation_segments_are_refused() {
    assert_eq!(
        split_path_segments(&vec![
            PathSegment::AsSequence(vec![1]),
            PathSegment::ConfedSequence(vec![2]),
            PathSegment::AsSequence(vec![3]),
        ]),
        Err(PathError::MalformedMrt)
    );
    assert_eq!(
        split_path_segments(&vec![PathSegment::ConfedSet(vec![2])]),
        Err(PathError::MalformedMrt)
    );
}

#[test]
fn link_local_is_fe80_slash_10() {
    assert!(is_link_local(LINK_LOCAL));
    assert!(is_link_local(0xfe80_0000_0000_0000_0000_0000_0000_0000));
    assert!(is_link_local(0xfebf_ffff_ffff_ffff_ffff_ffff_ffff_ffff));
    assert!(!is_link_local(0xfec0_0000_0000_0000_0000_0000_0000_0000));
    assert!(!is_link_local(0xfe7f_ffff_ffff_ffff_ffff_ffff_ffff_ffff));
    assert!(!is_link_local(GLOBAL));
    assert!(!is_link_local(0));
}

#[test]
fn global_address_is_preferred_over_link_local() {
    assert_eq!(MpNextHop::Pair(GLOBAL, LINK_LOCAL).global_addr(), IpAddress::V6(GLOBAL));
    assert_eq!(MpNextHop::Pair(LINK_LOCAL, GLOBAL).global_addr(), IpAddress::V6(GLOBAL));
    assert_eq!(MpNextHop::Pair(LINK_LOCAL, LINK_LOCAL + 1).global_addr(), IpAddress::V6(LINK_LOCAL));
    assert_eq!(MpNextHop::Pair(GLOBAL, GLOBAL + 1).global_addr(), IpAddress::V6(GLOBAL));
    assert_eq!(MpNextHop::Single(IpAddress::V6(LINK_LOCAL)).global_addr(), IpAddress::V6(LINK_LOCAL));
    assert_eq!(MpNextHop::Single(IpAddress::V4(7)).global_addr(), IpAddress::V4(7));
}

#[test]
fn next_hop_prefers_ipv6_mp_reach() {
    let mut e = entry(0, Vec::new());
    assert_eq!(e.next_hop_addr(), Ok(IpAddress::V4(0x5000_0001)));
    e.mp_reach = Some(MpReach { is_ipv6: true, next_hop: Some(MpNextHop::Pair(GLOBAL, LINK_LOCAL)) });
    assert_eq!(e.next_hop_addr(), Ok(IpAddress::V6(GLOBAL)));
    e.mp_reach = Some(MpReach { is_ipv6: false, next_hop: Some(MpNextHop::Single(IpAddress::V4(9))) });
    assert_eq!(e.next_hop_addr(), Ok(IpAddress::V4(0x5000_0001)));
    e.mp_reach = Some(MpReach { is_ipv6: true, next_hop: None });
    assert_eq!(e.next_hop_addr(), Ok(IpAddress::V4(0x5000_0001)));
    e.next_hop = None;
    assert_eq!(e.next_hop_addr(), Err(PathError::MissingAttribute));
    e.mp_reach = None;
    assert_eq!(e.next_hop_addr(), Err(PathError::MissingAttribute));
}

#[test]
fn peers_are_indexed_and_later_entries_win() {
    let peers = index_peers(&vec![(3, peer(1)), (4, peer(2)), (3, peer(5))]);
    assert_eq!(peers.len(), 2);
    assert_eq!(peers.get(&3), Some(&peer(5)));
    assert_eq!(peers.get(&4), Some(&peer(2)));
    assert_eq!(peers.get(&5), None);
}

#[test]
fn only_unicast_rib_tables_are_read() {
    assert!(TableDumpType::RibIpv4Unicast.is_unicast_rib());
    assert!(TableDumpType::RibIpv4UnicastAddPath.is_unicast_rib());
    assert!(TableDumpType::RibIpv6Unicast.is_unicast_rib());
    assert!(TableDumpType::RibIpv6UnicastAddPath.is_unicast_rib());
    assert!(!TableDumpType::PeerIndexTable.is_unicast_rib());
    assert!(!TableDumpType::RibIpv4Multicast.is_unicast_rib());
    assert!(!TableDumpType::RibIpv6Multicast.is_unicast_rib());
    assert!(!TableDumpType::RibGeneric.is_unicast_rib());
    assert!(!TableDumpType::GeoPeerTable.is_unicast_rib());
    assert!(!TableDumpType::RibIpv4MulticastAddPath.is_unicast_rib());
    assert!(!TableDumpType::RibIpv6MulticastAddPath.is_unicast_rib());
    assert!(!TableDumpType::RibGenericAddPath.is_unicast_rib());
}

#[test]
fn as_set_entry_lands_under_two_origins() {
    let records = vec![
        peer_table(),
        rib(
            v4_prefix(),
            vec![entry(
                1,
                vec![PathSegment::AsSequence(vec![10, 20]), PathSegment::AsSet(vec![30, 40])],
            )],
        ),
    ];
    let d = parse_rib(String::from("rib"), &records).unwrap();
    assert_eq!(paths_of(&d), vec![(30, vec![10, 20, 30], 1), (40, vec![10, 20, 40], 1)]);
    let route = &d.get_as_paths_for_origin(&30).unwrap().get_as_paths()[0].get_routes()[0];
    assert_eq!(route.get_as_path(), &vec![10, 20, 30]);
    let route = &d.get_as_paths_for_origin(&40).unwrap().get_as_paths()[0].get_routes()[0];
    assert_eq!(route.get_as_path(), &vec![10, 20, 40]);
}

#[test]
fn default_routes_are_skipped() {
    let default_v4 = Prefix::new(IpAddress::V4(0), 0).unwrap();
    let default_v6 = Prefix::new(IpAddress::V6(0), 0).unwrap();
    let records = vec![
        peer_table(),
        rib(default_v4, vec![entry(0, vec![PathSegment::AsSequence(vec![64289, 6762])])]),
        MrtRecord::RibAfi(RibAfiEntries {
            rib_type: TableDumpType::RibIpv6Unicast,
            prefix: default_v6,
            rib_entries: vec![entry(0, vec![PathSegment::AsSequence(vec![61049, 3257])])],
        }),
    ];
    let d = parse_rib(String::from("rib"), &records).unwrap();
    assert_eq!(d.count_origins(), 0);
    assert_eq!(d.count_as_paths(), 0);
}

#[test]
fn unreadable_entries_of_a_default_route_do_no_harm() {
    // The record is skipped before its entries are looked at.
    let default_v4 = Prefix::new(IpAddress::V4(0), 0).unwrap();
    let mut broken = entry(0, Vec::new());
    broken.as_path = None;
    let records = vec![peer_table(), rib(default_v4, vec![broken])];
    assert_eq!(parse_rib(String::from("rib"), &records).unwrap().count_origins(), 0);
}

#[test]
fn entry_with_empty_path_is_skipped() {
    let records = vec![
        peer_table(),
        rib(
            v4_prefix(),
            vec![
                entry(0, Vec::new()),
                entry(0, vec![PathSegment::AsSequence(Vec::new())]),
                // The peer index is unknown, but no route is made of it.
                entry(99, Vec::new()),
                entry(1, vec![PathSegment::AsSequence(vec![1, 2, 3])]),
            ],
        ),
    ];
    let d = parse_rib(String::from("rib"), &records).unwrap();
    assert_eq!(paths_of(&d), vec![(3, vec![1, 2, 3], 1)]);
}

#[test]
fn parsed_routes_carry_peer_prefix_next_hop_and_tags() {
    let mut e = entry(7, vec![PathSegment::AsSequence(vec![1, 1, 2, 3])]);
    e.communities = Some(vec![Community::Custom(1, 100)]);
    e.large_communities = Some(vec![LargeCommunity::new(2, 3, 4)]);
    let records = vec![peer_table(), rib(v4_prefix(), vec![e])];
    let d = parse_rib(String::from("rib.1"), &records).unwrap();
    let stored = &d.get_as_paths_for_origin(&3).unwrap().get_as_paths()[0].get_routes()[0];
    let expected = bgp_paths::route::Route::new(
        vec![1, 1, 2, 3],
        String::from("rib.1"),
        IpAddress::V4(0x5000_0001),
        peer(7),
        v4_prefix(),
        Vec::new(),
        Vec::new(),
    )
    .unwrap();
    assert!(*stored == expected);
    assert_eq!(stored.get_communities(), &vec![Community::Custom(1, 100)]);
    assert_eq!(stored.get_large_communities(), &vec![LargeCommunity::new(2, 3, 4)]);
    assert!(d.has_route(&expected));
}

#[test]
fn absent_community_attributes_are_empty() {
    let records =
        vec![peer_table(), rib(v4_prefix(), vec![entry(0, vec![PathSegment::AsSequence(vec![1, 3])])])];
    let d = parse_rib(String::from("rib"), &records).unwrap();
    let stored = &d.get_as_paths_for_origin(&3).unwrap().get_as_paths()[0].get_routes()[0];
    assert!(stored.get_communities().is_empty());
    assert!(stored.get_large_communities().is_empty());
}

#[test]
fn entries_of_several_records_are_folded() {
    let other_prefix = Prefix::new(IpAddress::V4(0xC633_6400), 24).unwrap();
    let records = vec![
        peer_table(),
        rib(
            v4_prefix(),
            vec![
                entry(0, vec![PathSegment::AsSequence(vec![1, 2, 3])]),
                entry(1, vec![PathSegment::AsSequence(vec![1, 2, 2, 3])]),
                entry(0, vec![PathSegment::AsSequence(vec![1, 2, 3])]),
            ],
        ),
        rib(
            other_prefix,
            vec![
                entry(0, vec![PathSegment::AsSequence(vec![1, 2, 3])]),
                entry(0, vec![PathSegment::AsSequence(vec![4, 3])]),
                entry(0, vec![PathSegment::AsSequence(vec![4, 5])]),
            ],
        ),
    ];
    let d = parse_rib(String::from("rib"), &records).unwrap();
    assert_eq!(
        paths_of(&d),
        vec![(3, vec![1, 2, 3], 3), (3, vec![4, 3], 1), (5, vec![4, 5], 1)]
    );
}

#[test]
fn first_record_must_be_the_peer_table() {
    let records = vec![rib(v4_prefix(), vec![entry(0, vec![PathSegment::AsSequence(vec![1, 3])])])];
    assert_eq!(
        parse_rib(String::from("rib"), &records).err(),
        Some(PathError::UnexpectedRecordType)
    );
    assert_eq!(
        parse_rib(String::from("rib"), &vec![MrtRecord::Other]).err(),
        Some(PathError::UnexpectedRecordType)
    );
}

#[test]
fn file_without_records_is_ill_formed() {
    assert_eq!(parse_rib(String::from("rib"), &Vec::new()).err(), Some(PathError::MalformedMrt));
}

#[test]
fn peer_table_alone_gives_an_empty_index() {
    let d = parse_rib(String::from("rib"), &vec![peer_table()]).unwrap();
    assert_eq!(d.count_origins(), 0);
}

#[test]
fn second_peer_table_is_unexpected() {
    assert_eq!(
        parse_rib(String::from("rib"), &vec![peer_table(), peer_table()]).err(),
        Some(PathError::UnexpectedRecordType)
    );
}

#[test]
fn other_records_and_tables_are_unexpected() {
    assert_eq!(
        parse_rib(String::from("rib"), &vec![peer_table(), MrtRecord::Other]).err(),
        Some(PathError::UnexpectedRecordType)
    );
    let multicast = MrtRecord::RibAfi(RibAfiEntries {
        rib_type: TableDumpType::RibIpv4Multicast,
        prefix: v4_prefix(),
        rib_entries: Vec::new(),
    });
    assert_eq!(
        parse_rib(String::from("rib"), &vec![peer_table(), multicast]).err(),
        Some(PathError::UnexpectedRecordType)
    );
}

#[test]
fn malformed_record_is_reported() {
    assert_eq!(
        parse_rib(String::from("rib"), &vec![peer_table(), MrtRecord::Malformed]).err(),
        Some(PathError::MalformedMrt)
    );
    assert_eq!(
        parse_rib(String::from("rib"), &vec![MrtRecord::Malformed]).err(),
        Some(PathError::MalformedMrt)
    );
}

#[test]
fn missing_as_path_is_reported() {
    let mut e = entry(0, Vec::new());
    e.as_path = None;
    let records = vec![peer_table(), rib(v4_prefix(), vec![e])];
    assert_eq!(parse_rib(String::from("rib"), &records).err(), Some(PathError::MissingAttribute));
}

#[test]
fn missing_next_hop_is_reported() {
    let mut e = entry(0, vec![PathSegment::AsSequence(vec![1, 3])]);
    e.next_hop = None;
    let records = vec![peer_table(), rib(v4_prefix(), vec![e])];
    assert_eq!(parse_rib(String::from("rib"), &records).err(), Some(PathError::MissingAttribute));
}

#[test]
fn unknown_peer_index_is_reported() {
    let records =
        vec![peer_table(), rib(v4_prefix(), vec![entry(2, vec![PathSegment::AsSequence(vec![1, 3])])])];
    assert_eq!(parse_rib(String::from("rib"), &records).err(), Some(PathError::MalformedMrt));
}

#[test]
fn confederation_segment_in_an_entry_is_reported() {
    let records = vec![
        peer_table(),
        rib(v4_prefix(), vec![entry(0, vec![PathSegment::ConfedSequence(vec![1, 3])])]),
    ];
    assert_eq!(parse_rib(String::from("rib"), &records).err(), Some(PathError::MalformedMrt));
}

#[test]
fn first_offending_entry_decides_the_error() {
    let mut no_path = entry(0, Vec::new());
    no_path.as_path = None;
    let records = vec![
        peer_table(),
        rib(
            v4_prefix(),
            vec![
                entry(0, vec![PathSegment::AsSequence(vec![1, 3])]),
                entry(0, vec![PathSegment::ConfedSet(vec![1, 3])]),
                no_path,
            ],
        ),
    ];
    assert_eq!(parse_rib(String::from("rib"), &records).err(), Some(PathError::MalformedMrt));
}

#[test]
fn parser_takes_records_one_by_one() {
    let parser = RibParser::new(String::from("rib"));
    let parser = parser.consume(&peer_table()).unwrap();
    let parser = parser
        .consume(&rib(v4_prefix(), vec![entry(0, vec![PathSegment::AsSequence(vec![1, 2, 3])])]))
        .unwrap();
    let parser = parser
        .consume(&rib(v4_prefix(), vec![entry(1, vec![PathSegment::AsSequence(vec![4, 3])])]))
        .unwrap();
    let d = parser.finish().unwrap();
    assert_eq!(paths_of(&d), vec![(3, vec![1, 2, 3], 1), (3, vec![4, 3], 1)]);
}

#[test]
fn parser_without_peer_table_has_nothing_to_hand_over() {
    assert_eq!(RibParser::new(String::from("rib")).finish().err(), Some(PathError::MalformedMrt));
    assert_eq!(
        RibParser::new(String::from("rib")).consume(&MrtRecord::Other).err(),
        Some(PathError::UnexpectedRecordType)
    );
}

#[test]
fn ipv6_record_takes_the_mp_reach_next_hop() {
    let mut e = entry(0, vec![PathSegment::AsSequence(vec![1, 2, 3])]);
    e.next_hop = None;
    e.mp_reach = Some(MpReach { is_ipv6: true, next_hop: Some(MpNextHop::Pair(GLOBAL, LINK_LOCAL)) });
    let prefix = Prefix::new(IpAddress::V6(0x0200_1900_5203_0000_0000_0000_0000_0000), 56).unwrap();
    let records = vec![
        peer_table(),
        MrtRecord::RibAfi(RibAfiEntries {
            rib_type: TableDumpType::RibIpv6UnicastAddPath,
            prefix,
            rib_entries: vec![e],
        }),
    ];
    let d = parse_rib(String::from("rib"), &records).unwrap();
    let expected = bgp_paths::route::Route::new(
        vec![1, 2, 3],
        String::from("rib"),
        IpAddress::V6(GLOBAL),
        peer(0),
        prefix,
        Vec::new(),
        Vec::new(),
    )
    .unwrap();
    assert!(d.has_route(&expected));
}
