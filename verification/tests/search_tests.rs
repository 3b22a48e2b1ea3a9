use bgp_paths::net::{Asn, Community, IpAddress, LargeCommunity, Peer, Prefix};
use bgp_paths::origin_as_paths::OriginAsPaths;
use bgp_paths::path_data::PathData;
use bgp_paths::route::Route;
use bgp_paths::search::{asn_is_hidden, communities_without_asn, find_paths, route_names_hidden_asn};

fn tagged(
    as_path: Vec<Asn>,
    filename: &str,
    communities: Vec<Community>,
    large_communities: Vec<LargeCommunity>,
) -> Route {
    Route::new(
        as_path,
        String::from(filename),
        IpAddress::get_mock(),
        Peer::get_mock(),
        Prefix::get_mock(),
        communities,
        large_communities,
    )
    .unwrap()
}

fn plain(as_path: Vec<Asn>) -> Route {
    tagged(as_path, "rib", Vec::new(), Vec::new())
}

#[test]
fn reserved_as_numbers_never_hide() {
    let path: Vec<Asn> = vec![1, 2, 3];
    for asn in [
        0u32, 112, 23456, 64496, 64511, 64512, 65534, 65535, 65536, 65551, 4200000000,
        4294967294, 4294967295,
    ] {
        assert!(!asn_is_hidden(asn, &path), "{}", asn);
    }
}

#[test]
fn assignable_as_numbers_off_the_path_hide() {
    let path: Vec<Asn> = vec![1, 2, 3];
    for asn in [4u32, 111, 113, 3356, 23455, 23457, 64495, 65552, 4199999999] {
        assert!(asn_is_hidden(asn, &path), "{}", asn);
    }
}

#[test]
fn as_numbers_on_the_path_do_not_hide() {
    let path: Vec<Asn> = vec![1, 2, 3];
    assert!(!asn_is_hidden(1, &path));
    assert!(!asn_is_hidden(2, &path));
    assert!(!asn_is_hidden(3, &path));
    assert!(asn_is_hidden(3, &Vec::new()));
}

#[test]
fn route_with_foreign_community_is_flagged() {
    assert!(route_names_hidden_asn(&tagged(
        vec![1, 2, 3],
        "rib",
        vec![Community::Custom(2, 10), Community::Custom(3356, 10)],
        Vec::new()
    )));
    assert!(route_names_hidden_asn(&tagged(
        vec![1, 2, 3],
        "rib",
        Vec::new(),
        vec![LargeCommunity::new(1, 0, 0), LargeCommunity::new(174, 0, 0)]
    )));
}

#[test]
fn route_with_own_reserved_or_well_known_tags_is_not_flagged() {
    assert!(!route_names_hidden_asn(&plain(vec![1, 2, 3])));
    assert!(!route_names_hidden_asn(&tagged(
        vec![1, 2, 3],
        "rib",
        vec![
            Community::Custom(1, 7),
            Community::Custom(65535, 7),
            Community::Custom(64512, 7),
            Community::NoExport,
            Community::NoAdvertise,
            Community::NoExportSubConfed,
        ],
        vec![LargeCommunity::new(3, 1, 2), LargeCommunity::new(4200000001, 1, 2)]
    )));
}

#[test]
fn communities_without_asn_finds_the_flagged_routes() {
    let mut d = PathData::new();
    d.insert_route(tagged(vec![1, 2, 3], "a", vec![Community::Custom(3356, 1)], Vec::new()));
    d.insert_route(tagged(vec![1, 2, 3], "b", vec![Community::Custom(2, 1)], Vec::new()));
    d.insert_route(tagged(vec![4, 3], "c", Vec::new(), vec![LargeCommunity::new(174, 1, 1)]));
    d.insert_route(tagged(vec![4, 5], "d", vec![Community::Custom(23456, 1)], Vec::new()));
    d.insert_route(tagged(vec![6, 5], "e", vec![Community::Custom(7, 1)], Vec::new()));
    let found = communities_without_asn(&d);
    let mut names: Vec<(Vec<Asn>, Vec<Community>, Vec<LargeCommunity>)> = found
        .iter()
        .map(|r| {
            (r.get_as_path().clone(), r.get_communities().clone(), r.get_large_communities().clone())
        })
        .collect();
    names.sort_by(|a, b| a.0.cmp(&b.0));
    assert_eq!(
        names,
        vec![
            (vec![1, 2, 3], vec![Community::Custom(3356, 1)], Vec::new()),
            (vec![4, 3], Vec::new(), vec![LargeCommunity::new(174, 1, 1)]),
            (vec![6, 5], vec![Community::Custom(7, 1)], Vec::new()),
        ]
    );
}

#[test]
fn communities_without_asn_keeps_the_stored_order_under_an_origin() {
    let mut d = PathData::new();
    d.insert_route(tagged(vec![9, 3], "a", vec![Community::Custom(100, 1)], Vec::new()));
    d.insert_route(tagged(vec![8, 3], "a", vec![Community::Custom(200, 1)], Vec::new()));
    d.insert_route(tagged(vec![9, 9, 3], "a", vec![Community::Custom(300, 1)], Vec::new()));
    let found = communities_without_asn(&d);
    let paths: Vec<Vec<Asn>> = found.iter().map(|r| r.get_as_path().clone()).collect();
    assert_eq!(paths, vec![vec![9, 3], vec![9, 9, 3], vec![8, 3]]);
}

#[test]
fn communities_without_asn_of_an_empty_index_is_empty() {
    assert!(communities_without_asn(&PathData::new()).is_empty());
}

#[test]
fn overlapping_paths_are_reported_by_place() {
    let mut oap = OriginAsPaths::new(3);
    oap.add_route(plain(vec![1, 2, 3])).unwrap();
    oap.add_route(plain(vec![4, 5, 3])).unwrap();
    oap.add_route(plain(vec![4, 2, 5, 3])).unwrap();
    oap.add_route(plain(vec![9, 2, 3])).unwrap();
    // [1,2,3] and [4,2,5,3] part ways behind 2; [4,5,3] and [4,2,5,3] behind 4;
    // [4,2,5,3] and [9,2,3] behind 2. [1,2,3] and [9,2,3] share the rest.
    assert_eq!(oap.find_overlapping_paths(), vec![(0, 2), (1, 2), (2, 3)]);
    assert!(oap.has_overlapping_paths());
}

#[test]
fn paths_that_share_only_the_origin_do_not_overlap() {
    let mut oap = OriginAsPaths::new(3);
    oap.add_route(plain(vec![1, 2, 3])).unwrap();
    oap.add_route(plain(vec![4, 5, 3])).unwrap();
    assert_eq!(oap.find_overlapping_paths(), Vec::<(usize, usize)>::new());
    assert!(!oap.has_overlapping_paths());
    assert!(!OriginAsPaths::new(3).has_overlapping_paths());
}

#[test]
fn find_paths_names_the_origins_with_diverging_paths() {
    let mut d = PathData::new();
    d.insert_route(plain(vec![1, 2, 3]));
    d.insert_route(plain(vec![4, 2, 5, 3]));
    d.insert_route(plain(vec![1, 2, 6]));
    d.insert_route(plain(vec![4, 5, 6]));
    d.insert_route(plain(vec![7, 8]));
    d.insert_route(plain(vec![7, 9, 8]));
    let mut found = find_paths(&d);
    found.sort();
    assert_eq!(found, vec![3, 8]);
    let mut found = d.find_origins_with_overlapping_paths();
    found.sort();
    assert_eq!(found, vec![3, 8]);
    assert!(find_paths(&PathData::new()).is_empty());
}
