use bgp_paths::as_path::AsPath;
use bgp_paths::dedup::{dedup_path, same_hops};
use bgp_paths::error::PathError;
use bgp_paths::net::{Asn, IpAddress, Peer, Prefix};
use bgp_paths::route::Route;

fn route(as_path: Vec<Asn>, filename: &str) -> Route {
    Route::new(
        as_path,
        String::from(filename),
        IpAddress::get_mock(),
        Peer::get_mock(),
        Prefix::get_mock(),
        Vec::new(),
        Vec::new(),
    )
    .unwrap()
}

#[test]
fn test_as_path_eq() {
    // EQ with same default origin and default AS path
    let mut ap_1 = AsPath::get_mock(None);
    ap_1.add_route(Route::get_mock(None)).unwrap();
    let mut ap_2 = AsPath::get_mock(None);
    ap_2.add_route(Route::get_mock(None)).unwrap();
    assert_eq!(ap_1, ap_2);

    // EQ with same explicit origin and explicit AS path
    ap_1 = AsPath::get_mock(Some(1));
    ap_1.add_route(Route::get_mock(Some(1))).unwrap();
    ap_2 = AsPath::get_mock(Some(1));
    ap_2.add_route(Route::get_mock(Some(1))).unwrap();
    assert_eq!(ap_1, ap_2);
}

#[test]
fn test_as_path_ne() {
    // NE with different origins
    let mut ap_1 = AsPath::get_mock(Some(1));
    let mut ap_2 = AsPath::get_mock(Some(2));
    assert_ne!(ap_1, ap_2);

    // NE if missing Route
    ap_1 = AsPath::get_mock(Some(1));
    ap_1.add_route(Route::get_mock(Some(1))).unwrap();
    ap_2 = AsPath::get_mock(Some(1));
    assert_ne!(ap_1, ap_2);

    // NE if different routes
    ap_1 = AsPath::get_mock(Some(1));
    ap_1.add_route(Route::get_mock(Some(1))).unwrap();
    ap_2 = AsPath::get_mock(Some(1));
    let refused = ap_1.add_route(Route::get_mock(Some(2)));
    assert_eq!(refused, Err(PathError::InvariantViolation));
    assert_ne!(ap_1, ap_2);
}

#[test]
fn test_has_divergence_with() {
    // Shared ASNs - no divergent paths
    let ap_1 = AsPath::get_mock(None);
    let ap_2 = AsPath::get_mock(None);
    assert!(ap_1.len() >= 3);
    assert_eq!(ap_1.get_as_path(), ap_2.get_as_path());
    assert!(!ap_1.has_divergence_with(&ap_2));

    // Shared ASNs - divergent paths
    let mut path_2: Vec<Asn> = ap_1.get_as_path().clone();
    path_2.insert(ap_1.len() - 1, 23456);
    let ap_2 = AsPath::new(path_2).unwrap();
    assert_ne!(ap_1.get_as_path(), ap_2.get_as_path());
    assert!(ap_1.len() >= 3);
    assert!(ap_2.len() >= 3);
    assert!(ap_1.has_divergence_with(&ap_2));

    // No shared ASNs - no divergent paths
    let ap_1 = AsPath::new(Vec::from([1, 2, 3])).unwrap();
    let ap_2 = AsPath::new(Vec::from([4, 5, 6])).unwrap();
    assert_ne!(ap_1.get_as_path(), ap_2.get_as_path());
    assert!(ap_1.len() == 3);
    assert!(ap_2.len() == 3);
    assert!(!ap_1.has_divergence_with(&ap_2));
}

#[test]
fn dedup_removes_consecutive_duplicates_only() {
    assert_eq!(dedup_path(&vec![1, 1, 2, 3]), vec![1, 2, 3]);
    assert_eq!(dedup_path(&vec![1, 2, 2, 3]), vec![1, 2, 3]);
    assert_eq!(dedup_path(&vec![1, 2, 1, 2]), vec![1, 2, 1, 2]);
    assert_eq!(dedup_path(&vec![7, 7, 7, 7]), vec![7]);
    assert_eq!(dedup_path(&vec![3, 3, 1, 1, 3, 3]), vec![3, 1, 3]);
    assert_eq!(dedup_path(&vec![9]), vec![9]);
    assert_eq!(dedup_path(&Vec::new()), Vec::<Asn>::new());
}

#[test]
fn dedup_is_idempotent_on_a_sample() {
    let once = dedup_path(&vec![5, 5, 6, 6, 6, 5, 7, 7]);
    assert_eq!(once, vec![5, 6, 5, 7]);
    assert_eq!(dedup_path(&once), once);
}

#[test]
fn same_hops_compares_element_by_element() {
    assert!(same_hops(&vec![1, 2, 3], &vec![1, 2, 3]));
    assert!(!same_hops(&vec![1, 2, 3], &vec![1, 2]));
    assert!(!same_hops(&vec![1, 2, 3], &vec![1, 2, 4]));
    assert!(same_hops(&Vec::new(), &Vec::new()));
}

#[test]
fn as_path_new_rejects_empty_input() {
    assert_eq!(AsPath::new(Vec::new()), Err(PathError::MalformedAsPath));
}

#[test]
fn as_path_new_stores_deduplicated_hops() {
    let ap = AsPath::new(vec![1, 1, 2, 3, 3]).unwrap();
    assert_eq!(ap.get_as_path(), &vec![1, 2, 3]);
    assert_eq!(ap.len(), 3);
    assert!(!ap.is_empty());
    assert_eq!(ap.get_routes().len(), 0);
}

#[test]
fn as_path_keeps_non_consecutive_duplicates() {
    let ap = AsPath::new(vec![1, 2, 1, 3]).unwrap();
    assert_eq!(ap.get_as_path(), &vec![1, 2, 1, 3]);
    assert_eq!(ap.len(), 4);
}

#[test]
fn as_path_add_route_is_idempotent() {
    let mut ap = AsPath::new(vec![1, 2, 3]).unwrap();
    assert!(!ap.has_route(&route(vec![1, 2, 3], "a")));
    ap.add_route(route(vec![1, 2, 3], "a")).unwrap();
    assert!(ap.has_route(&route(vec![1, 2, 3], "a")));
    assert_eq!(ap.get_routes().len(), 1);
    ap.add_route(route(vec![1, 2, 3], "a")).unwrap();
    assert_eq!(ap.get_routes().len(), 1);
}

#[test]
fn as_path_holds_routes_that_differ_in_prepending() {
    let mut ap = AsPath::new(vec![1, 2, 3]).unwrap();
    ap.add_route(route(vec![1, 1, 2, 3], "a")).unwrap();
    ap.add_route(route(vec![1, 2, 2, 3], "a")).unwrap();
    ap.add_route(route(vec![1, 2, 3], "a")).unwrap();
    assert_eq!(ap.get_routes().len(), 3);
    assert_eq!(ap.get_routes()[0].get_as_path(), &vec![1, 1, 2, 3]);
    assert_eq!(ap.get_routes()[2].get_as_path(), &vec![1, 2, 3]);
}

#[test]
fn as_path_add_route_refuses_foreign_route() {
    let mut ap = AsPath::new(vec![1, 2, 3]).unwrap();
    assert_eq!(ap.add_route(route(vec![1, 2, 4], "a")), Err(PathError::InvariantViolation));
    assert_eq!(ap.add_route(route(vec![1, 3], "a")), Err(PathError::InvariantViolation));
    assert_eq!(ap.add_route(route(vec![2, 1, 3], "a")), Err(PathError::InvariantViolation));
    assert_eq!(ap.get_routes().len(), 0);
}

#[test]
fn as_path_merge_from_takes_missing_routes_only() {
    let mut a = AsPath::new(vec![1, 2, 3]).unwrap();
    a.add_route(route(vec![1, 2, 3], "a")).unwrap();
    let mut b = AsPath::new(vec![1, 2, 3]).unwrap();
    b.add_route(route(vec![1, 2, 3], "a")).unwrap();
    b.add_route(route(vec![1, 2, 3], "b")).unwrap();
    a.merge_from(&b).unwrap();
    assert_eq!(a.get_routes().len(), 2);
    assert_eq!(a, b);
    a.merge_from(&b).unwrap();
    assert_eq!(a.get_routes().len(), 2);
    let c = AsPath::new(vec![4, 2, 3]).unwrap();
    assert_eq!(a.merge_from(&c), Err(PathError::InvariantViolation));
    assert_eq!(a.get_routes().len(), 2);
}

#[test]
fn as_path_clone_is_equal() {
    let mut a = AsPath::new(vec![1, 2, 3]).unwrap();
    a.add_route(route(vec![1, 2, 3], "a")).unwrap();
    a.add_route(route(vec![1, 2, 3], "b")).unwrap();
    let b = a.clone();
    assert_eq!(a, b);
    assert_eq!(b.get_routes().len(), 2);
}

#[test]
fn divergence_with_shared_middle_hop() {
    let a = AsPath::new(vec![1, 2, 3]).unwrap();
    let b = AsPath::new(vec![4, 2, 5, 3]).unwrap();
    assert!(a.has_divergence_with(&b));
    assert!(b.has_divergence_with(&a));
}

#[test]
fn no_divergence_when_only_the_origin_is_shared() {
    let a = AsPath::new(vec![1, 2, 3]).unwrap();
    let b = AsPath::new(vec![4, 5, 3]).unwrap();
    assert!(!a.has_divergence_with(&b));
    assert!(!b.has_divergence_with(&a));
}

#[test]
fn no_divergence_when_the_shared_suffix_is_equal() {
    let a = AsPath::new(vec![1, 2, 3]).unwrap();
    let b = AsPath::new(vec![9, 8, 2, 3]).unwrap();
    assert!(!a.has_divergence_with(&b));
    assert!(!b.has_divergence_with(&a));
}

#[test]
fn divergence_counts_from_the_first_occurrence() {
    // 2 occurs twice in the first path: the suffix is taken from the first.
    let a = AsPath::new(vec![2, 7, 2, 3]).unwrap();
    let b = AsPath::new(vec![1, 2, 3]).unwrap();
    assert!(a.has_divergence_with(&b));
    assert!(b.has_divergence_with(&a));
}

#[test]
fn divergence_is_symmetric_on_samples() {
    let paths: Vec<Vec<Asn>> = vec![
        vec![1, 2, 3],
        vec![4, 2, 5, 3],
        vec![4, 5, 3],
        vec![3],
        vec![2, 3],
        vec![1, 2, 1, 3],
        vec![5, 4, 2, 3],
    ];
    for p in &paths {
        for q in &paths {
            let a = AsPath::new(p.clone()).unwrap();
            let b = AsPath::new(q.clone()).unwrap();
            assert_eq!(a.has_divergence_with(&b), b.has_divergence_with(&a));
        }
    }
}

#[test]
fn single_hop_paths_never_diverge() {
    let a = AsPath::new(vec![3]).unwrap();
    let b = AsPath::new(vec![1, 2, 3]).unwrap();
    assert!(!a.has_divergence_with(&b));
    assert!(!b.has_divergence_with(&a));
    assert!(!a.has_divergence_with(&a));
}

#[test]
fn mock_as_path_collapses_a_repeated_origin() {
    let ap = AsPath::get_mock(Some(2));
    assert_eq!(ap.get_as_path(), &vec![1, 2]);
    let ap = AsPath::get_mock(None);
    assert_eq!(ap.get_as_path(), &vec![1, 2, 65535]);
}
