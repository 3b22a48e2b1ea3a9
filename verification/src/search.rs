//! The analysis passes that read the finished index: community tags that
//! name an AS which is not on the path, and AS paths to one origin that
//! diverge.

use vstd::prelude::*;
use crate::as_path::{AsPath, AsPathView};
use crate::net::{Asn, Community, LargeCommunity};
use crate::origin_as_paths::OriginAsPaths;
use crate::path_data::{PathData, PathDataView};
use crate::route::{Route, RouteView};

verus! {

/// Whether `asn` is in IANA's registry of special-purpose AS numbers: the
/// reserved numbers 0, 112, 23456, 65535 and 4294967295, the documentation
/// ranges, and the private-use ranges.
pub open spec fn is_special_purpose(asn: Asn) -> bool {
    ||| asn == 0
    ||| asn == 112
    ||| asn == 23456
    ||| 64496 <= asn <= 64511
    ||| 64512 <= asn <= 65534
    ||| asn == 65535
    ||| 65536 <= asn <= 65551
    ||| 4200000000 <= asn <= 4294967294
    ||| asn == 4294967295
}

/// Asks `bgpkit_parser::models::Asn::is_reserved` whether the AS number is
/// reserved. The contract restates the ranges that the method matches on;
/// they are taken on trust from its source and not proved here.
#[verifier::external_body]
fn asn_is_reserved(asn: Asn) -> (r: bool)
    ensures
        r == is_special_purpose(asn),
{
    bgpkit_parser::models::Asn::new_32bit(asn).is_reserved()
}

/// Whether a tag that names `asn` points at an AS that hides: a number
/// open to assignment that is not among the hops.
pub open spec fn is_hidden(asn: Asn, as_path: Seq<Asn>) -> bool {
    !is_special_purpose(asn) && !as_path.contains(asn)
}

/// Whether the tag names an AS that hides from `as_path`. The well-known
/// tags name no AS.
pub open spec fn community_hides(tag: Community, as_path: Seq<Asn>) -> bool {
    match tag {
        Community::Custom(asn, _) => is_hidden(asn, as_path),
        _ => false,
    }
}

/// Whether one of the route's community tags, plain or large, names an AS
/// that hides from the route's AS path.
pub open spec fn names_hidden_asn(r: RouteView) -> bool {
    ||| exists|i: int|
        0 <= i < r.communities.len() && community_hides(#[trigger] r.communities[i], r.key.as_path)
    ||| exists|i: int|
        0 <= i < r.large_communities.len() && is_hidden(
            (#[trigger] r.large_communities[i]).global_admin,
            r.key.as_path,
        )
}

/// Whether `asn` is among the hops.
fn on_path(as_path: &Vec<Asn>, asn: Asn) -> (r: bool)
    ensures
        r == as_path@.contains(asn),
{
    let mut i: usize = 0;
    while i < as_path.len()
        invariant
            0 <= i <= as_path.len(),
            forall|j: int| 0 <= j < i ==> as_path@[j] != asn,
        decreases as_path.len() - i,
    {
        if as_path[i] == asn {
            return true;
        }
        i += 1;
    }
    false
}

/// Whether a tag that names `asn` points at an AS that hides from
/// `as_path`.
pub fn asn_is_hidden(asn: Asn, as_path: &Vec<Asn>) -> (r: bool)
    ensures
        r == is_hidden(asn, as_path@),
{
    !asn_is_reserved(asn) && !on_path(as_path, asn)
}

/// Whether one of the route's community tags names an AS that hides from
/// the route's AS path. The plain tags are searched first, then the large
/// ones; the first hit settles it.
pub fn route_names_hidden_asn(route: &Route) -> (r: bool)
    ensures
        r == names_hidden_asn(route@),
{
    let as_path = route.get_as_path();
    let communities = route.get_communities();
    let mut i: usize = 0;
    while i < communities.len()
        invariant
            0 <= i <= communities.len(),
            as_path@ == route@.key.as_path,
            communities@ == route@.communities,
            forall|j: int| 0 <= j < i ==> !community_hides(#[trigger] communities@[j], as_path@),
        decreases communities.len() - i,
    {
        match communities[i] {
            Community::Custom(asn, _) => {
                if asn_is_hidden(asn, as_path) {
                    return true;
                }
            },
            _ => {},
        }
        i += 1;
    }
    let large_communities = route.get_large_communities();
    let mut k: usize = 0;
    while k < large_communities.len()
        invariant
            0 <= k <= large_communities.len(),
            as_path@ == route@.key.as_path,
            large_communities@ == route@.large_communities,
            forall|j: int|
                0 <= j < k ==> !is_hidden(
                    (#[trigger] large_communities@[j]).global_admin,
                    as_path@,
                ),
        decreases large_communities.len() - k,
    {
        if asn_is_hidden(large_communities[k].global_admin, as_path) {
            return true;
        }
        k += 1;
    }
    false
}

/// The routes among `routes` whose community tags name a hidden AS, in
/// their order.
pub open spec fn hits(routes: Seq<RouteView>) -> Seq<RouteView> {
    routes.filter(|r: RouteView| names_hidden_asn(r))
}

/// The hits under each of `paths`, AS path by AS path.
pub open spec fn hits_of_paths(paths: Seq<AsPathView>) -> Seq<RouteView>
    decreases paths.len(),
{
    if paths.len() == 0 {
        Seq::empty()
    } else {
        hits_of_paths(paths.drop_last()) + hits(paths.last().routes)
    }
}

/// The hits under each origin of `order`, origin by origin.
pub open spec fn hits_of_origins(index: PathDataView, order: Seq<Asn>) -> Seq<RouteView>
    decreases order.len(),
{
    if order.len() == 0 {
        Seq::empty()
    } else {
        hits_of_origins(index, order.drop_last()) + hits_of_paths(
            index.origins[order.last()].paths,
        )
    }
}

/// What two sequences joined hold is what either holds.
proof fn lemma_concat_contains(a: Seq<RouteView>, b: Seq<RouteView>, v: RouteView)
    ensures
        (a + b).contains(v) <==> (a.contains(v) || b.contains(v)),
{
    if a.contains(v) {
        let i = choose|i: int| 0 <= i < a.len() && a[i] == v;
        assert((a + b)[i] == v);
    }
    if b.contains(v) {
        let i = choose|i: int| 0 <= i < b.len() && b[i] == v;
        assert((a + b)[a.len() + i] == v);
    }
    if (a + b).contains(v) {
        let i = choose|i: int| 0 <= i < (a + b).len() && (a + b)[i] == v;
        if i < a.len() {
            assert(a[i] == v);
        } else {
            assert(b[i - a.len()] == v);
        }
    }
}

/// The hits among `routes` are the routes of `routes` that name a hidden AS.
pub proof fn lemma_hits(routes: Seq<RouteView>, v: RouteView)
    ensures
        hits(routes).contains(v) <==> (routes.contains(v) && names_hidden_asn(v)),
    decreases routes.len(),
{
    reveal(Seq::filter);
    if routes.len() > 0 {
        let front = routes.drop_last();
        let hit = |r: RouteView| names_hidden_asn(r);
        lemma_hits(front, v);
        assert(routes =~= front.push(routes.last()));
        lemma_concat_contains(front, seq![routes.last()], v);
        assert(front.push(routes.last()) =~= front + seq![routes.last()]);
        assert(seq![routes.last()].contains(v) <==> v == routes.last()) by {
            if v == routes.last() {
                assert(seq![routes.last()][0] == v);
            }
        }
        if names_hidden_asn(routes.last()) {
            assert(hits(routes) =~= hits(front) + seq![routes.last()]);
            lemma_concat_contains(hits(front), seq![routes.last()], v);
        } else {
            assert(hits(routes) =~= hits(front));
        }
    }
}

/// The hits under `paths` are the routes under any of them that name a
/// hidden AS.
pub proof fn lemma_hits_of_paths(paths: Seq<AsPathView>, v: RouteView)
    ensures
        hits_of_paths(paths).contains(v) <==> (names_hidden_asn(v) && exists|i: int|
            0 <= i < paths.len() && (#[trigger] paths[i]).routes.contains(v)),
    decreases paths.len(),
{
    if paths.len() > 0 {
        let front = paths.drop_last();
        lemma_hits_of_paths(front, v);
        lemma_hits(paths.last().routes, v);
        lemma_concat_contains(hits_of_paths(front), hits(paths.last().routes), v);
        if exists|i: int| 0 <= i < front.len() && (#[trigger] front[i]).routes.contains(v) {
            let i = choose|i: int| 0 <= i < front.len() && (#[trigger] front[i]).routes.contains(v);
            assert(paths[i].routes.contains(v));
        }
        if paths.last().routes.contains(v) {
            assert(paths[paths.len() - 1].routes.contains(v));
        }
        if exists|i: int| 0 <= i < paths.len() && (#[trigger] paths[i]).routes.contains(v) {
            let i = choose|i: int| 0 <= i < paths.len() && (#[trigger] paths[i]).routes.contains(v);
            if i < front.len() {
                assert(front[i].routes.contains(v));
            }
        }
    }
}

/// The hits under the origins of `order` are the routes under any of them
/// that name a hidden AS.
pub proof fn lemma_hits_of_origins(index: PathDataView, order: Seq<Asn>, v: RouteView)
    ensures
        hits_of_origins(index, order).contains(v) <==> (names_hidden_asn(v) && exists|i: int|
            0 <= i < order.len() && index.origins[#[trigger] order[i]].holds(v)),
    decreases order.len(),
{
    if order.len() > 0 {
        let front = order.drop_last();
        lemma_hits_of_origins(index, front, v);
        lemma_hits_of_paths(index.origins[order.last()].paths, v);
        lemma_concat_contains(
            hits_of_origins(index, front),
            hits_of_paths(index.origins[order.last()].paths),
            v,
        );
        if exists|i: int| 0 <= i < front.len() && index.origins[#[trigger] front[i]].holds(v) {
            let i = choose|i: int|
                0 <= i < front.len() && index.origins[#[trigger] front[i]].holds(v);
            assert(index.origins[order[i]].holds(v));
        }
        if index.origins[order.last()].holds(v) {
            assert(index.origins[order[order.len() - 1]].holds(v));
        }
        if exists|i: int| 0 <= i < order.len() && index.origins[#[trigger] order[i]].holds(v) {
            let i = choose|i: int|
                0 <= i < order.len() && index.origins[#[trigger] order[i]].holds(v);
            if i < front.len() {
                assert(index.origins[front[i]].holds(v));
            }
        }
    }
}

/// Whatever the order in which the origins are visited, the hits are the
/// stored routes whose community tags name a hidden AS: all of them, and
/// nothing else.
pub proof fn law_hits_are_the_tagged_routes(index: PathDataView, order: Seq<Asn>, v: RouteView)
    requires
        order.to_set() == index.origins.dom(),
    ensures
        hits_of_origins(index, order).contains(v) <==> (index.holds(v) && names_hidden_asn(v)),
{
    lemma_hits_of_origins(index, order, v);
    if index.holds(v) {
        let o = choose|o: Asn| #[trigger] index.origins.contains_key(o) && index.origins[o].holds(v);
        assert(order.to_set().contains(o));
        let i = choose|i: int| 0 <= i < order.len() && order[i] == o;
        assert(index.origins[order[i]].holds(v));
    }
    if exists|i: int| 0 <= i < order.len() && index.origins[#[trigger] order[i]].holds(v) {
        let i = choose|i: int| 0 <= i < order.len() && index.origins[#[trigger] order[i]].holds(v);
        assert(order.contains(order[i]));
        assert(order.to_set().contains(order[i]));
        assert(index.origins.contains_key(order[i]));
    }
}

/// Appends to `found` a copy of every route of `as_path` whose community
/// tags name a hidden AS.
fn collect_as_path_hits(as_path: &AsPath, found: &mut Vec<Route>)
    ensures
        final(found)@.map_values(|r: Route| r@) == old(found)@.map_values(|r: Route| r@) + hits(
            as_path@.routes,
        ),
{
    let routes = as_path.get_routes();
    let ghost views = as_path@.routes;
    let ghost before = found@.map_values(|r: Route| r@);
    let ghost hit = |r: RouteView| names_hidden_asn(r);
    let mut i: usize = 0;
    proof {
        reveal(Seq::filter);
        assert(views.take(0).filter(hit) =~= Seq::<RouteView>::empty());
        assert(found@.map_values(|r: Route| r@) =~= before + views.take(0).filter(hit));
    }
    while i < routes.len()
        invariant
            0 <= i <= routes.len(),
            routes@.map_values(|r: Route| r@) == views,
            hit == |r: RouteView| names_hidden_asn(r),
            found@.map_values(|r: Route| r@) == before + views.take(i as int).filter(hit),
        decreases routes.len() - i,
    {
        proof {
            reveal(Seq::filter);
            assert(views.take(i + 1).drop_last() =~= views.take(i as int));
            assert(views.take(i + 1).last() == routes@[i as int]@);
        }
        if route_names_hidden_asn(&routes[i]) {
            let copy = routes[i].clone();
            let ghost held = found@;
            found.push(copy);
            proof {
                assert(found@.map_values(|r: Route| r@) =~= held.map_values(|r: Route| r@).push(
                    copy@,
                ));
                assert(found@.map_values(|r: Route| r@) =~= before + views.take(i + 1).filter(
                    hit,
                ));
            }
        }
        i += 1;
    }
    proof {
        assert(views.take(routes.len() as int) =~= views);
    }
}

/// Appends to `found` the hits under every AS path of `entry`.
fn collect_origin_hits(entry: &OriginAsPaths, found: &mut Vec<Route>)
    ensures
        final(found)@.map_values(|r: Route| r@) == old(found)@.map_values(|r: Route| r@)
            + hits_of_paths(entry@.paths),
{
    let as_paths = entry.get_as_paths();
    let ghost views = entry@.paths;
    let ghost before = found@.map_values(|r: Route| r@);
    let mut i: usize = 0;
    proof {
        assert(found@.map_values(|r: Route| r@) =~= before + hits_of_paths(views.take(0)));
    }
    while i < as_paths.len()
        invariant
            0 <= i <= as_paths.len(),
            as_paths@.map_values(|p: AsPath| p@) == views,
            found@.map_values(|r: Route| r@) == before + hits_of_paths(views.take(i as int)),
        decreases as_paths.len() - i,
    {
        proof {
            assert(views.take(i + 1).drop_last() =~= views.take(i as int));
            assert(views.take(i + 1).last() == as_paths@[i as int]@);
        }
        collect_as_path_hits(&as_paths[i], found);
        proof {
            assert(found@.map_values(|r: Route| r@) =~= before + hits_of_paths(
                views.take(i + 1),
            ));
        }
        i += 1;
    }
    proof {
        assert(views.take(as_paths.len() as int) =~= views);
    }
}

/// Searches the index for community tags that belong to an AS which is not
/// on the AS path: a copy of every route that carries such a tag, origin by
/// origin in no particular order of origins, and under each origin in the
/// order in which the AS paths and their routes are stored.
pub fn communities_without_asn(path_data: &PathData) -> (found: Vec<Route>)
    ensures
        exists|order: Seq<Asn>|
            {
                &&& order.no_duplicates()
                &&& order.to_set() == path_data@.origins.dom()
                &&& found@.map_values(|r: Route| r@) == #[trigger] hits_of_origins(
                    path_data@,
                    order,
                )
            },
{
    let origins = path_data.get_origins();
    let mut found: Vec<Route> = Vec::new();
    let mut i: usize = 0;
    proof {
        assert(found@.map_values(|r: Route| r@) =~= hits_of_origins(
            path_data@,
            origins@.take(0),
        ));
    }
    while i < origins.len()
        invariant
            0 <= i <= origins.len(),
            origins@.to_set() == path_data@.origins.dom(),
            found@.map_values(|r: Route| r@) == hits_of_origins(
                path_data@,
                origins@.take(i as int),
            ),
        decreases origins.len() - i,
    {
        proof {
            assert(origins@.take(i + 1).drop_last() =~= origins@.take(i as int));
            assert(origins@.take(i + 1).last() == origins@[i as int]);
        }
        proof {
            assert(origins@.contains(origins@[i as int]));
            assert(origins@.to_set().contains(origins@[i as int]));
        }
        match path_data.get_as_paths_for_origin(&origins[i]) {
            Some(entry) => {
                collect_origin_hits(entry, &mut found);
            },
            None => {},
        }
        i += 1;
    }
    proof {
        assert(origins@.take(origins.len() as int) =~= origins@);
    }
    found
}

/// Searches the index for origins that are reached over diverging AS paths.
pub fn find_paths(path_data: &PathData) -> (r: Vec<Asn>)
    requires
        path_data.wf(),
    ensures
        r@.no_duplicates(),
        forall|o: Asn|
            r@.contains(o) <==> path_data@.origins.contains_key(o)
                && path_data@.origins[o].has_diverging_paths(),
{
    path_data.find_origins_with_overlapping_paths()
}

} // verus!
