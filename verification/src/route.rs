//! One RIB entry as it contributes to the global view.

use vstd::prelude::*;
use vstd::std_specs::cmp::PartialEqSpecImpl;
use crate::error::PathError;
use crate::net::{mock_asn, Asn, Community, IpAddress, LargeCommunity, Peer, Prefix, Testing, MOCK_ASN};

verus! {

/// What makes two routes the same observation: the AS path as received, the
/// file it came from, the next hop, the peer and the prefix.
pub ghost struct RouteKey {
    pub as_path: Seq<Asn>,
    pub filename: Seq<char>,
    pub next_hop: IpAddress,
    pub peer: Peer,
    pub prefix: Prefix,
}

/// The mathematical value of a [`Route`]: its identity and the community tags
/// it happened to carry when it was first seen.
pub ghost struct RouteView {
    pub key: RouteKey,
    pub communities: Seq<Community>,
    pub large_communities: Seq<LargeCommunity>,
}

impl RouteView {
    /// The AS that introduced the prefix: the last hop of the path.
    pub open spec fn origin(self) -> Asn {
        self.key.as_path.last()
    }

    /// A route has at least one hop.
    pub open spec fn wf(self) -> bool {
        self.key.as_path.len() > 0
    }
}

/// A route pulled from an MRT file. Immutable once built.
#[derive(Debug)]
pub struct Route {
    as_path: Vec<Asn>,
    filename: String,
    next_hop: IpAddress,
    peer: Peer,
    prefix: Prefix,
    communities: Vec<Community>,
    large_communities: Vec<LargeCommunity>,
}

impl View for Route {
    type V = RouteView;

    closed spec fn view(&self) -> RouteView {
        RouteView {
            key: RouteKey {
                as_path: self.as_path@,
                filename: self.filename@,
                next_hop: self.next_hop,
                peer: self.peer,
                prefix: self.prefix,
            },
            communities: self.communities@,
            large_communities: self.large_communities@,
        }
    }
}

impl Route {
    #[verifier::type_invariant]
    closed spec fn has_hops(&self) -> bool {
        self.as_path@.len() > 0
    }

    /// Builds a route. An empty AS path is refused.
    pub fn new(
        as_path: Vec<Asn>,
        filename: String,
        next_hop: IpAddress,
        peer: Peer,
        prefix: Prefix,
        communities: Vec<Community>,
        large_communities: Vec<LargeCommunity>,
    ) -> (r: Result<Route, PathError>)
        ensures
            as_path@.len() == 0 ==> r == Err::<Route, PathError>(PathError::MalformedRoute),
            as_path@.len() > 0 ==> r is Ok && r->Ok_0@ == (RouteView {
                key: RouteKey {
                    as_path: as_path@,
                    filename: filename@,
                    next_hop,
                    peer,
                    prefix,
                },
                communities: communities@,
                large_communities: large_communities@,
            }),
    {
        if as_path.len() == 0 {
            return Err(PathError::MalformedRoute);
        }
        Ok(Route { as_path, filename, next_hop, peer, prefix, communities, large_communities })
    }

    /// The AS path as received, prepending included.
    pub fn get_as_path(&self) -> (r: &Vec<Asn>)
        ensures
            self@.wf(),
            r@ == self@.key.as_path,
    {
        proof {
            use_type_invariant(self);
        }
        &self.as_path
    }

    /// The last hop of the AS path.
    pub fn get_origin(&self) -> (r: &Asn)
        ensures
            self@.wf(),
            *r == self@.origin(),
    {
        proof {
            use_type_invariant(self);
        }
        &self.as_path[self.as_path.len() - 1]
    }

    /// The community tags that the route carried when it was built.
    pub fn get_communities(&self) -> (r: &Vec<Community>)
        ensures
            r@ == self@.communities,
    {
        &self.communities
    }

    /// The large community tags that the route carried when it was built.
    pub fn get_large_communities(&self) -> (r: &Vec<LargeCommunity>)
        ensures
            r@ == self@.large_communities,
    {
        &self.large_communities
    }
}

impl Route {
    /// A route for tests: AS path `[1, 2, origin]` (origin 65535 where none
    /// is given), file "unit test", next hop `192.0.2.1`, the mock peer,
    /// prefix `192.0.2.1/24`, no communities.
    pub fn get_mock(origin: Option<Asn>) -> (r: Route)
        ensures
            r@ == Route::mock_view(origin),
    {
        let mut as_path: Vec<Asn> = Vec::new();
        as_path.push(1);
        as_path.push(2);
        as_path.push(Asn::get_mock(origin));
        let filename = "unit test".to_string();
        proof {
            assert(as_path@ =~= Route::mock_view(origin).key.as_path);
        }
        Route {
            as_path,
            filename,
            next_hop: IpAddress::get_mock(),
            peer: Peer::get_mock(),
            prefix: Prefix::get_mock(),
            communities: Vec::new(),
            large_communities: Vec::new(),
        }
    }

    /// The value of the route that [`Route::get_mock`] builds.
    pub open spec fn mock_view(origin: Option<Asn>) -> RouteView {
        RouteView {
            key: RouteKey {
                as_path: seq![1, 2, mock_asn(origin)],
                filename: "unit test"@,
                next_hop: IpAddress::V4(0xC000_0201),
                peer: Peer { asn: MOCK_ASN, address: IpAddress::V4(0xC000_0201), bgp_id: 0xC000_0201 },
                prefix: Prefix { addr: IpAddress::V4(0xC000_0201), len: 24 },
            },
            communities: Seq::empty(),
            large_communities: Seq::empty(),
        }
    }
}

impl Clone for Route {
    /// A copy with the same identity and the same community tags.
    fn clone(&self) -> (r: Route)
        ensures
            r@ == self@,
    {
        proof {
            use_type_invariant(self);
        }
        let as_path = self.as_path.clone();
        let communities = self.communities.clone();
        let large_communities = self.large_communities.clone();
        proof {
            assert(as_path@ =~= self.as_path@);
            assert(communities@ =~= self.communities@);
            assert(large_communities@ =~= self.large_communities@);
        }
        Route {
            as_path,
            filename: self.filename.clone(),
            next_hop: self.next_hop,
            peer: self.peer,
            prefix: self.prefix,
            communities,
            large_communities,
        }
    }
}

impl PartialEq for Route {
    /// Two routes are equal when their identities are; community tags do not
    /// count.
    fn eq(&self, other: &Route) -> (r: bool) {
        crate::dedup::same_hops(&self.as_path, &other.as_path)
            && self.filename == other.filename
            && self.next_hop == other.next_hop
            && self.peer == other.peer
            && self.prefix == other.prefix
    }
}

impl PartialEqSpecImpl for Route {
    open spec fn obeys_eq_spec() -> bool {
        true
    }

    open spec fn eq_spec(&self, other: &Route) -> bool {
        self@.key == other@.key
    }
}

impl Eq for Route {}

} // verus!
