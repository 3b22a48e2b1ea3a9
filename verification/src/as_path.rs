//! A deduplicated AS-hop sequence together with the routes that carry it.

use vstd::prelude::*;
use vstd::std_specs::cmp::PartialEqSpecImpl;
use crate::dedup::{dedup, dedup_path, lemma_dedup_last, lemma_dedup_no_adjacent, no_adjacent_dup, same_hops};
use crate::error::PathError;
use crate::net::{mock_asn, Asn, Testing};
use crate::route::{Route, RouteKey, RouteView};

verus! {

/// The mathematical value of an [`AsPath`]: its hops and, in the order in
/// which they arrived, the routes that carry it.
pub ghost struct AsPathView {
    pub hops: Seq<Asn>,
    pub routes: Seq<RouteView>,
}

impl AsPathView {
    /// An AS path with the given hops and no route yet.
    pub open spec fn empty(hops: Seq<Asn>) -> AsPathView {
        AsPathView { hops, routes: Seq::empty() }
    }

    /// The hops are non-empty and free of consecutive duplicates; no two
    /// routes are the same observation; every route's own AS path collapses
    /// to these hops (and so ends at the same origin).
    pub open spec fn wf(self) -> bool {
        &&& self.hops.len() > 0
        &&& no_adjacent_dup(self.hops)
        &&& forall|i: int, j: int|
            0 <= i < j < self.routes.len() ==> (#[trigger] self.routes[i]).key != (
            #[trigger] self.routes[j]).key
        &&& forall|i: int|
            0 <= i < self.routes.len() ==> dedup((#[trigger] self.routes[i]).key.as_path)
                == self.hops
    }

    /// Equality as `==` tests it: the same hops, and equal routes in the
    /// same order.
    pub open spec fn same_as(self, other: AsPathView) -> bool {
        &&& self.hops == other.hops
        &&& self.routes.len() == other.routes.len()
        &&& forall|i: int|
            0 <= i < self.routes.len() ==> (#[trigger] self.routes[i]).key == other.routes[i].key
    }

    /// The origin AS: the last hop.
    pub open spec fn origin(self) -> Asn {
        self.hops.last()
    }

    /// Whether a route with identity `k` is stored.
    pub open spec fn has_key(self, k: RouteKey) -> bool {
        exists|i: int| 0 <= i < self.routes.len() && (#[trigger] self.routes[i]).key == k
    }

    /// Whether a route equal to `r` is stored.
    pub open spec fn has_route(self, r: RouteView) -> bool {
        self.has_key(r.key)
    }

    /// Whether `r` belongs under this AS path: its own path collapses to
    /// these hops and it ends at the same origin.
    pub open spec fn accepts(self, r: RouteView) -> bool {
        &&& dedup(r.key.as_path) == self.hops
        &&& r.origin() == self.origin()
    }

    /// The value after `r` was offered: unchanged where an equal route is
    /// present, else with `r` behind the others.
    pub open spec fn add_route(self, r: RouteView) -> AsPathView {
        if self.has_route(r) {
            self
        } else {
            AsPathView { hops: self.hops, routes: self.routes.push(r) }
        }
    }

    /// The value after the routes of `rs` were offered one by one, first to
    /// last.
    pub open spec fn add_routes(self, rs: Seq<RouteView>) -> AsPathView
        decreases rs.len(),
    {
        if rs.len() == 0 {
            self
        } else {
            self.add_routes(rs.drop_last()).add_route(rs.last())
        }
    }
}

/// `a` occurs among the first `end` elements of `s`, and `i` is the first
/// place where it does.
pub open spec fn first_at(s: Seq<Asn>, end: int, a: Asn, i: int) -> bool {
    &&& 0 <= i < end <= s.len()
    &&& s[i] == a
    &&& forall|j: int| 0 <= j < i ==> s[j] != a
}

/// One AS occurs before the origin in both paths, for the first time at `i`
/// in `p` and at `j` in `q`.
pub open spec fn shared_at(p: Seq<Asn>, q: Seq<Asn>, i: int, j: int) -> bool {
    &&& first_at(p, p.len() - 1, p[i], i)
    &&& first_at(q, q.len() - 1, p[i], j)
}

/// Path divergence: some AS occurs before the origin in both paths, and the
/// two paths differ from its first occurrence onwards.
pub open spec fn diverges(p: Seq<Asn>, q: Seq<Asn>) -> bool {
    exists|i: int, j: int| #[trigger] shared_at(p, q, i, j) && p.skip(i) != q.skip(j)
}

/// A deduplicated AS path which stores the routes observed along it.
#[derive(Debug)]
pub struct AsPath {
    as_path: Vec<Asn>,
    routes: Vec<Route>,
}

impl View for AsPath {
    type V = AsPathView;

    closed spec fn view(&self) -> AsPathView {
        AsPathView { hops: self.as_path@, routes: self.routes@.map_values(|r: Route| r@) }
    }
}

impl AsPath {
    /// The invariant of the type, stated on its value.
    pub open spec fn wf(&self) -> bool {
        self@.wf()
    }

    /// Builds the AS path for a hop sequence as received: consecutive
    /// duplicates are removed, and no route is attached yet. An empty
    /// sequence is refused.
    pub fn new(as_path: Vec<Asn>) -> (r: Result<AsPath, PathError>)
        ensures
            as_path@.len() == 0 ==> r == Err::<AsPath, PathError>(PathError::MalformedAsPath),
            as_path@.len() > 0 ==> r is Ok && r->Ok_0@ == AsPathView::empty(dedup(as_path@))
                && r->Ok_0.wf(),
    {
        if as_path.len() == 0 {
            return Err(PathError::MalformedAsPath);
        }
        let hops = dedup_path(&as_path);
        proof {
            lemma_dedup_last(as_path@);
            lemma_dedup_no_adjacent(as_path@);
        }
        let path = AsPath { as_path: hops, routes: Vec::new() };
        proof {
            assert(path@.routes =~= Seq::<RouteView>::empty());
        }
        Ok(path)
    }

    /// An AS path for tests, built from `[1, 2, origin]` (origin 65535 where
    /// none is given), with no route attached.
    pub fn get_mock(origin: Option<Asn>) -> (r: AsPath)
        ensures
            r@ == AsPathView::empty(dedup(AsPath::mock_hops(origin))),
            r.wf(),
    {
        let mut as_path: Vec<Asn> = Vec::new();
        as_path.push(1);
        as_path.push(2);
        as_path.push(Asn::get_mock(origin));
        proof {
            assert(as_path@ =~= AsPath::mock_hops(origin));
        }
        match AsPath::new(as_path) {
            Ok(path) => path,
            Err(_) => vstd::pervasive::unreached(),
        }
    }

    /// The hop sequence that [`AsPath::get_mock`] starts from.
    pub open spec fn mock_hops(origin: Option<Asn>) -> Seq<Asn> {
        seq![1, 2, mock_asn(origin)]
    }

    /// The hops, free of consecutive duplicates.
    pub fn get_as_path(&self) -> (r: &Vec<Asn>)
        ensures
            r@ == self@.hops,
    {
        &self.as_path
    }

    /// The routes attached so far, oldest first.
    pub fn get_routes(&self) -> (r: &Vec<Route>)
        ensures
            r@.map_values(|x: Route| x@) == self@.routes,
    {
        &self.routes
    }

    /// The number of hops after deduplication.
    pub fn len(&self) -> (r: usize)
        ensures
            r == self@.hops.len(),
    {
        self.as_path.len()
    }

    /// Whether there are no hops. An AS path that was built always has one.
    pub fn is_empty(&self) -> (r: bool)
        ensures
            r == (self@.hops.len() == 0),
    {
        self.len() == 0
    }

    /// Whether a route equal to `route` is attached.
    pub fn has_route(&self, route: &Route) -> (r: bool)
        ensures
            r == self@.has_route(route@),
    {
        let mut i: usize = 0;
        while i < self.routes.len()
            invariant
                0 <= i <= self.routes.len(),
                forall|j: int| 0 <= j < i ==> (#[trigger] self@.routes[j]).key != route@.key,
            decreases self.routes.len() - i,
        {
            if self.routes[i] == *route {
                proof {
                    assert(self@.routes[i as int].key == route@.key);
                }
                return true;
            }
            i += 1;
        }
        false
    }

    /// Attaches `route` unless an equal route is already attached. A route
    /// whose own AS path does not collapse to these hops is refused, and
    /// nothing changes.
    pub fn add_route(&mut self, route: Route) -> (r: Result<(), PathError>)
        requires
            old(self).wf(),
        ensures
            final(self).wf(),
            old(self)@.accepts(route@) ==> r is Ok && final(self)@ == old(self)@.add_route(route@),
            !old(self)@.accepts(route@) ==> r == Err::<(), PathError>(
                PathError::InvariantViolation,
            ) && final(self)@ == old(self)@,
    {
        let collapsed = dedup_path(route.get_as_path());
        if !same_hops(&collapsed, &self.as_path) {
            return Err(PathError::InvariantViolation);
        }
        proof {
            lemma_dedup_last(route@.key.as_path);
            self@.lemma_add_route_wf(route@);
        }
        if self.has_route(&route) {
            return Ok(());
        }
        self.routes.push(route);
        proof {
            assert(self@.routes =~= old(self)@.routes.push(route@));
        }
        Ok(())
    }

    /// Attaches every route of `other` that is not yet attached, in
    /// `other`'s order. An AS path with other hops is refused, and nothing
    /// changes.
    pub fn merge_from(&mut self, other: &AsPath) -> (r: Result<(), PathError>)
        requires
            old(self).wf(),
            other.wf(),
        ensures
            final(self).wf(),
            other@.hops == old(self)@.hops ==> r is Ok && final(self)@ == old(self)@.add_routes(
                other@.routes,
            ),
            other@.hops != old(self)@.hops ==> r == Err::<(), PathError>(
                PathError::InvariantViolation,
            ) && final(self)@ == old(self)@,
    {
        if !same_hops(&self.as_path, &other.as_path) {
            return Err(PathError::InvariantViolation);
        }
        let mut i: usize = 0;
        while i < other.routes.len()
            invariant
                0 <= i <= other.routes.len(),
                other.wf(),
                self.wf(),
                self@.hops == other@.hops,
                self@ == old(self)@.add_routes(other@.routes.take(i as int)),
            decreases other.routes.len() - i,
        {
            let route = &other.routes[i];
            proof {
                assert(other@.routes[i as int] == route@);
                assert(other@.routes.take(i + 1).drop_last() =~= other@.routes.take(i as int));
                lemma_dedup_last(route@.key.as_path);
                self@.lemma_add_route_wf(route@);
            }
            if !self.has_route(route) {
                let ghost before = self@;
                self.routes.push(route.clone());
                proof {
                    assert(self@.routes =~= before.routes.push(route@));
                }
            }
            i += 1;
        }
        proof {
            assert(other@.routes.take(other.routes.len() as int) =~= other@.routes);
        }
        Ok(())
    }

    /// Whether this path and `other` diverge: an AS that both traverse
    /// before the origin is followed by different hops in the two. The scan
    /// goes through this path's hops in order and stops at the first AS that
    /// shows a divergence; the answer does not depend on which path scans.
    pub fn has_divergence_with(&self, other: &AsPath) -> (r: bool)
        requires
            self.wf(),
            other.wf(),
        ensures
            r == diverges(self@.hops, other@.hops),
    {
        let n: usize = self.as_path.len() - 1;
        let m: usize = other.as_path.len() - 1;
        let ghost p = self.as_path@;
        let ghost q = other.as_path@;
        let mut k: usize = 0;
        while k < n
            invariant
                0 <= k <= n,
                n == self.as_path.len() - 1,
                m == other.as_path.len() - 1,
                p == self.as_path@,
                q == other.as_path@,
                forall|i: int, j: int|
                    0 <= i < k && #[trigger] shared_at(p, q, i, j) ==> p.skip(i) == q.skip(j),
            decreases n - k,
        {
            let asn = self.as_path[k];
            let here = first_position(&self.as_path, n, asn);
            let there = first_position(&other.as_path, m, asn);
            match (here, there) {
                (Some(i), Some(j)) => {
                    if !same_suffix(&self.as_path, i, &other.as_path, j) {
                        proof {
                            assert(shared_at(p, q, i as int, j as int));
                        }
                        return true;
                    }
                },
                _ => {},
            }
            k += 1;
        }
        false
    }
}

/// The first place among the first `end` elements of `v` where `a` occurs.
fn first_position(v: &Vec<Asn>, end: usize, a: Asn) -> (r: Option<usize>)
    requires
        end <= v.len(),
    ensures
        match r {
            Some(i) => first_at(v@, end as int, a, i as int),
            None => forall|j: int| 0 <= j < end ==> v@[j] != a,
        },
{
    let mut i: usize = 0;
    while i < end
        invariant
            0 <= i <= end <= v.len(),
            forall|j: int| 0 <= j < i ==> v@[j] != a,
        decreases end - i,
    {
        if v[i] == a {
            return Some(i);
        }
        i += 1;
    }
    None
}

/// Whether `p` from place `i` onwards equals `q` from place `j` onwards.
fn same_suffix(p: &Vec<Asn>, i: usize, q: &Vec<Asn>, j: usize) -> (r: bool)
    requires
        i <= p.len(),
        j <= q.len(),
    ensures
        r == (p@.skip(i as int) == q@.skip(j as int)),
{
    let count = p.len() - i;
    if q.len() - j != count {
        proof {
            assert(p@.skip(i as int).len() != q@.skip(j as int).len());
        }
        return false;
    }
    let mut k: usize = 0;
    while k < count
        invariant
            0 <= k <= count,
            count == p.len() - i,
            count == q.len() - j,
            forall|x: int|
                0 <= x < k ==> #[trigger] p@.skip(i as int)[x] == q@.skip(j as int)[x],
        decreases count - k,
    {
        if p[i + k] != q[j + k] {
            proof {
                assert(p@.skip(i as int)[k as int] != q@.skip(j as int)[k as int]);
            }
            return false;
        }
        k += 1;
    }
    proof {
        assert(p@.skip(i as int) =~= q@.skip(j as int));
    }
    true
}

impl Clone for AsPath {
    /// A copy with the same hops and a copy of every route, in order.
    fn clone(&self) -> (r: AsPath)
        ensures
            r@ == self@,
    {
        let as_path = self.as_path.clone();
        let mut routes: Vec<Route> = Vec::new();
        let mut i: usize = 0;
        while i < self.routes.len()
            invariant
                0 <= i <= self.routes.len(),
                routes@.map_values(|r: Route| r@) == self@.routes.take(i as int),
            decreases self.routes.len() - i,
        {
            let copy = self.routes[i].clone();
            let ghost before = routes@;
            routes.push(copy);
            proof {
                assert(self@.routes[i as int] == self.routes@[i as int]@);
                assert(routes@.map_values(|r: Route| r@) =~= before.map_values(|r: Route| r@).push(
                    copy@,
                ));
                assert(self@.routes.take(i + 1) =~= self@.routes.take(i as int).push(
                    self@.routes[i as int],
                ));
            }
            i += 1;
        }
        proof {
            assert(as_path@ =~= self.as_path@);
            assert(self@.routes.take(self.routes.len() as int) =~= self@.routes);
        }
        AsPath { as_path, routes }
    }
}

impl PartialEq for AsPath {
    /// Two AS paths are equal when their hops are and when they hold equal
    /// routes in the same order.
    fn eq(&self, other: &AsPath) -> (r: bool) {
        if !same_hops(&self.as_path, &other.as_path) {
            return false;
        }
        if self.routes.len() != other.routes.len() {
            return false;
        }
        let mut i: usize = 0;
        while i < self.routes.len()
            invariant
                0 <= i <= self.routes.len(),
                self.routes.len() == other.routes.len(),
                forall|j: int| 0 <= j < i ==> (#[trigger] self@.routes[j]).key == other@.routes[j].key,
            decreases self.routes.len() - i,
        {
            if self.routes[i] != other.routes[i] {
                proof {
                    assert(self@.routes[i as int].key != other@.routes[i as int].key);
                }
                return false;
            }
            i += 1;
        }
        true
    }
}

impl PartialEqSpecImpl for AsPath {
    open spec fn obeys_eq_spec() -> bool {
        true
    }

    open spec fn eq_spec(&self, other: &AsPath) -> bool {
        self@.same_as(other@)
    }
}

impl Eq for AsPath {}

impl AsPathView {
    /// Offering a route that belongs here keeps the value well-formed.
    pub proof fn lemma_add_route_wf(self, r: RouteView)
        requires
            self.wf(),
            self.accepts(r),
        ensures
            self.add_route(r).wf(),
            self.add_route(r).has_route(r),
            self.add_route(r).hops == self.hops,
    {
        let after = self.add_route(r);
        if !self.has_route(r) {
            assert(after.routes[self.routes.len() as int] == r);
            assert forall|i: int, j: int| 0 <= i < j < after.routes.len() implies (
            #[trigger] after.routes[i]).key != (#[trigger] after.routes[j]).key by {
                if j == self.routes.len() {
                    assert(self.routes[i].key != r.key);
                } else {
                    assert(self.routes[i].key != self.routes[j].key);
                }
            }
            assert forall|i: int| 0 <= i < after.routes.len() implies dedup(
                (#[trigger] after.routes[i]).key.as_path,
            ) == after.hops by {
                if i < self.routes.len() {
                    assert(dedup(self.routes[i].key.as_path) == self.hops);
                }
            }
        }
    }

    /// Offering routes never changes the hops.
    pub proof fn lemma_add_routes_hops(self, rs: Seq<RouteView>)
        ensures
            self.add_routes(rs).hops == self.hops,
        decreases rs.len(),
    {
        if rs.len() > 0 {
            self.lemma_add_routes_hops(rs.drop_last());
        }
    }

    /// Offering routes that all belong here keeps the value well-formed.
    pub proof fn lemma_add_routes_wf(self, rs: Seq<RouteView>)
        requires
            self.wf(),
            forall|i: int| 0 <= i < rs.len() ==> self.accepts(#[trigger] rs[i]),
        ensures
            self.add_routes(rs).wf(),
            self.add_routes(rs).hops == self.hops,
        decreases rs.len(),
    {
        if rs.len() > 0 {
            let front = rs.drop_last();
            assert forall|i: int| 0 <= i < front.len() implies self.accepts(
                #[trigger] front[i],
            ) by {
                assert(front[i] == rs[i]);
            }
            self.lemma_add_routes_wf(front);
            assert(self.accepts(rs[rs.len() - 1]));
            self.add_routes(front).lemma_add_route_wf(rs.last());
        }
    }

    /// After `r` was offered, the routes present are those that were, and
    /// `r`.
    pub proof fn lemma_add_route_keys(self, r: RouteView, k: RouteKey)
        ensures
            self.add_route(r).has_key(k) <==> (self.has_key(k) || k == r.key),
    {
        let after = self.add_route(r);
        if !self.has_route(r) {
            assert(after.routes[self.routes.len() as int] == r);
            if self.has_key(k) {
                let i = choose|i: int|
                    0 <= i < self.routes.len() && (#[trigger] self.routes[i]).key == k;
                assert(after.routes[i].key == k);
            }
            if after.has_key(k) {
                let i = choose|i: int|
                    0 <= i < after.routes.len() && (#[trigger] after.routes[i]).key == k;
                if i < self.routes.len() {
                    assert(self.routes[i].key == k);
                }
            }
        }
    }

    /// After the routes of `rs` were offered, the routes present are those
    /// that were, and those of `rs`.
    pub proof fn lemma_add_routes_keys(self, rs: Seq<RouteView>, k: RouteKey)
        ensures
            self.add_routes(rs).has_key(k) <==> (self.has_key(k) || exists|i: int|
                0 <= i < rs.len() && (#[trigger] rs[i]).key == k),
        decreases rs.len(),
    {
        if rs.len() > 0 {
            let front = rs.drop_last();
            self.lemma_add_routes_keys(front, k);
            self.add_routes(front).lemma_add_route_keys(rs.last(), k);
            if exists|i: int| 0 <= i < front.len() && (#[trigger] front[i]).key == k {
                let i = choose|i: int| 0 <= i < front.len() && (#[trigger] front[i]).key == k;
                assert(rs[i].key == k);
            }
            if k == rs.last().key {
                assert(rs[rs.len() - 1].key == k);
            }
            if exists|i: int| 0 <= i < rs.len() && (#[trigger] rs[i]).key == k {
                let i = choose|i: int| 0 <= i < rs.len() && (#[trigger] rs[i]).key == k;
                if i < front.len() {
                    assert(front[i].key == k);
                }
            }
        }
    }

    /// Offering routes that are all present changes nothing.
    pub proof fn lemma_add_routes_present(self, rs: Seq<RouteView>)
        requires
            forall|i: int| 0 <= i < rs.len() ==> self.has_key((#[trigger] rs[i]).key),
        ensures
            self.add_routes(rs) == self,
        decreases rs.len(),
    {
        if rs.len() > 0 {
            let front = rs.drop_last();
            assert forall|i: int| 0 <= i < front.len() implies self.has_key(
                (#[trigger] front[i]).key,
            ) by {
                assert(front[i] == rs[i]);
            }
            self.lemma_add_routes_present(front);
            assert(self.has_key(rs[rs.len() - 1].key));
        }
    }
}

} // verus!
