//! All the AS paths that end at one origin AS.

use vstd::prelude::*;
use vstd::std_specs::cmp::PartialEqSpecImpl;
use crate::as_path::{diverges, AsPath, AsPathView};
use crate::dedup::{dedup, dedup_path, lemma_dedup_last, same_hops};
use crate::error::PathError;
use crate::net::{mock_asn, Asn, Testing};
use crate::route::{Route, RouteKey, RouteView};

verus! {

/// The mathematical value of an [`OriginAsPaths`]: the origin and, in the
/// order in which they were first seen, the AS paths that end there.
pub ghost struct OriginAsPathsView {
    pub origin: Asn,
    pub paths: Seq<AsPathView>,
}

impl OriginAsPathsView {
    /// No AS path yet.
    pub open spec fn empty(origin: Asn) -> OriginAsPathsView {
        OriginAsPathsView { origin, paths: Seq::empty() }
    }

    /// Every AS path is well-formed and ends at the origin, and no two have
    /// the same hops.
    pub open spec fn wf(self) -> bool {
        &&& forall|i: int|
            0 <= i < self.paths.len() ==> (#[trigger] self.paths[i]).wf() && self.paths[i].origin()
                == self.origin
        &&& forall|i: int, j: int|
            0 <= i < j < self.paths.len() ==> (#[trigger] self.paths[i]).hops != (
            #[trigger] self.paths[j]).hops
    }

    /// Equality as `==` tests it: the same origin, and equal AS paths in the
    /// same order.
    pub open spec fn same_as(self, other: OriginAsPathsView) -> bool {
        &&& self.origin == other.origin
        &&& self.paths.len() == other.paths.len()
        &&& forall|i: int|
            0 <= i < self.paths.len() ==> (#[trigger] self.paths[i]).same_as(other.paths[i])
    }

    /// Whether an AS path with these hops is stored.
    pub open spec fn has_hops(self, hops: Seq<Asn>) -> bool {
        exists|i: int| 0 <= i < self.paths.len() && (#[trigger] self.paths[i]).hops == hops
    }

    /// Whether a route with identity `k` is stored, under the AS path that
    /// its own path collapses to.
    pub open spec fn has_key(self, k: RouteKey) -> bool {
        exists|i: int|
            0 <= i < self.paths.len() && (#[trigger] self.paths[i]).hops == dedup(k.as_path)
                && self.paths[i].has_key(k)
    }

    /// Whether a route equal to `r` is stored.
    pub open spec fn has_route(self, r: RouteView) -> bool {
        self.has_key(r.key)
    }

    /// Whether the route `r`, community tags included, is stored under one of
    /// the AS paths.
    pub open spec fn holds(self, r: RouteView) -> bool {
        exists|i: int| 0 <= i < self.paths.len() && (#[trigger] self.paths[i]).routes.contains(r)
    }

    /// The value after the AS path `ap` was offered: where its hops are
    /// stored already, that entry takes over the routes of `ap` it lacks;
    /// else `ap` goes behind the others.
    pub open spec fn add_as_path(self, ap: AsPathView) -> OriginAsPathsView {
        if self.has_hops(ap.hops) {
            OriginAsPathsView {
                origin: self.origin,
                paths: self.paths.map_values(
                    |p: AsPathView|
                        if p.hops == ap.hops {
                            p.add_routes(ap.routes)
                        } else {
                            p
                        },
                ),
            }
        } else {
            OriginAsPathsView { origin: self.origin, paths: self.paths.push(ap) }
        }
    }

    /// The value after the route `r` was offered: it is attached to the AS
    /// path that its own path collapses to, which is created behind the
    /// others where it is missing.
    pub open spec fn add_route(self, r: RouteView) -> OriginAsPathsView {
        let hops = dedup(r.key.as_path);
        if self.has_hops(hops) {
            OriginAsPathsView {
                origin: self.origin,
                paths: self.paths.map_values(
                    |p: AsPathView|
                        if p.hops == hops {
                            p.add_route(r)
                        } else {
                            p
                        },
                ),
            }
        } else {
            OriginAsPathsView {
                origin: self.origin,
                paths: self.paths.push(AsPathView::empty(hops).add_route(r)),
            }
        }
    }

    /// The value after the AS paths of `others` were offered one by one,
    /// first to last.
    pub open spec fn merge_from(self, others: Seq<AsPathView>) -> OriginAsPathsView
        decreases others.len(),
    {
        if others.len() == 0 {
            self
        } else {
            self.merge_from(others.drop_last()).add_as_path(others.last())
        }
    }

    /// The value without the AS paths that are a bare origin: those of one
    /// hop or none.
    pub open spec fn remove_single_hop_paths(self) -> OriginAsPathsView {
        OriginAsPathsView {
            origin: self.origin,
            paths: self.paths.filter(|p: AsPathView| p.hops.len() > 1),
        }
    }

    /// Whether the AS paths at the places `i` and `j`, `i` before `j`,
    /// diverge.
    pub open spec fn diverging_pair(self, i: int, j: int) -> bool {
        0 <= i < j < self.paths.len() && diverges(self.paths[i].hops, self.paths[j].hops)
    }

    /// Whether any two of the AS paths diverge.
    pub open spec fn has_diverging_paths(self) -> bool {
        exists|i: int, j: int| self.diverging_pair(i, j)
    }
}

/// The unique, deduplicated AS paths that all lead to the same origin AS.
#[derive(Debug)]
pub struct OriginAsPaths {
    origin: Asn,
    as_paths: Vec<AsPath>,
}

impl View for OriginAsPaths {
    type V = OriginAsPathsView;

    closed spec fn view(&self) -> OriginAsPathsView {
        OriginAsPathsView {
            origin: self.origin,
            paths: self.as_paths@.map_values(|p: AsPath| p@),
        }
    }
}

impl OriginAsPaths {
    /// The invariant of the type, stated on its value.
    pub open spec fn wf(&self) -> bool {
        self@.wf()
    }

    /// An empty container for the AS paths that end at `origin`.
    pub fn new(origin: Asn) -> (r: OriginAsPaths)
        ensures
            r@ == OriginAsPathsView::empty(origin),
            r.wf(),
    {
        let r = OriginAsPaths { origin, as_paths: Vec::new() };
        proof {
            assert(r@.paths =~= Seq::<AsPathView>::empty());
        }
        r
    }

    /// A container for tests: the given origin (65535 where none is given)
    /// with the mock AS path that ends there.
    pub fn get_mock(origin: Option<Asn>) -> (r: OriginAsPaths)
        ensures
            r@ == OriginAsPaths::mock_view(origin),
            r.wf(),
    {
        let o: Asn = Asn::get_mock(origin);
        let path = AsPath::get_mock(Some(o));
        proof {
            lemma_dedup_last(AsPath::mock_hops(Some(o)));
        }
        let mut as_paths: Vec<AsPath> = Vec::new();
        as_paths.push(path);
        let r = OriginAsPaths { origin: o, as_paths };
        proof {
            assert(r@.paths =~= OriginAsPaths::mock_view(origin).paths);
        }
        r
    }

    /// The value of the container that [`OriginAsPaths::get_mock`] builds.
    pub open spec fn mock_view(origin: Option<Asn>) -> OriginAsPathsView {
        let o = mock_asn(origin);
        OriginAsPathsView {
            origin: o,
            paths: seq![AsPathView::empty(dedup(AsPath::mock_hops(Some(o))))],
        }
    }

    /// The origin AS that every AS path stored here ends at.
    pub fn get_origin(&self) -> (r: &Asn)
        ensures
            *r == self@.origin,
    {
        &self.origin
    }

    /// The AS paths stored so far, oldest first.
    pub fn get_as_paths(&self) -> (r: &Vec<AsPath>)
        ensures
            r@.map_values(|p: AsPath| p@) == self@.paths,
    {
        &self.as_paths
    }

    /// The number of AS paths stored.
    pub fn len(&self) -> (r: usize)
        ensures
            r == self@.paths.len(),
    {
        self.as_paths.len()
    }

    /// Whether no AS path is stored.
    pub fn is_empty(&self) -> (r: bool)
        ensures
            r == (self@.paths.len() == 0),
    {
        self.len() == 0
    }

    /// The place of the AS path with these hops, if one is stored.
    fn position(&self, hops: &Vec<Asn>) -> (r: Option<usize>)
        ensures
            match r {
                Some(i) => i < self@.paths.len() && self@.paths[i as int].hops == hops@,
                None => !self@.has_hops(hops@),
            },
    {
        let mut i: usize = 0;
        while i < self.as_paths.len()
            invariant
                0 <= i <= self.as_paths.len(),
                forall|j: int| 0 <= j < i ==> (#[trigger] self@.paths[j]).hops != hops@,
            decreases self.as_paths.len() - i,
        {
            if same_hops(self.as_paths[i].get_as_path(), hops) {
                return Some(i);
            }
            i += 1;
        }
        None
    }

    /// Whether an AS path with the hops of `as_path` is stored. The routes
    /// play no part: an AS path is identified by its hops.
    pub fn has_as_path(&self, as_path: &AsPath) -> (r: bool)
        ensures
            r == self@.has_hops(as_path@.hops),
    {
        self.position(as_path.get_as_path()).is_some()
    }

    /// Whether a route equal to `route` is stored.
    pub fn has_route(&self, route: &Route) -> (r: bool)
        requires
            self.wf(),
        ensures
            r == self@.has_route(route@),
    {
        let hops = dedup_path(route.get_as_path());
        match self.position(&hops) {
            Some(i) => {
                let found = self.as_paths[i].has_route(route);
                proof {
                    assert(self@.paths[i as int] == self.as_paths@[i as int]@);
                    if !found {
                        assert forall|j: int|
                            0 <= j < self@.paths.len() && (#[trigger] self@.paths[j]).hops
                                == hops@ implies !self@.paths[j].has_route(route@) by {
                            assert(j == i);
                        }
                    }
                }
                found
            },
            None => false,
        }
    }

    /// Stores `as_path`. Where an AS path with the same hops is stored
    /// already, that one takes over the routes it lacks. An AS path that ends
    /// at another origin is refused, and nothing changes.
    pub fn add_as_path(&mut self, as_path: AsPath) -> (r: Result<(), PathError>)
        requires
            old(self).wf(),
            as_path.wf(),
        ensures
            final(self).wf(),
            as_path@.origin() == old(self)@.origin ==> r is Ok && final(self)@ == old(self)@.add_as_path(as_path@),
            as_path@.origin() != old(self)@.origin ==> r == Err::<(), PathError>(
                PathError::InvariantViolation,
            ) && final(self)@ == old(self)@,
    {
        let hops = as_path.get_as_path();
        if hops[hops.len() - 1] != self.origin {
            return Err(PathError::InvariantViolation);
        }
        let ghost before = self@;
        match self.position(hops) {
            Some(i) => {
                proof {
                    assert(before.paths[i as int] == self.as_paths@[i as int]@);
                }
                let merged = self.as_paths[i].merge_from(&as_path);
                proof {
                    let p = before.paths[i as int].add_routes(as_path@.routes);
                    before.paths[i as int].lemma_add_routes_hops(as_path@.routes);
                    assert(self@.paths =~= before.paths.update(i as int, p));
                    before.lemma_update_at(i as int, p);
                    assert(self@.paths =~= before.add_as_path(as_path@).paths);
                }
                merged
            },
            None => {
                self.as_paths.push(as_path);
                proof {
                    assert(self@.paths =~= before.paths.push(as_path@));
                }
                Ok(())
            },
        }
    }

    /// Stores `route` under the AS path that its own path collapses to,
    /// creating that AS path where it is missing. A route that is stored
    /// already changes nothing. A route that ends at another origin is
    /// refused, and nothing changes.
    pub fn add_route(&mut self, route: Route) -> (r: Result<(), PathError>)
        requires
            old(self).wf(),
        ensures
            final(self).wf(),
            route@.origin() == old(self)@.origin ==> r is Ok && final(self)@ == old(self)@.add_route(route@),
            route@.origin() != old(self)@.origin ==> r == Err::<(), PathError>(
                PathError::InvariantViolation,
            ) && final(self)@ == old(self)@,
    {
        if *route.get_origin() != self.origin {
            return Err(PathError::InvariantViolation);
        }
        let hops = dedup_path(route.get_as_path());
        proof {
            lemma_dedup_last(route@.key.as_path);
        }
        match self.position(&hops) {
            Some(i) => {
                let ghost before = self@;
                proof {
                    assert(before.paths[i as int] == self.as_paths@[i as int]@);
                    before.paths[i as int].lemma_add_route_wf(route@);
                }
                let added = self.as_paths[i].add_route(route);
                proof {
                    assert(self@.paths =~= before.paths.update(
                        i as int,
                        before.paths[i as int].add_route(route@),
                    ));
                    before.lemma_update_at(i as int, before.paths[i as int].add_route(route@));
                    assert(self@.paths =~= before.add_route(route@).paths);
                }
                added
            },
            None => {
                let ghost before = self@;
                let mut fresh = match AsPath::new(hops) {
                    Ok(p) => p,
                    Err(_) => vstd::pervasive::unreached(),
                };
                proof {
                    crate::dedup::lemma_dedup_idempotent(route@.key.as_path);
                    fresh@.lemma_add_route_wf(route@);
                }
                let added = fresh.add_route(route);
                self.as_paths.push(fresh);
                proof {
                    assert(self@.paths =~= before.paths.push(fresh@));
                }
                added
            },
        }
    }

    /// Stores every AS path of `other`, as [`OriginAsPaths::add_as_path`]
    /// does, first to last. Where `other` serves another origin and holds
    /// any AS path, it is refused and nothing changes.
    pub fn merge_from(&mut self, other: &OriginAsPaths) -> (r: Result<(), PathError>)
        requires
            old(self).wf(),
            other.wf(),
        ensures
            final(self).wf(),
            (other@.paths.len() == 0 || other@.origin == old(self)@.origin) ==> r is Ok && final(self)@ == old(self)@.merge_from(other@.paths),
            !(other@.paths.len() == 0 || other@.origin == old(self)@.origin) ==> r == Err::<
                (),
                PathError,
            >(PathError::InvariantViolation) && final(self)@ == old(self)@,
    {
        if other.as_paths.len() > 0 && other.origin != self.origin {
            return Err(PathError::InvariantViolation);
        }
        let mut i: usize = 0;
        while i < other.as_paths.len()
            invariant
                0 <= i <= other.as_paths.len(),
                other.wf(),
                self.wf(),
                other@.paths.len() == 0 || other@.origin == self@.origin,
                self@.origin == old(self)@.origin,
                self@ == old(self)@.merge_from(other@.paths.take(i as int)),
            decreases other.as_paths.len() - i,
        {
            let copy = other.as_paths[i].clone();
            proof {
                assert(other@.paths[i as int] == copy@);
                assert(other@.paths.take(i + 1).drop_last() =~= other@.paths.take(i as int));
            }
            // The paths of `other` end at this origin, so none is refused.
            let _ = self.add_as_path(copy);
            i += 1;
        }
        proof {
            assert(other@.paths.take(other.as_paths.len() as int) =~= other@.paths);
        }
        Ok(())
    }

    /// Deletes every AS path that has no transit hop: an origin announcing
    /// itself carries no divergence signal. The others keep their order.
    pub fn remove_single_hop_paths(&mut self)
        requires
            old(self).wf(),
        ensures
            final(self).wf(),
            final(self)@ == old(self)@.remove_single_hop_paths(),
    {
        let ghost orig = self@.paths;
        let ghost keep = |p: AsPathView| p.hops.len() > 1;
        let ghost mut done: int = 0;
        let mut i: usize = 0;
        proof {
            reveal(Seq::filter);
            assert(orig.take(0).filter(keep) =~= Seq::<AsPathView>::empty());
            assert(orig.skip(0) =~= orig);
        }
        while i < self.as_paths.len()
            invariant
                0 <= i <= self.as_paths.len(),
                0 <= done <= orig.len(),
                self.wf(),
                self@.origin == old(self)@.origin,
                orig == old(self)@.paths,
                keep == |p: AsPathView| p.hops.len() > 1,
                self.as_paths.len() - i == orig.len() - done,
                i == orig.take(done).filter(keep).len(),
                self@.paths == orig.take(done).filter(keep) + orig.skip(done),
            decreases self.as_paths.len() - i,
        {
            let ghost before = self@;
            proof {
                reveal(Seq::filter);
                assert(orig.take(done + 1).drop_last() =~= orig.take(done));
                assert(before.paths[i as int] == orig[done]);
                assert(before.paths[i as int] == self.as_paths@[i as int]@);
            }
            if self.as_paths[i].len() <= 1 {
                self.as_paths.remove(i);
                proof {
                    assert(self@.paths =~= before.paths.remove(i as int));
                    assert(self@.paths =~= orig.take(done + 1).filter(keep) + orig.skip(done + 1));
                    assert forall|a: int, b: int| 0 <= a < b < self@.paths.len() implies (
                    #[trigger] self@.paths[a]).hops != (#[trigger] self@.paths[b]).hops by {
                        let a0 = if a < i { a } else { a + 1 };
                        let b0 = if b < i { b } else { b + 1 };
                        assert(before.paths[a0].hops != before.paths[b0].hops);
                    }
                    assert forall|a: int| 0 <= a < self@.paths.len() implies (
                    #[trigger] self@.paths[a]).wf() && self@.paths[a].origin()
                        == self@.origin by {
                        let a0 = if a < i { a } else { a + 1 };
                        assert(before.paths[a0].wf());
                    }
                }
            } else {
                proof {
                    assert(self@.paths =~= orig.take(done + 1).filter(keep) + orig.skip(done + 1));
                }
                i += 1;
            }
            proof {
                done = done + 1;
            }
        }
        proof {
            assert(orig.take(done) =~= orig);
            assert(orig.skip(done) =~= Seq::<AsPathView>::empty());
            assert(self@.paths =~= orig.filter(keep));
        }
    }

    /// The pairs of AS paths that diverge, each pair once, by their places
    /// in [`OriginAsPaths::get_as_paths`], the lower place first, in
    /// ascending order.
    pub fn find_overlapping_paths(&self) -> (r: Vec<(usize, usize)>)
        requires
            self.wf(),
        ensures
            forall|k: int|
                0 <= k < r@.len() ==> self@.diverging_pair(
                    (#[trigger] r@[k]).0 as int,
                    r@[k].1 as int,
                ),
            forall|i: int, j: int|
                self@.diverging_pair(i, j) ==> exists|k: int|
                    0 <= k < r@.len() && #[trigger] r@[k] == (i as usize, j as usize),
            forall|a: int, b: int|
                0 <= a < b < r@.len() ==> (#[trigger] r@[a]).0 < (#[trigger] r@[b]).0 || (r@[a].0
                    == r@[b].0 && r@[a].1 < r@[b].1),
    {
        let mut pairs: Vec<(usize, usize)> = Vec::new();
        let n = self.as_paths.len();
        let mut i: usize = 0;
        while i < n
            invariant
                0 <= i <= n,
                n == self.as_paths.len(),
                self.wf(),
                forall|k: int|
                    0 <= k < pairs@.len() ==> self@.diverging_pair(
                        (#[trigger] pairs@[k]).0 as int,
                        pairs@[k].1 as int,
                    ) && pairs@[k].0 < i,
                forall|a: int, b: int|
                    self@.diverging_pair(a, b) && a < i ==> exists|k: int|
                        0 <= k < pairs@.len() && #[trigger] pairs@[k] == (a as usize, b as usize),
                forall|a: int, b: int|
                    0 <= a < b < pairs@.len() ==> (#[trigger] pairs@[a]).0 < (
                    #[trigger] pairs@[b]).0 || (pairs@[a].0 == pairs@[b].0 && pairs@[a].1
                        < pairs@[b].1),
            decreases n - i,
        {
            let mut j: usize = i + 1;
            while j < n
                invariant
                    0 <= i < j <= n,
                    n == self.as_paths.len(),
                    self.wf(),
                    forall|k: int|
                        0 <= k < pairs@.len() ==> self@.diverging_pair(
                            (#[trigger] pairs@[k]).0 as int,
                            pairs@[k].1 as int,
                        ) && (pairs@[k].0 < i || (pairs@[k].0 == i && pairs@[k].1 < j)),
                    forall|a: int, b: int|
                        self@.diverging_pair(a, b) && (a < i || (a == i && b < j)) ==> exists|
                            k: int,
                        | 0 <= k < pairs@.len() && #[trigger] pairs@[k] == (a as usize, b as usize),
                    forall|a: int, b: int|
                        0 <= a < b < pairs@.len() ==> (#[trigger] pairs@[a]).0 < (
                        #[trigger] pairs@[b]).0 || (pairs@[a].0 == pairs@[b].0 && pairs@[a].1
                            < pairs@[b].1),
                decreases n - j,
            {
                proof {
                    assert(self@.paths[i as int] == self.as_paths@[i as int]@);
                    assert(self@.paths[j as int] == self.as_paths@[j as int]@);
                    assert(self@.paths[i as int].wf());
                    assert(self@.paths[j as int].wf());
                }
                if self.as_paths[i].has_divergence_with(&self.as_paths[j]) {
                    let ghost held = pairs@;
                    pairs.push((i, j));
                    proof {
                        assert(pairs@[held.len() as int] == (i, j));
                        assert forall|a: int, b: int|
                            self@.diverging_pair(a, b) && (a < i || (a == i && b < j + 1))
                            implies exists|k: int|
                            0 <= k < pairs@.len() && #[trigger] pairs@[k] == (
                                a as usize,
                                b as usize,
                            ) by {
                            if a == i && b == j {
                                assert(pairs@[held.len() as int] == (a as usize, b as usize));
                            } else {
                                let k = choose|k: int|
                                    0 <= k < held.len() && #[trigger] held[k] == (
                                        a as usize,
                                        b as usize,
                                    );
                                assert(pairs@[k] == held[k]);
                            }
                        }
                    }
                }
                j += 1;
            }
            i += 1;
        }
        pairs
    }

    /// Whether any two of the AS paths diverge.
    pub fn has_overlapping_paths(&self) -> (r: bool)
        requires
            self.wf(),
        ensures
            r == self@.has_diverging_paths(),
    {
        let pairs = self.find_overlapping_paths();
        proof {
            if pairs@.len() > 0 {
                assert(self@.diverging_pair(pairs@[0].0 as int, pairs@[0].1 as int));
            }
        }
        pairs.len() > 0
    }
}

impl Clone for OriginAsPaths {
    /// A copy for the same origin with a copy of every AS path, in order.
    fn clone(&self) -> (r: OriginAsPaths)
        ensures
            r@ == self@,
    {
        let mut as_paths: Vec<AsPath> = Vec::new();
        let mut i: usize = 0;
        while i < self.as_paths.len()
            invariant
                0 <= i <= self.as_paths.len(),
                as_paths@.map_values(|p: AsPath| p@) == self@.paths.take(i as int),
            decreases self.as_paths.len() - i,
        {
            let copy = self.as_paths[i].clone();
            let ghost before = as_paths@;
            as_paths.push(copy);
            proof {
                assert(self@.paths[i as int] == self.as_paths@[i as int]@);
                assert(as_paths@.map_values(|p: AsPath| p@) =~= before.map_values(
                    |p: AsPath| p@,
                ).push(copy@));
                assert(self@.paths.take(i + 1) =~= self@.paths.take(i as int).push(
                    self@.paths[i as int],
                ));
            }
            i += 1;
        }
        proof {
            assert(self@.paths.take(self.as_paths.len() as int) =~= self@.paths);
        }
        OriginAsPaths { origin: self.origin, as_paths }
    }
}

impl PartialEq for OriginAsPaths {
    /// Two containers are equal when they serve the same origin and hold
    /// equal AS paths in the same order.
    fn eq(&self, other: &OriginAsPaths) -> (r: bool) {
        if self.origin != other.origin {
            return false;
        }
        if self.as_paths.len() != other.as_paths.len() {
            return false;
        }
        let mut i: usize = 0;
        while i < self.as_paths.len()
            invariant
                0 <= i <= self.as_paths.len(),
                self.as_paths.len() == other.as_paths.len(),
                forall|j: int|
                    0 <= j < i ==> (#[trigger] self@.paths[j]).same_as(other@.paths[j]),
            decreases self.as_paths.len() - i,
        {
            proof {
                assert(self@.paths[i as int] == self.as_paths@[i as int]@);
                assert(other@.paths[i as int] == other.as_paths@[i as int]@);
            }
            if self.as_paths[i] != other.as_paths[i] {
                return false;
            }
            i += 1;
        }
        true
    }
}

impl PartialEqSpecImpl for OriginAsPaths {
    open spec fn obeys_eq_spec() -> bool {
        true
    }

    open spec fn eq_spec(&self, other: &OriginAsPaths) -> bool {
        self@.same_as(other@)
    }
}

impl Eq for OriginAsPaths {}

impl OriginAsPathsView {
    /// The AS path that holds the route `r` and nothing else.
    pub open spec fn single(r: RouteView) -> AsPathView {
        AsPathView { hops: dedup(r.key.as_path), routes: seq![r] }
    }

    /// Every AS path of `others` is well-formed and ends at this origin.
    pub open spec fn all_fit(self, others: Seq<AsPathView>) -> bool {
        forall|j: int|
            0 <= j < others.len() ==> (#[trigger] others[j]).wf() && others[j].origin()
                == self.origin
    }

    /// The hops of `ap` are stored, and under them every route of `ap`.
    pub open spec fn covers(self, ap: AsPathView) -> bool {
        exists|i: int|
            0 <= i < self.paths.len() && (#[trigger] self.paths[i]).hops == ap.hops && forall|
                j: int,
            | 0 <= j < ap.routes.len() ==> self.paths[i].has_key((#[trigger] ap.routes[j]).key)
    }

    /// Replacing the one entry whose hops are those of `p` by `p` keeps the
    /// value well-formed, and is what rewriting every entry with those hops
    /// does.
    pub proof fn lemma_update_at(self, i: int, p: AsPathView)
        requires
            self.wf(),
            0 <= i < self.paths.len(),
            p.wf(),
            p.hops == self.paths[i].hops,
        ensures
            (OriginAsPathsView { origin: self.origin, paths: self.paths.update(i, p) }).wf(),
            self.has_hops(p.hops),
            forall|f: spec_fn(AsPathView) -> AsPathView|
                f(self.paths[i]) == p && (forall|k: int|
                    0 <= k < self.paths.len() && k != i ==> #[trigger] f(self.paths[k])
                        == self.paths[k]) ==> #[trigger] self.paths.map_values(f)
                    == self.paths.update(i, p),
    {
        let after = OriginAsPathsView { origin: self.origin, paths: self.paths.update(i, p) };
        assert forall|k: int| 0 <= k < after.paths.len() implies (#[trigger] after.paths[k]).wf()
            && after.paths[k].origin() == after.origin by {
            if k != i {
                assert(self.paths[k].wf());
            } else {
                assert(self.paths[i].origin() == self.origin);
            }
        }
        assert forall|a: int, b: int| 0 <= a < b < after.paths.len() implies (
        #[trigger] after.paths[a]).hops != (#[trigger] after.paths[b]).hops by {
            assert(self.paths[a].hops != self.paths[b].hops);
        }
        assert forall|f: spec_fn(AsPathView) -> AsPathView|
            f(self.paths[i]) == p && (forall|k: int|
                0 <= k < self.paths.len() && k != i ==> #[trigger] f(self.paths[k])
                    == self.paths[k]) implies #[trigger] self.paths.map_values(f)
                == self.paths.update(i, p) by {
            assert(self.paths.map_values(f) =~= self.paths.update(i, p));
        }
    }

    /// The AS path that holds one route alone is well-formed and ends where
    /// the route does.
    pub proof fn lemma_single_wf(r: RouteView)
        requires
            r.wf(),
        ensures
            Self::single(r).wf(),
            Self::single(r).origin() == r.origin(),
            forall|k: RouteKey| #[trigger] Self::single(r).has_key(k) <==> k == r.key,
    {
        lemma_dedup_last(r.key.as_path);
        crate::dedup::lemma_dedup_no_adjacent(r.key.as_path);
        let ap = Self::single(r);
        assert(ap.routes[0] == r);
        assert forall|k: RouteKey| #[trigger] ap.has_key(k) <==> k == r.key by {
            if k == r.key {
                assert(ap.routes[0].key == k);
            }
        }
    }

    /// Offering a route is offering the AS path that holds it alone.
    pub proof fn lemma_add_route_is_add_as_path(self, r: RouteView)
        ensures
            self.add_route(r) == self.add_as_path(Self::single(r)),
    {
        let ap = Self::single(r);
        assert(ap.routes.drop_last() =~= Seq::<RouteView>::empty());
        assert(ap.routes.last() == r);
        assert forall|p: AsPathView| #[trigger] p.add_routes(ap.routes) == p.add_route(r) by {
            assert(p.add_routes(ap.routes.drop_last()) == p);
        }
        if self.has_hops(ap.hops) {
            assert(self.add_route(r).paths =~= self.add_as_path(ap).paths);
        } else {
            let fresh = AsPathView::empty(ap.hops);
            assert(!fresh.has_route(r));
            assert(fresh.add_route(r).routes =~= ap.routes);
        }
    }

    /// A route that an AS path of a well-formed container holds is held
    /// under the hops that the route's own path collapses to.
    pub proof fn lemma_has_key_any(self, k: RouteKey)
        requires
            self.wf(),
        ensures
            self.has_key(k) <==> exists|j: int|
                0 <= j < self.paths.len() && (#[trigger] self.paths[j]).has_key(k),
    {
        if exists|j: int| 0 <= j < self.paths.len() && (#[trigger] self.paths[j]).has_key(k) {
            let j = choose|j: int| 0 <= j < self.paths.len() && (#[trigger] self.paths[j]).has_key(k);
            let p = self.paths[j];
            let i = choose|i: int| 0 <= i < p.routes.len() && (#[trigger] p.routes[i]).key == k;
            assert(dedup(p.routes[i].key.as_path) == p.hops);
        }
    }

    /// Offering an AS path that ends here keeps the value well-formed and
    /// loses nothing.
    pub proof fn lemma_add_as_path_wf(self, ap: AsPathView)
        requires
            self.wf(),
            ap.wf(),
            ap.origin() == self.origin,
        ensures
            self.add_as_path(ap).wf(),
            self.add_as_path(ap).origin == self.origin,
            self.add_as_path(ap).paths.len() >= self.paths.len(),
            self.add_as_path(ap).paths.len() > 0,
    {
        let after = self.add_as_path(ap);
        if self.has_hops(ap.hops) {
            let i = choose|i: int|
                0 <= i < self.paths.len() && (#[trigger] self.paths[i]).hops == ap.hops;
            let p = self.paths[i].add_routes(ap.routes);
            assert forall|j: int| 0 <= j < ap.routes.len() implies self.paths[i].accepts(
                #[trigger] ap.routes[j],
            ) by {
                lemma_dedup_last(ap.routes[j].key.as_path);
            }
            self.paths[i].lemma_add_routes_wf(ap.routes);
            self.lemma_update_at(i, p);
            let f = |q: AsPathView|
                if q.hops == ap.hops {
                    q.add_routes(ap.routes)
                } else {
                    q
                };
            assert(f(self.paths[i]) == p);
            assert forall|k: int| 0 <= k < self.paths.len() && k != i implies #[trigger] f(
                self.paths[k],
            ) == self.paths[k] by {
                if k < i {
                    assert(self.paths[k].hops != self.paths[i].hops);
                } else {
                    assert(self.paths[i].hops != self.paths[k].hops);
                }
            }
            assert(self.paths.map_values(f) == self.paths.update(i, p));
        } else {
            assert forall|a: int, b: int| 0 <= a < b < after.paths.len() implies (
            #[trigger] after.paths[a]).hops != (#[trigger] after.paths[b]).hops by {
                if b == self.paths.len() {
                    assert(self.paths[a].hops != ap.hops);
                } else {
                    assert(self.paths[a].hops != self.paths[b].hops);
                }
            }
            assert forall|a: int| 0 <= a < after.paths.len() implies (#[trigger] after.paths[a]).wf()
                && after.paths[a].origin() == after.origin by {
                if a < self.paths.len() {
                    assert(self.paths[a].wf());
                }
            }
        }
    }

    /// After an AS path was offered, the routes present are those that were,
    /// and its own.
    pub proof fn lemma_add_as_path_keys(self, ap: AsPathView, k: RouteKey)
        requires
            self.wf(),
            ap.wf(),
            ap.origin() == self.origin,
        ensures
            self.add_as_path(ap).has_key(k) <==> (self.has_key(k) || ap.has_key(k)),
    {
        let after = self.add_as_path(ap);
        let hops = dedup(k.as_path);
        if ap.has_key(k) {
            let j = choose|j: int| 0 <= j < ap.routes.len() && (#[trigger] ap.routes[j]).key == k;
            assert(dedup(ap.routes[j].key.as_path) == ap.hops);
        }
        if self.has_hops(ap.hops) {
            let i = choose|i: int|
                0 <= i < self.paths.len() && (#[trigger] self.paths[i]).hops == ap.hops;
            let p = self.paths[i].add_routes(ap.routes);
            self.paths[i].lemma_add_routes_keys(ap.routes, k);
            self.paths[i].lemma_add_routes_hops(ap.routes);
            assert(after.paths[i] == p);
            if self.has_key(k) {
                let j = choose|j: int|
                    0 <= j < self.paths.len() && (#[trigger] self.paths[j]).hops == hops
                        && self.paths[j].has_key(k);
                if j == i {
                    assert(after.paths[i].hops == hops && after.paths[i].has_key(k));
                } else {
                    assert(self.paths[j].hops != self.paths[i].hops) by {
                        if j < i {
                            assert(self.paths[j].hops != self.paths[i].hops);
                        } else {
                            assert(self.paths[i].hops != self.paths[j].hops);
                        }
                    }
                    assert(after.paths[j] == self.paths[j]);
                }
            }
            if ap.has_key(k) {
                assert(after.paths[i].hops == hops && after.paths[i].has_key(k));
            }
            if after.has_key(k) {
                let j = choose|j: int|
                    0 <= j < after.paths.len() && (#[trigger] after.paths[j]).hops == hops
                        && after.paths[j].has_key(k);
                if self.paths[j].hops == ap.hops {
                    assert(j == i) by {
                        if j < i {
                            assert(self.paths[j].hops != self.paths[i].hops);
                        } else if i < j {
                            assert(self.paths[i].hops != self.paths[j].hops);
                        }
                    }
                    if self.paths[i].has_key(k) {
                        assert(self.paths[i].hops == hops && self.paths[i].has_key(k));
                    }
                } else {
                    assert(after.paths[j] == self.paths[j]);
                    assert(self.paths[j].hops == hops && self.paths[j].has_key(k));
                }
            }
        } else {
            assert(after.paths[self.paths.len() as int] == ap);
            if self.has_key(k) {
                let j = choose|j: int|
                    0 <= j < self.paths.len() && (#[trigger] self.paths[j]).hops == hops
                        && self.paths[j].has_key(k);
                assert(after.paths[j] == self.paths[j]);
            }
            if after.has_key(k) {
                let j = choose|j: int|
                    0 <= j < after.paths.len() && (#[trigger] after.paths[j]).hops == hops
                        && after.paths[j].has_key(k);
                if j < self.paths.len() {
                    assert(self.paths[j].hops == hops && self.paths[j].has_key(k));
                }
            }
        }
    }

    /// Offering a route that ends here keeps the value well-formed.
    pub proof fn lemma_add_route_wf(self, r: RouteView)
        requires
            self.wf(),
            r.wf(),
            r.origin() == self.origin,
        ensures
            self.add_route(r).wf(),
            self.add_route(r).origin == self.origin,
            self.add_route(r).paths.len() > 0,
            forall|k: RouteKey| #[trigger]
                self.add_route(r).has_key(k) <==> (self.has_key(k) || k == r.key),
    {
        Self::lemma_single_wf(r);
        self.lemma_add_route_is_add_as_path(r);
        self.lemma_add_as_path_wf(Self::single(r));
        assert forall|k: RouteKey| #[trigger]
            self.add_route(r).has_key(k) <==> (self.has_key(k) || k == r.key) by {
            self.lemma_add_as_path_keys(Self::single(r), k);
        }
    }

    /// Merging keeps the origin, loses no AS path, and leaves at least one
    /// where anything was offered.
    pub proof fn lemma_merge_from_shape(self, others: Seq<AsPathView>)
        ensures
            self.merge_from(others).origin == self.origin,
            self.merge_from(others).paths.len() >= self.paths.len(),
            others.len() > 0 ==> self.merge_from(others).paths.len() > 0,
        decreases others.len(),
    {
        if others.len() > 0 {
            self.lemma_merge_from_shape(others.drop_last());
            let mid = self.merge_from(others.drop_last());
            if mid.has_hops(others.last().hops) {
                let i = choose|i: int|
                    0 <= i < mid.paths.len() && (#[trigger] mid.paths[i]).hops
                        == others.last().hops;
            }
        }
    }

    /// Merging AS paths that all end here keeps the value well-formed.
    pub proof fn lemma_merge_from_wf(self, others: Seq<AsPathView>)
        requires
            self.wf(),
            self.all_fit(others),
        ensures
            self.merge_from(others).wf(),
            self.merge_from(others).origin == self.origin,
        decreases others.len(),
    {
        if others.len() > 0 {
            let front = others.drop_last();
            assert forall|j: int| 0 <= j < front.len() implies (#[trigger] front[j]).wf()
                && front[j].origin() == self.origin by {
                assert(front[j] == others[j]);
            }
            self.lemma_merge_from_wf(front);
            assert(others[others.len() - 1].wf());
            self.merge_from(front).lemma_add_as_path_wf(others.last());
        }
    }

    /// After a merge, the routes present are those that were, and those of
    /// the AS paths merged in.
    pub proof fn lemma_merge_from_keys(self, others: Seq<AsPathView>, k: RouteKey)
        requires
            self.wf(),
            self.all_fit(others),
        ensures
            self.merge_from(others).has_key(k) <==> (self.has_key(k) || exists|j: int|
                0 <= j < others.len() && (#[trigger] others[j]).has_key(k)),
        decreases others.len(),
    {
        if others.len() > 0 {
            let front = others.drop_last();
            assert forall|j: int| 0 <= j < front.len() implies (#[trigger] front[j]).wf()
                && front[j].origin() == self.origin by {
                assert(front[j] == others[j]);
            }
            self.lemma_merge_from_wf(front);
            self.lemma_merge_from_keys(front, k);
            assert(others[others.len() - 1].wf());
            self.merge_from(front).lemma_add_as_path_keys(others.last(), k);
            if exists|j: int| 0 <= j < front.len() && (#[trigger] front[j]).has_key(k) {
                let j = choose|j: int| 0 <= j < front.len() && (#[trigger] front[j]).has_key(k);
                assert(others[j].has_key(k));
            }
            if others.last().has_key(k) {
                assert(others[others.len() - 1].has_key(k));
            }
            if exists|j: int| 0 <= j < others.len() && (#[trigger] others[j]).has_key(k) {
                let j = choose|j: int| 0 <= j < others.len() && (#[trigger] others[j]).has_key(k);
                if j < front.len() {
                    assert(front[j].has_key(k));
                }
            }
        }
    }

    /// Offering an AS path whose hops and routes are all stored changes
    /// nothing.
    pub proof fn lemma_add_as_path_covered(self, ap: AsPathView)
        requires
            self.wf(),
            self.covers(ap),
        ensures
            self.add_as_path(ap) == self,
    {
        let i = choose|i: int|
            0 <= i < self.paths.len() && (#[trigger] self.paths[i]).hops == ap.hops && forall|
                j: int,
            | 0 <= j < ap.routes.len() ==> self.paths[i].has_key((#[trigger] ap.routes[j]).key);
        self.paths[i].lemma_add_routes_present(ap.routes);
        let f = |q: AsPathView|
            if q.hops == ap.hops {
                q.add_routes(ap.routes)
            } else {
                q
            };
        assert forall|k: int| 0 <= k < self.paths.len() implies #[trigger] f(self.paths[k])
            == self.paths[k] by {
            if k < i {
                assert(self.paths[k].hops != self.paths[i].hops);
            } else if i < k {
                assert(self.paths[i].hops != self.paths[k].hops);
            }
        }
        assert(self.paths.map_values(f) =~= self.paths);
    }

    /// After an AS path was offered, its hops and routes are stored, and so
    /// is whatever was stored before.
    pub proof fn lemma_add_as_path_covers(self, ap: AsPathView, x: AsPathView)
        requires
            self.wf(),
            ap.wf(),
            ap.origin() == self.origin,
        ensures
            self.add_as_path(ap).covers(ap),
            self.covers(x) ==> self.add_as_path(ap).covers(x),
    {
        let after = self.add_as_path(ap);
        if self.has_hops(ap.hops) {
            let i = choose|i: int|
                0 <= i < self.paths.len() && (#[trigger] self.paths[i]).hops == ap.hops;
            let p = self.paths[i].add_routes(ap.routes);
            self.paths[i].lemma_add_routes_hops(ap.routes);
            assert(after.paths[i] == p);
            assert forall|j: int| 0 <= j < ap.routes.len() implies after.paths[i].has_key(
                (#[trigger] ap.routes[j]).key,
            ) by {
                self.paths[i].lemma_add_routes_keys(ap.routes, ap.routes[j].key);
            }
            if self.covers(x) {
                let c = choose|c: int|
                    0 <= c < self.paths.len() && (#[trigger] self.paths[c]).hops == x.hops
                        && forall|j: int|
                        0 <= j < x.routes.len() ==> self.paths[c].has_key(
                            (#[trigger] x.routes[j]).key,
                        );
                if self.paths[c].hops == ap.hops {
                    assert(c == i) by {
                        if c < i {
                            assert(self.paths[c].hops != self.paths[i].hops);
                        } else if i < c {
                            assert(self.paths[i].hops != self.paths[c].hops);
                        }
                    }
                    assert forall|j: int| 0 <= j < x.routes.len() implies after.paths[i].has_key(
                        (#[trigger] x.routes[j]).key,
                    ) by {
                        self.paths[i].lemma_add_routes_keys(ap.routes, x.routes[j].key);
                    }
                    assert(after.paths[i].hops == x.hops);
                } else {
                    assert(after.paths[c] == self.paths[c]);
                }
            }
        } else {
            let n = self.paths.len() as int;
            assert(after.paths[n] == ap);
            assert forall|j: int| 0 <= j < ap.routes.len() implies after.paths[n].has_key(
                (#[trigger] ap.routes[j]).key,
            ) by {
                assert(ap.routes[j].key == ap.routes[j].key);
            }
            if self.covers(x) {
                let c = choose|c: int|
                    0 <= c < self.paths.len() && (#[trigger] self.paths[c]).hops == x.hops
                        && forall|j: int|
                        0 <= j < x.routes.len() ==> self.paths[c].has_key(
                            (#[trigger] x.routes[j]).key,
                        );
                assert(after.paths[c] == self.paths[c]);
            }
        }
    }

    /// After a merge, the hops and routes of every AS path merged in are
    /// stored.
    pub proof fn lemma_merge_from_covers(self, others: Seq<AsPathView>, j: int)
        requires
            self.wf(),
            self.all_fit(others),
            0 <= j < others.len(),
        ensures
            self.merge_from(others).covers(others[j]),
        decreases others.len(),
    {
        let front = others.drop_last();
        assert forall|i: int| 0 <= i < front.len() implies (#[trigger] front[i]).wf()
            && front[i].origin() == self.origin by {
            assert(front[i] == others[i]);
        }
        self.lemma_merge_from_wf(front);
        assert(others[others.len() - 1].wf());
        if j < front.len() {
            self.lemma_merge_from_covers(front, j);
            assert(front[j] == others[j]);
        }
        self.merge_from(front).lemma_add_as_path_covers(others.last(), others[j]);
    }

    /// Merging AS paths whose hops and routes are all stored changes nothing.
    pub proof fn lemma_merge_from_covered(self, others: Seq<AsPathView>)
        requires
            self.wf(),
            forall|j: int| 0 <= j < others.len() ==> self.covers(#[trigger] others[j]),
        ensures
            self.merge_from(others) == self,
        decreases others.len(),
    {
        if others.len() > 0 {
            let front = others.drop_last();
            assert forall|j: int| 0 <= j < front.len() implies self.covers(#[trigger] front[j]) by {
                assert(front[j] == others[j]);
            }
            self.lemma_merge_from_covered(front);
            assert(self.covers(others[others.len() - 1]));
            self.lemma_add_as_path_covered(others.last());
        }
    }

    /// Merging is idempotent: merging the same AS paths a second time
    /// changes nothing.
    pub proof fn lemma_merge_from_idempotent(self, others: Seq<AsPathView>)
        requires
            self.wf(),
            self.all_fit(others),
        ensures
            self.merge_from(others).merge_from(others) == self.merge_from(others),
    {
        let once = self.merge_from(others);
        self.lemma_merge_from_wf(others);
        assert forall|j: int| 0 <= j < others.len() implies once.covers(#[trigger] others[j]) by {
            self.lemma_merge_from_covers(others, j);
        }
        once.lemma_merge_from_covered(others);
    }
}

} // verus!
