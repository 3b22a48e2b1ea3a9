//! The global index from origin AS to the AS paths that end there.

use vstd::prelude::*;
use std::collections::HashMap;
use vstd::std_specs::iter::IteratorSpec;
use vstd::set::fold::{lemma_fold_empty, lemma_fold_insert};
use crate::error::PathError;
use crate::net::Asn;
use crate::origin_as_paths::{OriginAsPaths, OriginAsPathsView};
use crate::route::{Route, RouteKey, RouteView};

verus! {

broadcast use vstd::std_specs::hash::group_hash_axioms;

/// The mathematical value of a [`PathData`]: for each origin that was seen,
/// the AS paths that end there.
pub ghost struct PathDataView {
    pub origins: Map<Asn, OriginAsPathsView>,
}

impl PathDataView {
    /// No origin yet.
    pub open spec fn empty() -> PathDataView {
        PathDataView { origins: Map::empty() }
    }

    /// Finitely many origins; each entry is well-formed, is filed under its
    /// own origin, and holds at least one AS path.
    pub open spec fn wf(self) -> bool {
        &&& self.origins.dom().finite()
        &&& forall|o: Asn| #[trigger]
            self.origins.contains_key(o) ==> {
                &&& self.origins[o].wf()
                &&& self.origins[o].origin == o
                &&& self.origins[o].paths.len() > 0
            }
    }

    /// What is filed under `o`, or an empty container where nothing is.
    pub open spec fn entry(self, o: Asn) -> OriginAsPathsView {
        if self.origins.contains_key(o) {
            self.origins[o]
        } else {
            OriginAsPathsView::empty(o)
        }
    }

    /// Whether a route with identity `k` is stored, under the origin that
    /// its AS path ends at.
    pub open spec fn has_key(self, k: RouteKey) -> bool {
        self.origins.contains_key(k.as_path.last()) && self.origins[k.as_path.last()].has_key(k)
    }

    /// Whether a route equal to `r` is stored.
    pub open spec fn has_route(self, r: RouteView) -> bool {
        self.has_key(r.key)
    }

    /// Whether the route `r`, community tags included, is stored under one of
    /// the origins.
    pub open spec fn holds(self, r: RouteView) -> bool {
        exists|o: Asn| #[trigger] self.origins.contains_key(o) && self.origins[o].holds(r)
    }

    /// The identities of all the routes stored.
    pub open spec fn route_keys(self) -> Set<RouteKey> {
        Set::new(|k: RouteKey| self.has_key(k))
    }

    /// The value after `r` was inserted: unchanged where an equal route is
    /// stored, else with `r` added under its origin.
    pub open spec fn insert_route(self, r: RouteView) -> PathDataView {
        if self.has_route(r) {
            self
        } else {
            PathDataView {
                origins: self.origins.insert(r.origin(), self.entry(r.origin()).add_route(r)),
            }
        }
    }

    /// The value after the routes of `rs` were inserted one by one, first to
    /// last.
    pub open spec fn insert_routes(self, rs: Seq<RouteView>) -> PathDataView
        decreases rs.len(),
    {
        if rs.len() == 0 {
            self
        } else {
            self.insert_routes(rs.drop_last()).insert_route(rs.last())
        }
    }

    /// The value after `other` was merged in: every origin of either side,
    /// and under each origin of `other` the local entry with the AS paths of
    /// `other` merged into it.
    pub open spec fn merge_from(self, other: PathDataView) -> PathDataView {
        PathDataView {
            origins: Map::new(
                |o: Asn| self.origins.contains_key(o) || other.origins.contains_key(o),
                |o: Asn|
                    if other.origins.contains_key(o) {
                        self.entry(o).merge_from(other.origins[o].paths)
                    } else {
                        self.origins[o]
                    },
            ),
        }
    }

    /// The value without the origins that have exactly one AS path.
    pub open spec fn remove_single_as_paths(self) -> PathDataView {
        PathDataView {
            origins: self.origins.restrict(
                Set::new(|o: Asn| self.origins.contains_key(o) && self.origins[o].paths.len() != 1),
            ),
        }
    }

    /// The value with the single-hop AS paths deleted under every origin,
    /// and without the origins that this leaves empty.
    pub open spec fn remove_single_hop_as_paths(self) -> PathDataView {
        PathDataView {
            origins: Map::new(
                |o: Asn|
                    self.origins.contains_key(o)
                        && self.origins[o].remove_single_hop_paths().paths.len() > 0,
                |o: Asn| self.origins[o].remove_single_hop_paths(),
            ),
        }
    }

    /// The number of origins.
    pub open spec fn count_origins(self) -> nat {
        self.origins.dom().len()
    }

    /// The number of AS paths under the origins of `among`.
    pub open spec fn count_as_paths_among(self, among: Set<Asn>) -> nat {
        among.fold(0nat, |sum: nat, o: Asn| sum + self.origins[o].paths.len())
    }

    /// The number of AS paths, over all origins.
    pub open spec fn count_as_paths(self) -> nat {
        self.count_as_paths_among(self.origins.dom())
    }

    /// Equality as `==` tests it: the same origins, and under each an equal
    /// entry.
    pub open spec fn same_as(self, other: PathDataView) -> bool {
        &&& self.origins.dom() == other.origins.dom()
        &&& forall|o: Asn| #[trigger]
            self.origins.contains_key(o) ==> self.origins[o].same_as(other.origins[o])
    }
}

/// One round of the pairwise merge: every element at an even place takes in
/// its right-hand neighbour; a last element without neighbour stays as it is.
pub open spec fn merge_round(parts: Seq<PathDataView>) -> Seq<PathDataView> {
    Seq::new(
        ((parts.len() + 1) / 2) as nat,
        |i: int|
            if 2 * i + 1 < parts.len() {
                parts[2 * i].merge_from(parts[2 * i + 1])
            } else {
                parts[2 * i]
            },
    )
}

/// What the pairwise tree merge leaves of `parts`: rounds are repeated until
/// one element is left.
pub open spec fn merge_tree(parts: Seq<PathDataView>) -> PathDataView
    decreases parts.len(),
{
    if parts.len() == 0 {
        PathDataView::empty()
    } else if parts.len() == 1 {
        parts[0]
    } else {
        merge_tree(merge_round(parts))
    }
}

/// Public API which provides access to all paths and routes, keyed by origin
/// AS.
#[derive(Debug)]
pub struct PathData {
    as_paths: HashMap<Asn, OriginAsPaths>,
}

impl View for PathData {
    type V = PathDataView;

    closed spec fn view(&self) -> PathDataView {
        PathDataView { origins: self.as_paths@.map_values(|e: OriginAsPaths| e@) }
    }
}

impl PathData {
    /// The invariant of the type, stated on its value.
    pub open spec fn wf(&self) -> bool {
        self@.wf()
    }

    /// An index without any origin.
    pub fn new() -> (r: PathData)
        ensures
            r@ == PathDataView::empty(),
            r.wf(),
    {
        let r = PathData { as_paths: HashMap::new() };
        proof {
            assert(r@.origins =~= Map::<Asn, OriginAsPathsView>::empty());
        }
        r
    }

    /// The number of origins.
    pub fn count_origins(&self) -> (r: usize)
        ensures
            r == self@.count_origins(),
    {
        proof {
            assert(self@.origins.dom() =~= self.as_paths@.dom());
        }
        self.as_paths.len()
    }

    /// The number of AS paths over all origins; `usize::MAX` where the sum
    /// does not fit.
    pub fn count_as_paths(&self) -> (r: usize)
        ensures
            r == (if self@.count_as_paths() <= usize::MAX {
                self@.count_as_paths()
            } else {
                usize::MAX as nat
            }),
    {
        let origins = self.get_origins();
        let ghost view = self@;
        let ghost step = |sum: nat, o: Asn| sum + view.origins[o].paths.len();
        let mut total: usize = 0;
        let mut i: usize = 0;
        proof {
            lemma_fold_empty::<Asn, nat>(0nat, step);
            assert(origins@.take(0).to_set() =~= Set::<Asn>::empty());
        }
        while i < origins.len()
            invariant
                0 <= i <= origins.len(),
                view == self@,
                step == |sum: nat, o: Asn| sum + view.origins[o].paths.len(),
                origins@.no_duplicates(),
                origins@.to_set() == view.origins.dom(),
                total == (if view.count_as_paths_among(origins@.take(i as int).to_set())
                    <= usize::MAX {
                    view.count_as_paths_among(origins@.take(i as int).to_set())
                } else {
                    usize::MAX as nat
                }),
            decreases origins.len() - i,
        {
            let origin: Asn = origins[i];
            proof {
                let seen = origins@.take(i as int).to_set();
                lemma_take_step(origins@, i as int);
                assert(origins@.to_set().contains(origin));
                lemma_fold_insert::<Asn, nat>(seen, 0nat, step, origin);
            }
            let here: usize = match self.as_paths.get(&origin) {
                Some(e) => e.len(),
                None => 0,
            };
            total = match total.checked_add(here) {
                Some(sum) => sum,
                None => usize::MAX,
            };
            i += 1;
        }
        proof {
            assert(origins@.take(origins.len() as int) =~= origins@);
        }
        total
    }

    /// The origins, each once, in no particular order.
    pub fn get_origins(&self) -> (r: Vec<Asn>)
        ensures
            r@.no_duplicates(),
            r@.to_set() == self@.origins.dom(),
    {
        let mut out: Vec<Asn> = Vec::new();
        let ghost all = vstd::std_specs::hash::spec_keys_iter(&self.as_paths).remaining();
        for k in it: self.as_paths.keys()
            invariant
                it.seq() == all,
                out@ == all.take(it.index() as int).unref(),
        {
            out.push(*k);
        }
        proof {
            assert(all.take(all.len() as int) =~= all);
            assert(out@ == all.unref());
            assert(self@.origins.dom() =~= self.as_paths@.dom());
        }
        out
    }

    /// Whether anything is filed under `origin`.
    pub fn has_as_paths_for_origin(&self, origin: &Asn) -> (r: bool)
        ensures
            r == self@.origins.contains_key(*origin),
    {
        self.as_paths.contains_key(origin)
    }

    /// What is filed under `origin`, if anything.
    pub fn get_as_paths_for_origin(&self, origin: &Asn) -> (r: Option<&OriginAsPaths>)
        ensures
            match r {
                Some(e) => self@.origins.contains_key(*origin) && e@ == self@.origins[*origin],
                None => !self@.origins.contains_key(*origin),
            },
    {
        self.as_paths.get(origin)
    }

    /// Whether a route equal to `route` is stored.
    pub fn has_route(&self, route: &Route) -> (r: bool)
        requires
            self.wf(),
        ensures
            r == self@.has_route(route@),
    {
        match self.as_paths.get(route.get_origin()) {
            Some(e) => {
                proof {
                    assert(self@.origins.contains_key(route@.origin()));
                    assert(self@.origins[route@.origin()] == e@);
                }
                e.has_route(route)
            },
            None => false,
        }
    }

    /// Stores `route` unless an equal route is stored already: the origin's
    /// entry and the AS path for the route's deduplicated hops are created
    /// where they are missing. Whether the route is present is settled
    /// before anything is created, so that a replay changes nothing.
    pub fn insert_route(&mut self, route: Route)
        requires
            old(self).wf(),
        ensures
            final(self).wf(),
            final(self)@ == old(self)@.insert_route(route@),
            final(self)@.has_route(route@),
            final(self)@.count_origins() >= 1,
    {
        if self.has_route(&route) {
            proof {
                assert(self@.origins.dom().contains(route@.origin()));
            }
            return ;
        }
        let origin: Asn = *route.get_origin();
        let ghost before = self@;
        let ghost fresh = before.entry(origin).add_route(route@);
        let mut e = match self.as_paths.remove(&origin) {
            Some(e) => e,
            None => OriginAsPaths::new(origin),
        };
        assert(e@ == before.entry(origin));
        // The entry serves the route's origin, so the route is not refused.
        let _ = e.add_route(route);
        proof {
            assert(e@ == fresh);
            before.lemma_entry(origin);
            before.entry(origin).lemma_add_route_wf(route@);
            assert(fresh.has_key(route@.key));
        }
        self.as_paths.insert(origin, e);
        proof {
            assert(self@.origins =~= before.origins.insert(origin, fresh));
            assert(self@.origins.dom().contains(origin));
        }
    }

    /// Merges `other` in: every origin of `other` is created here where it
    /// is missing, and takes over the AS paths and routes of `other` that it
    /// lacks. `other` is left as it is.
    pub fn merge_from(&mut self, other: &PathData)
        requires
            old(self).wf(),
            other.wf(),
        ensures
            final(self).wf(),
            final(self)@ == old(self)@.merge_from(other@),
    {
        let origins = other.get_origins();
        let ghost before = self@;
        let ghost theirs = other@;
        let mut i: usize = 0;
        while i < origins.len()
            invariant
                0 <= i <= origins.len(),
                before == old(self)@,
                before.wf(),
                theirs == other@,
                other.wf(),
                self.wf(),
                origins@.no_duplicates(),
                origins@.to_set() == theirs.origins.dom(),
                self@.origins.dom() =~= before.origins.dom().union(
                    origins@.take(i as int).to_set(),
                ),
                forall|o: Asn| #[trigger]
                    self@.origins.contains_key(o) ==> self@.origins[o] == (if origins@.take(
                        i as int,
                    ).contains(o) {
                        before.entry(o).merge_from(theirs.origins[o].paths)
                    } else {
                        before.origins[o]
                    }),
            decreases origins.len() - i,
        {
            let origin: Asn = origins[i];
            let ghost now = self@;
            proof {
                lemma_take_step(origins@, i as int);
                assert(origins@.to_set().contains(origin));
                assert(theirs.origins.contains_key(origin));
                assert(now.entry(origin) == before.entry(origin));
            }
            let mut e = match self.as_paths.remove(&origin) {
                Some(e) => e,
                None => OriginAsPaths::new(origin),
            };
            assert(e@ == now.entry(origin));
            match other.as_paths.get(&origin) {
                Some(from) => {
                    proof {
                        assert(from@ == theirs.origins[origin]);
                        e@.lemma_merge_from_shape(from@.paths);
                    }
                    // Both entries serve `origin`, so the merge is not refused.
                    let _ = e.merge_from(from);
                },
                None => {},
            }
            self.as_paths.insert(origin, e);
            proof {
                assert(self@.origins =~= now.origins.insert(origin, e@));
                assert forall|o: Asn| #[trigger] self@.origins.contains_key(o) implies self@.origins[o]
                    == (if origins@.take(i + 1).contains(o) {
                    before.entry(o).merge_from(theirs.origins[o].paths)
                } else {
                    before.origins[o]
                }) by {
                    if o != origin {
                        assert(now.origins.contains_key(o));
                    }
                }
                assert(self@.origins.dom() =~= before.origins.dom().union(
                    origins@.take(i + 1).to_set(),
                ));
            }
            i += 1;
        }
        proof {
            assert(origins@.take(origins.len() as int) =~= origins@);
            assert(self@.origins =~= before.merge_from(theirs).origins);
        }
    }

    /// One round of the pairwise merge, in place: the vector is left with
    /// half its length, rounded up. Each absorbed element is released as
    /// soon as its pair is merged.
    fn merge_pairs(all_path_data: &mut Vec<PathData>)
        requires
            forall|i: int| 0 <= i < old(all_path_data)@.len() ==> (#[trigger] old(all_path_data)@[i]).wf(),
        ensures
            forall|i: int| 0 <= i < final(all_path_data)@.len() ==> (#[trigger] final(all_path_data)@[i]).wf(),
            final(all_path_data)@.len() == (old(all_path_data)@.len() + 1) / 2,
            final(all_path_data)@.map_values(|d: PathData| d@) == merge_round(
                old(all_path_data)@.map_values(|d: PathData| d@),
            ),
    {
        let ghost orig = all_path_data@.map_values(|d: PathData| d@);
        let ghost round = merge_round(orig);
        let pairs: usize = all_path_data.len() / 2;
        let mut i: usize = 0;
        proof {
            assert(all_path_data@.map_values(|d: PathData| d@) =~= round.take(0) + orig.skip(0));
        }
        while i < pairs
            invariant
                0 <= i <= pairs,
                pairs == orig.len() / 2,
                round == merge_round(orig),
                all_path_data@.len() == orig.len() - i,
                forall|k: int| 0 <= k < all_path_data@.len() ==> (#[trigger] all_path_data@[k]).wf(),
                all_path_data@.map_values(|d: PathData| d@) == round.take(i as int) + orig.skip(
                    2 * i,
                ),
            decreases pairs - i,
        {
            let ghost now = all_path_data@.map_values(|d: PathData| d@);
            let absorbed = all_path_data.remove(i + 1);
            proof {
                assert(now[i as int] == orig[2 * i]);
                assert(now[i + 1] == orig[2 * i + 1]);
                assert(absorbed@ == orig[2 * i + 1]);
            }
            let ghost mid = all_path_data@;
            all_path_data[i].merge_from(&absorbed);
            proof {
                let after = all_path_data@.map_values(|d: PathData| d@);
                let want = round.take(i + 1) + orig.skip(2 * (i + 1));
                assert(all_path_data@.len() == mid.len());
                assert(mid[i as int]@ == orig[2 * i]);
                assert(all_path_data@[i as int]@ == round[i as int]);
                assert forall|k: int| 0 <= k < all_path_data@.len() implies (
                #[trigger] all_path_data@[k]).wf() by {
                    if k != i {
                        assert(all_path_data@[k] == mid[k]);
                    }
                }
                assert(after.len() == want.len());
                assert forall|k: int| 0 <= k < after.len() implies after[k] == want[k] by {
                    if k < i {
                        assert(all_path_data@[k] == mid[k]);
                        assert(mid[k]@ == now[k]);
                        assert(now[k] == round.take(i as int)[k]);
                    } else if k == i {
                    } else {
                        assert(all_path_data@[k] == mid[k]);
                        assert(mid[k]@ == now[k + 1]);
                        assert(now[k + 1] == orig.skip(2 * i)[k + 1 - i]);
                    }
                }
                assert(after =~= want);
            }
            i += 1;
        }
        proof {
            assert(all_path_data@.map_values(|d: PathData| d@) =~= round);
        }
    }

    /// Folds the partial results of the workers into one. The vector is
    /// walked in pairs, each left element taking in its right neighbour; the
    /// absorbed elements are removed, so that the vector halves; and so on
    /// until one element is left. A single element is returned as it is, and
    /// an empty vector is an error.
    pub fn merge_path_data(all_path_data: Vec<PathData>) -> (r: Result<PathData, PathError>)
        requires
            forall|i: int| 0 <= i < all_path_data@.len() ==> (#[trigger] all_path_data@[i]).wf(),
        ensures
            all_path_data@.len() == 0 ==> r == Err::<PathData, PathError>(PathError::EmptyMerge),
            all_path_data@.len() > 0 ==> r is Ok && r->Ok_0.wf() && r->Ok_0@ == merge_tree(
                all_path_data@.map_values(|d: PathData| d@),
            ),
    {
        let mut all_path_data = all_path_data;
        if all_path_data.len() == 0 {
            return Err(PathError::EmptyMerge);
        }
        let ghost orig = all_path_data@.map_values(|d: PathData| d@);
        while all_path_data.len() > 1
            invariant
                all_path_data@.len() > 0,
                forall|i: int| 0 <= i < all_path_data@.len() ==> (#[trigger] all_path_data@[i]).wf(),
                merge_tree(all_path_data@.map_values(|d: PathData| d@)) == merge_tree(orig),
            decreases all_path_data@.len(),
        {
            PathData::merge_pairs(&mut all_path_data);
        }
        match all_path_data.pop() {
            Some(path_data) => Ok(path_data),
            None => vstd::pervasive::unreached(),
        }
    }

    /// Deletes every origin that has exactly one AS path: with a single
    /// path there is no divergence to analyse. Every origin that stays has
    /// at least two.
    pub fn remove_single_as_paths(&mut self)
        requires
            old(self).wf(),
        ensures
            final(self).wf(),
            final(self)@ == old(self)@.remove_single_as_paths(),
            forall|o: Asn| #[trigger]
                final(self)@.origins.contains_key(o) ==> final(self)@.origins[o].paths.len() >= 2,
    {
        let origins = self.get_origins();
        let ghost before = self@;
        let mut i: usize = 0;
        while i < origins.len()
            invariant
                0 <= i <= origins.len(),
                before == old(self)@,
                before.wf(),
                self.wf(),
                origins@.no_duplicates(),
                origins@.to_set() == before.origins.dom(),
                self@.origins.dom().subset_of(before.origins.dom()),
                forall|o: Asn| #[trigger]
                    before.origins.contains_key(o) ==> (if origins@.take(i as int).contains(o)
                        && before.origins[o].paths.len() == 1 {
                        !self@.origins.contains_key(o)
                    } else {
                        self@.origins.contains_key(o) && self@.origins[o] == before.origins[o]
                    }),
            decreases origins.len() - i,
        {
            let origin: Asn = origins[i];
            let ghost now = self@;
            proof {
                lemma_take_step(origins@, i as int);
                assert(origins@.to_set().contains(origin));
                assert(before.origins.contains_key(origin));
            }
            let single = match self.as_paths.get(&origin) {
                Some(e) => {
                    assert(e@ == before.origins[origin]);
                    e.len() == 1
                },
                None => false,
            };
            if single {
                self.as_paths.remove(&origin);
                proof {
                    assert(self@.origins =~= now.origins.remove(origin));
                }
            }
            i += 1;
        }
        proof {
            assert(origins@.take(origins.len() as int) =~= origins@);
            assert(forall|o: Asn| before.origins.contains_key(o) ==> origins@.contains(o)) by {
                assert(forall|o: Asn|
                    before.origins.dom().contains(o) ==> origins@.to_set().contains(o));
            }
            assert(self@.origins =~= before.remove_single_as_paths().origins);
        }
    }

    /// Deletes the single-hop AS paths under every origin, and the origins
    /// that this leaves without any AS path.
    pub fn remove_single_hop_as_paths(&mut self)
        requires
            old(self).wf(),
        ensures
            final(self).wf(),
            final(self)@ == old(self)@.remove_single_hop_as_paths(),
    {
        let origins = self.get_origins();
        let ghost before = self@;
        let mut i: usize = 0;
        while i < origins.len()
            invariant
                0 <= i <= origins.len(),
                before == old(self)@,
                before.wf(),
                self.wf(),
                origins@.no_duplicates(),
                origins@.to_set() == before.origins.dom(),
                self@.origins.dom().subset_of(before.origins.dom()),
                forall|o: Asn| #[trigger]
                    before.origins.contains_key(o) ==> (if origins@.take(i as int).contains(o) {
                        let kept = before.origins[o].remove_single_hop_paths();
                        if kept.paths.len() > 0 {
                            self@.origins.contains_key(o) && self@.origins[o] == kept
                        } else {
                            !self@.origins.contains_key(o)
                        }
                    } else {
                        self@.origins.contains_key(o) && self@.origins[o] == before.origins[o]
                    }),
            decreases origins.len() - i,
        {
            let origin: Asn = origins[i];
            let ghost now = self@;
            proof {
                lemma_take_step(origins@, i as int);
                assert(origins@.to_set().contains(origin));
                assert(before.origins.contains_key(origin));
            }
            match self.as_paths.remove(&origin) {
                Some(e) => {
                    let mut e = e;
                    assert(e@ == before.origins[origin]);
                    e.remove_single_hop_paths();
                    if e.is_empty() {
                        proof {
                            assert(self@.origins =~= now.origins.remove(origin));
                        }
                    } else {
                        self.as_paths.insert(origin, e);
                        proof {
                            assert(self@.origins =~= now.origins.insert(origin, e@));
                        }
                    }
                },
                None => {},
            }
            i += 1;
        }
        proof {
            assert(origins@.take(origins.len() as int) =~= origins@);
            assert(forall|o: Asn| before.origins.contains_key(o) ==> origins@.contains(o)) by {
                assert(forall|o: Asn|
                    before.origins.dom().contains(o) ==> origins@.to_set().contains(o));
            }
            assert(self@.origins =~= before.remove_single_hop_as_paths().origins);
        }
    }

    /// The origins that are reached over at least two AS paths that diverge,
    /// each once, in no particular order.
    pub fn find_origins_with_overlapping_paths(&self) -> (r: Vec<Asn>)
        requires
            self.wf(),
        ensures
            r@.no_duplicates(),
            forall|o: Asn|
                r@.contains(o) <==> self@.origins.contains_key(o)
                    && self@.origins[o].has_diverging_paths(),
    {
        let origins = self.get_origins();
        let mut found: Vec<Asn> = Vec::new();
        let mut i: usize = 0;
        while i < origins.len()
            invariant
                0 <= i <= origins.len(),
                self.wf(),
                origins@.no_duplicates(),
                origins@.to_set() == self@.origins.dom(),
                found@.no_duplicates(),
                forall|o: Asn|
                    found@.contains(o) <==> origins@.take(i as int).contains(o)
                        && self@.origins[o].has_diverging_paths(),
            decreases origins.len() - i,
        {
            let origin: Asn = origins[i];
            proof {
                lemma_take_step(origins@, i as int);
                assert(origins@.to_set().contains(origin));
                assert(self@.origins.contains_key(origin));
            }
            let diverging = match self.as_paths.get(&origin) {
                Some(e) => {
                    assert(e@ == self@.origins[origin]);
                    e.has_overlapping_paths()
                },
                None => false,
            };
            let ghost held = found@;
            let ghost seen = origins@.take(i as int);
            let ghost next = origins@.take(i + 1);
            if diverging {
                found.push(origin);
                proof {
                    assert(!held.contains(origin));
                    assert forall|o: Asn| found@.contains(o) <==> (held.contains(o) || o
                        == origin) by {
                        if held.contains(o) {
                            let k = choose|k: int| 0 <= k < held.len() && held[k] == o;
                            assert(found@[k] == o);
                        }
                        if o == origin {
                            assert(found@[held.len() as int] == o);
                        }
                    }
                }
            }
            proof {
                assert forall|o: Asn|
                    found@.contains(o) <==> next.contains(o)
                        && self@.origins[o].has_diverging_paths() by {
                    assert(next.contains(o) <==> (seen.contains(o) || o == origin));
                    assert(held.contains(o) <==> seen.contains(o)
                        && self@.origins[o].has_diverging_paths());
                }
            }
            i += 1;
        }
        proof {
            assert(origins@.take(origins.len() as int) =~= origins@);
            assert forall|o: Asn| origins@.contains(o) <==> self@.origins.contains_key(o) by {
                assert(origins@.to_set().contains(o) <==> self@.origins.dom().contains(o));
            }
        }
        found
    }
}

impl Default for PathData {
    /// An index without any origin.
    fn default() -> (r: PathData)
        ensures
            r@ == PathDataView::empty(),
            r.wf(),
    {
        PathData::new()
    }
}

impl PartialEq for PathData {
    /// Two indexes are equal when they hold the same origins and under each
    /// an equal entry.
    fn eq(&self, other: &PathData) -> (r: bool) {
        proof {
            assert(self@.origins.dom() =~= self.as_paths@.dom());
            assert(other@.origins.dom() =~= other.as_paths@.dom());
        }
        if self.as_paths.len() != other.as_paths.len() {
            return false;
        }
        let origins = self.get_origins();
        let mut i: usize = 0;
        while i < origins.len()
            invariant
                0 <= i <= origins.len(),
                origins@.to_set() == self@.origins.dom(),
                forall|j: int|
                    0 <= j < i ==> other@.origins.contains_key(#[trigger] origins@[j])
                        && self@.origins[origins@[j]].same_as(other@.origins[origins@[j]]),
            decreases origins.len() - i,
        {
            let origin: Asn = origins[i];
            proof {
                assert(origins@.contains(origin));
                assert(origins@.to_set().contains(origin));
                assert(self@.origins.contains_key(origin));
            }
            let same = match (self.as_paths.get(&origin), other.as_paths.get(&origin)) {
                (Some(mine), Some(theirs)) => {
                    assert(mine@ == self@.origins[origin]);
                    assert(theirs@ == other@.origins[origin]);
                    mine == theirs
                },
                _ => false,
            };
            if !same {
                return false;
            }
            i += 1;
        }
        proof {
            assert forall|o: Asn| #[trigger] self@.origins.contains_key(o) implies other@.origins.contains_key(
                o,
            ) && self@.origins[o].same_as(other@.origins[o]) by {
                assert(origins@.to_set().contains(o));
                let j = choose|j: int| 0 <= j < origins@.len() && origins@[j] == o;
                assert(other@.origins.contains_key(origins@[j]));
            }
            assert(self@.origins.dom().subset_of(other@.origins.dom()));
            vstd::set_lib::lemma_subset_equality(self@.origins.dom(), other@.origins.dom());
        }
        true
    }
}

impl vstd::std_specs::cmp::PartialEqSpecImpl for PathData {
    open spec fn obeys_eq_spec() -> bool {
        true
    }

    open spec fn eq_spec(&self, other: &PathData) -> bool {
        self@.same_as(other@)
    }
}

/// What the first `i + 1` elements of `s` hold is what the first `i` hold,
/// and `s[i]`; which is new where `s` has no duplicates.
proof fn lemma_take_step(s: Seq<Asn>, i: int)
    requires
        0 <= i < s.len(),
    ensures
        forall|o: Asn| #[trigger] s.take(i + 1).contains(o) <==> (s.take(i).contains(o) || o == s[i]),
        s.take(i + 1).to_set() == s.take(i).to_set().insert(s[i]),
        s.no_duplicates() ==> !s.take(i).contains(s[i]),
        s.take(i).to_set().finite(),
        s.contains(s[i]),
{
    let front = s.take(i);
    let next = s.take(i + 1);
    assert forall|o: Asn| #[trigger] next.contains(o) <==> (front.contains(o) || o == s[i]) by {
        if next.contains(o) {
            let k = choose|k: int| 0 <= k < next.len() && #[trigger] next[k] == o;
            if k < i {
                assert(front[k] == o);
            }
        }
        if front.contains(o) {
            let k = choose|k: int| 0 <= k < front.len() && #[trigger] front[k] == o;
            assert(next[k] == o);
        }
        if o == s[i] {
            assert(next[i] == o);
        }
    }
    assert(next.to_set() =~= front.to_set().insert(s[i]));
    if s.no_duplicates() && front.contains(s[i]) {
        let k = choose|k: int| 0 <= k < front.len() && #[trigger] front[k] == s[i];
        assert(s[k] == s[i]);
    }
    vstd::seq_lib::seq_to_set_is_finite(s.take(i));
    assert(s[i] == s[i]);
}

impl PathDataView {
    /// What is filed under an origin, or the empty container that stands in
    /// for it, is well-formed and holds the routes that the index holds
    /// under that origin.
    pub proof fn lemma_entry(self, o: Asn)
        requires
            self.wf(),
        ensures
            self.entry(o).wf(),
            self.entry(o).origin == o,
            forall|k: RouteKey|
                k.as_path.last() == o ==> (#[trigger] self.entry(o).has_key(k) <==> self.has_key(
                    k,
                )),
    {
        if self.origins.contains_key(o) {
            assert(self.origins[o].wf());
        }
    }

    /// Inserting a route keeps the index well-formed, and adds the route's
    /// identity to those present.
    pub proof fn lemma_insert_route(self, r: RouteView)
        requires
            self.wf(),
            r.wf(),
        ensures
            self.insert_route(r).wf(),
            self.insert_route(r).has_route(r),
            self.insert_route(r).route_keys() == self.route_keys().insert(r.key),
    {
        let after = self.insert_route(r);
        let o = r.origin();
        if self.has_route(r) {
            assert(after.route_keys() =~= self.route_keys().insert(r.key));
        } else {
            let base = self.entry(o);
            self.lemma_entry(o);
            base.lemma_add_route_wf(r);
            let fresh = base.add_route(r);
            assert(after.origins.dom() =~= self.origins.dom().insert(o));
            assert forall|x: Asn| #[trigger] after.origins.contains_key(x) implies {
                &&& after.origins[x].wf()
                &&& after.origins[x].origin == x
                &&& after.origins[x].paths.len() > 0
            } by {
                if x != o {
                    assert(self.origins.contains_key(x));
                }
            }
            assert(fresh.has_key(r.key));
            assert forall|k: RouteKey| after.has_key(k) <==> (self.has_key(k) || k == r.key) by {
                if k.as_path.last() == o {
                    assert(fresh.has_key(k) <==> (base.has_key(k) || k == r.key));
                    assert(base.has_key(k) <==> self.has_key(k));
                } else {
                    if self.origins.contains_key(k.as_path.last()) {
                        assert(after.origins[k.as_path.last()] == self.origins[k.as_path.last()]);
                    }
                }
            }
            assert(after.route_keys() =~= self.route_keys().insert(r.key));
        }
    }

    /// Inserting one run of routes and then another is inserting the two
    /// runs joined.
    pub proof fn lemma_insert_routes_concat(self, a: Seq<RouteView>, b: Seq<RouteView>)
        ensures
            self.insert_routes(a + b) == self.insert_routes(a).insert_routes(b),
        decreases b.len(),
    {
        if b.len() == 0 {
            assert(a + b =~= a);
        } else {
            assert((a + b).drop_last() =~= a + b.drop_last());
            assert((a + b).last() == b.last());
            self.lemma_insert_routes_concat(a, b.drop_last());
        }
    }

    /// Merging keeps the index well-formed, and leaves the routes of both
    /// sides present.
    pub proof fn lemma_merge_from(self, other: PathDataView)
        requires
            self.wf(),
            other.wf(),
        ensures
            self.merge_from(other).wf(),
            self.merge_from(other).route_keys() == self.route_keys().union(other.route_keys()),
    {
        let after = self.merge_from(other);
        assert(after.origins.dom() =~= self.origins.dom().union(other.origins.dom()));
        assert forall|o: Asn| #[trigger] after.origins.contains_key(o) implies {
            &&& after.origins[o].wf()
            &&& after.origins[o].origin == o
            &&& after.origins[o].paths.len() > 0
        } by {
            if other.origins.contains_key(o) {
                self.lemma_entry(o);
                assert(other.origins[o].wf());
                self.entry(o).lemma_merge_from_wf(other.origins[o].paths);
                self.entry(o).lemma_merge_from_shape(other.origins[o].paths);
            } else {
                assert(self.origins.contains_key(o));
            }
        }
        assert forall|k: RouteKey| after.has_key(k) <==> (self.has_key(k) || other.has_key(k)) by {
            let o = k.as_path.last();
            if other.origins.contains_key(o) {
                self.lemma_entry(o);
                assert(other.origins[o].wf());
                self.entry(o).lemma_merge_from_keys(other.origins[o].paths, k);
                other.origins[o].lemma_has_key_any(k);
                assert(self.entry(o).has_key(k) <==> self.has_key(k));
            }
        }
        assert(after.route_keys() =~= self.route_keys().union(other.route_keys()));
    }
}

} // verus!
