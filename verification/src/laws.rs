//! Laws that relate the operations of the path index to one another.

use vstd::prelude::*;
use crate::as_path::{diverges, shared_at};
use crate::net::Asn;
use crate::path_data::{merge_round, merge_tree, PathDataView};
use crate::route::{RouteKey, RouteView};

verus! {

/// The identities of the routes of `rs`.
pub open spec fn keys_of(rs: Seq<RouteView>) -> Set<RouteKey> {
    Set::new(|k: RouteKey| exists|i: int| 0 <= i < rs.len() && (#[trigger] rs[i]).key == k)
}

/// The identities of all the routes stored in any of `parts`.
pub open spec fn all_route_keys(parts: Seq<PathDataView>) -> Set<RouteKey> {
    Set::new(|k: RouteKey| exists|i: int| 0 <= i < parts.len() && (#[trigger] parts[i]).has_key(k))
}

/// Inserting a route a second time changes nothing.
pub proof fn law_insert_route_idempotent(d: PathDataView, r: RouteView)
    requires
        d.wf(),
        r.wf(),
    ensures
        d.insert_route(r).insert_route(r) == d.insert_route(r),
{
    d.lemma_insert_route(r);
}

/// Inserting routes one by one keeps the index well-formed and leaves
/// exactly the routes that were present and those inserted, whatever their
/// order and however often each occurs.
pub proof fn law_insert_routes(d: PathDataView, rs: Seq<RouteView>)
    requires
        d.wf(),
        forall|i: int| 0 <= i < rs.len() ==> (#[trigger] rs[i]).wf(),
    ensures
        d.insert_routes(rs).wf(),
        d.insert_routes(rs).route_keys() == d.route_keys().union(keys_of(rs)),
    decreases rs.len(),
{
    if rs.len() == 0 {
        assert(d.route_keys().union(keys_of(rs)) =~= d.route_keys());
    } else {
        let front = rs.drop_last();
        assert forall|i: int| 0 <= i < front.len() implies (#[trigger] front[i]).wf() by {
            assert(front[i] == rs[i]);
        }
        law_insert_routes(d, front);
        assert(rs[rs.len() - 1].wf());
        d.insert_routes(front).lemma_insert_route(rs.last());
        assert forall|k: RouteKey| keys_of(rs).contains(k) <==> (keys_of(front).contains(k) || k
            == rs.last().key) by {
            if keys_of(front).contains(k) {
                let i = choose|i: int| 0 <= i < front.len() && (#[trigger] front[i]).key == k;
                assert(rs[i].key == k);
            }
            if k == rs.last().key {
                assert(rs[rs.len() - 1].key == k);
            }
            if keys_of(rs).contains(k) {
                let i = choose|i: int| 0 <= i < rs.len() && (#[trigger] rs[i]).key == k;
                if i < front.len() {
                    assert(front[i].key == k);
                }
            }
        }
        assert(d.insert_routes(rs).route_keys() =~= d.route_keys().union(keys_of(rs)));
    }
}

/// Merging `b` into `a` leaves the same set of routes as inserting every
/// route of `b` into `a`, in any order.
pub proof fn law_merge_is_insertion(a: PathDataView, b: PathDataView, rs: Seq<RouteView>)
    requires
        a.wf(),
        b.wf(),
        forall|i: int| 0 <= i < rs.len() ==> (#[trigger] rs[i]).wf(),
        keys_of(rs) == b.route_keys(),
    ensures
        a.merge_from(b).route_keys() == a.insert_routes(rs).route_keys(),
{
    a.lemma_merge_from(b);
    law_insert_routes(a, rs);
}

/// Which of two indexes takes the other in does not change the set of
/// routes that results.
pub proof fn law_merge_commutes(a: PathDataView, b: PathDataView)
    requires
        a.wf(),
        b.wf(),
    ensures
        a.merge_from(b).route_keys() == b.merge_from(a).route_keys(),
{
    a.lemma_merge_from(b);
    b.lemma_merge_from(a);
    assert(a.route_keys().union(b.route_keys()) =~= b.route_keys().union(a.route_keys()));
}

/// Merging the same index in a second time changes nothing.
pub proof fn law_merge_idempotent(a: PathDataView, b: PathDataView)
    requires
        a.wf(),
        b.wf(),
    ensures
        a.merge_from(b).merge_from(b) == a.merge_from(b),
{
    let once = a.merge_from(b);
    let twice = once.merge_from(b);
    assert forall|o: Asn| #[trigger] twice.origins.contains_key(o) implies twice.origins[o]
        == once.origins[o] by {
        if b.origins.contains_key(o) {
            a.lemma_entry(o);
            assert(b.origins[o].wf());
            a.entry(o).lemma_merge_from_idempotent(b.origins[o].paths);
        }
    }
    assert(twice.origins =~= once.origins);
}

/// Divergence does not depend on which of the two paths is asked.
pub proof fn law_divergence_symmetric(p: Seq<Asn>, q: Seq<Asn>)
    ensures
        diverges(p, q) == diverges(q, p),
{
    if diverges(p, q) {
        let (i, j) = choose|i: int, j: int| #[trigger] shared_at(p, q, i, j) && p.skip(i) != q.skip(j);
        assert(shared_at(q, p, j, i));
    }
    if diverges(q, p) {
        let (j, i) = choose|j: int, i: int| #[trigger] shared_at(q, p, j, i) && q.skip(j) != p.skip(i);
        assert(shared_at(p, q, i, j));
    }
}

/// One round of the pairwise merge keeps every part well-formed and loses
/// no route.
pub proof fn law_merge_round(parts: Seq<PathDataView>)
    requires
        forall|i: int| 0 <= i < parts.len() ==> (#[trigger] parts[i]).wf(),
    ensures
        forall|i: int| 0 <= i < merge_round(parts).len() ==> (#[trigger] merge_round(parts)[i]).wf(),
        all_route_keys(merge_round(parts)) == all_route_keys(parts),
{
    let round = merge_round(parts);
    assert forall|i: int| 0 <= i < round.len() implies (#[trigger] round[i]).wf() by {
        if 2 * i + 1 < parts.len() {
            assert(parts[2 * i].wf());
            assert(parts[2 * i + 1].wf());
            parts[2 * i].lemma_merge_from(parts[2 * i + 1]);
        } else {
            assert(parts[2 * i].wf());
        }
    }
    assert forall|k: RouteKey| all_route_keys(round).contains(k) <==> all_route_keys(
        parts,
    ).contains(k) by {
        if all_route_keys(round).contains(k) {
            let i = choose|i: int| 0 <= i < round.len() && (#[trigger] round[i]).has_key(k);
            if 2 * i + 1 < parts.len() {
                assert(parts[2 * i].wf());
                assert(parts[2 * i + 1].wf());
                parts[2 * i].lemma_merge_from(parts[2 * i + 1]);
                assert(round[i].route_keys().contains(k));
                if parts[2 * i].route_keys().contains(k) {
                    assert(parts[2 * i].has_key(k));
                } else {
                    assert(parts[2 * i + 1].route_keys().contains(k));
                    assert(parts[2 * i + 1].has_key(k));
                }
            } else {
                assert(parts[2 * i].has_key(k));
            }
        }
        if all_route_keys(parts).contains(k) {
            let i = choose|i: int| 0 <= i < parts.len() && (#[trigger] parts[i]).has_key(k);
            let h = i / 2;
            if 2 * h + 1 < parts.len() {
                assert(parts[2 * h].wf());
                assert(parts[2 * h + 1].wf());
                parts[2 * h].lemma_merge_from(parts[2 * h + 1]);
                assert(parts[i].route_keys().contains(k));
                assert(round[h].route_keys().contains(k));
                assert(round[h].has_key(k));
            } else {
                assert(round[h] == parts[i]);
                assert(round[h].has_key(k));
            }
        }
    }
    assert(all_route_keys(round) =~= all_route_keys(parts));
}

/// The pairwise tree merge leaves a well-formed index that holds exactly
/// the routes of its inputs.
pub proof fn law_merge_tree(parts: Seq<PathDataView>)
    requires
        parts.len() > 0,
        forall|i: int| 0 <= i < parts.len() ==> (#[trigger] parts[i]).wf(),
    ensures
        merge_tree(parts).wf(),
        merge_tree(parts).route_keys() == all_route_keys(parts),
    decreases parts.len(),
{
    if parts.len() == 1 {
        assert(parts[0].wf());
        assert forall|k: RouteKey| all_route_keys(parts).contains(k) <==> parts[0].has_key(k) by {
            if parts[0].has_key(k) {
                assert(parts[0].has_key(k));
            }
        }
        assert(merge_tree(parts).route_keys() =~= all_route_keys(parts));
    } else {
        law_merge_round(parts);
        law_merge_tree(merge_round(parts));
    }
}

/// The outcome of the tree merge does not depend on how the routes are
/// spread over the inputs, nor on the order of the inputs: inputs that hold
/// the same routes overall leave the same routes.
pub proof fn law_merge_tree_order(x: Seq<PathDataView>, y: Seq<PathDataView>)
    requires
        x.len() > 0,
        y.len() > 0,
        forall|i: int| 0 <= i < x.len() ==> (#[trigger] x[i]).wf(),
        forall|i: int| 0 <= i < y.len() ==> (#[trigger] y[i]).wf(),
        all_route_keys(x) == all_route_keys(y),
    ensures
        merge_tree(x).route_keys() == merge_tree(y).route_keys(),
{
    law_merge_tree(x);
    law_merge_tree(y);
}

} // verus!
