//! Removal of consecutive duplicate hops, which cancels AS-path prepending
//! and leaves loops in place.

use vstd::prelude::*;
use crate::net::Asn;

verus! {

/// `s` with every run of equal neighbours collapsed to one element.
/// Elements that are equal but not adjacent all stay.
pub open spec fn dedup(s: Seq<Asn>) -> Seq<Asn>
    decreases s.len(),
{
    if s.len() <= 1 {
        s
    } else if s[s.len() - 2] == s.last() {
        dedup(s.drop_last())
    } else {
        dedup(s.drop_last()).push(s.last())
    }
}

/// No element of `s` equals the one before it.
pub open spec fn no_adjacent_dup(s: Seq<Asn>) -> bool {
    forall|i: int| 0 < i < s.len() ==> s[i - 1] != #[trigger] s[i]
}

/// Collapsing runs keeps a sequence non-empty, keeps its last element and
/// never lengthens it.
pub proof fn lemma_dedup_last(s: Seq<Asn>)
    ensures
        dedup(s).len() <= s.len(),
        s.len() > 0 ==> dedup(s).len() > 0 && dedup(s).last() == s.last(),
        s.len() > 0 ==> dedup(s).first() == s.first(),
    decreases s.len(),
{
    if s.len() > 1 {
        lemma_dedup_last(s.drop_last());
    }
}

/// What `dedup` returns has no two equal neighbours.
pub proof fn lemma_dedup_no_adjacent(s: Seq<Asn>)
    ensures
        no_adjacent_dup(dedup(s)),
    decreases s.len(),
{
    if s.len() > 1 {
        lemma_dedup_no_adjacent(s.drop_last());
        lemma_dedup_last(s.drop_last());
    }
}

/// A sequence without equal neighbours is left as it is.
pub proof fn lemma_dedup_fixpoint(s: Seq<Asn>)
    requires
        no_adjacent_dup(s),
    ensures
        dedup(s) == s,
    decreases s.len(),
{
    if s.len() > 1 {
        let front = s.drop_last();
        assert forall|i: int| 0 < i < front.len() implies front[i - 1] != #[trigger] front[i] by {
            assert(s[i - 1] != s[i]);
        }
        lemma_dedup_fixpoint(front);
        assert(s[s.len() - 2] != s[s.len() - 1]);
        assert(front.push(s.last()) =~= s);
    }
}

/// Collapsing runs twice gives what collapsing them once gives.
pub proof fn lemma_dedup_idempotent(s: Seq<Asn>)
    ensures
        dedup(dedup(s)) == dedup(s),
{
    lemma_dedup_no_adjacent(s);
    lemma_dedup_fixpoint(dedup(s));
}

/// A fresh vector holding `path` with its consecutive duplicates removed.
pub fn dedup_path(path: &Vec<Asn>) -> (out: Vec<Asn>)
    ensures
        out@ == dedup(path@),
{
    let mut out: Vec<Asn> = Vec::new();
    let mut i: usize = 0;
    while i < path.len()
        invariant
            0 <= i <= path.len(),
            out@ == dedup(path@.take(i as int)),
        decreases path.len() - i,
    {
        if i == 0 || path[i - 1] != path[i] {
            out.push(path[i]);
        }
        proof {
            assert(path@.take(i + 1).drop_last() =~= path@.take(i as int));
        }
        i += 1;
    }
    proof {
        assert(path@.take(path.len() as int) =~= path@);
    }
    out
}

/// Whether two hop sequences are equal, element by element.
pub fn same_hops(a: &Vec<Asn>, b: &Vec<Asn>) -> (r: bool)
    ensures
        r == (a@ == b@),
{
    if a.len() != b.len() {
        return false;
    }
    let mut i: usize = 0;
    while i < a.len()
        invariant
            0 <= i <= a.len(),
            a.len() == b.len(),
            a@.take(i as int) == b@.take(i as int),
        decreases a.len() - i,
    {
        if a[i] != b[i] {
            return false;
        }
        proof {
            assert(a@.take(i + 1) =~= a@.take(i as int).push(a@[i as int]));
            assert(b@.take(i + 1) =~= b@.take(i as int).push(b@[i as int]));
        }
        i += 1;
    }
    proof {
        assert(a@.take(a.len() as int) =~= a@);
        assert(b@.take(b.len() as int) =~= b@);
    }
    true
}

} // verus!
