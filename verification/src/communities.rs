//! A list of community tags for tests.

use vstd::prelude::*;
use crate::net::{Asn, Community, MOCK_ASN};

verus! {

/// The tags that [`get_mock`] returns: `1:1`, `2:2`, and the given tag
/// (`65535:23456` where none is given).
pub open spec fn mock_tags(community: Option<(Asn, u16)>) -> Seq<Community> {
    seq![
        Community::Custom(1, 1),
        Community::Custom(2, 2),
        match community {
            Some(parts) => Community::Custom(parts.0, parts.1),
            None => Community::Custom(MOCK_ASN, 23456),
        },
    ]
}

/// Three community tags for tests, the last of which is the given one.
pub fn get_mock(community: Option<(Asn, u16)>) -> (r: Vec<Community>)
    ensures
        r@ == mock_tags(community),
{
    let mut tags: Vec<Community> = Vec::new();
    tags.push(Community::Custom(1, 1));
    tags.push(Community::Custom(2, 2));
    tags.push(Community::get_mock(community));
    proof {
        assert(tags@ =~= mock_tags(community));
    }
    tags
}

} // verus!
