//! A list of large community tags for tests.

use vstd::prelude::*;
use crate::net::LargeCommunity;

verus! {

/// The tags that [`get_mock`] returns: `1:1:1`, `2:2:2`, and the given tag
/// (`65535:65535:23456` where none is given).
pub open spec fn mock_tags(large_community: Option<(u32, u32, u32)>) -> Seq<LargeCommunity> {
    seq![
        LargeCommunity::new_spec(1, 1, 1),
        LargeCommunity::new_spec(2, 2, 2),
        match large_community {
            Some(parts) => LargeCommunity::new_spec(parts.0, parts.1, parts.2),
            None => LargeCommunity::new_spec(65535, 65535, 23456),
        },
    ]
}

/// Three large community tags for tests, the last of which is the given
/// one.
pub fn get_mock(large_community: Option<(u32, u32, u32)>) -> (r: Vec<LargeCommunity>)
    ensures
        r@ == mock_tags(large_community),
{
    let mut tags: Vec<LargeCommunity> = Vec::new();
    tags.push(LargeCommunity::new(1, 1, 1));
    tags.push(LargeCommunity::new(2, 2, 2));
    tags.push(LargeCommunity::get_mock(large_community));
    proof {
        assert(tags@ =~= mock_tags(large_community));
    }
    tags
}

} // verus!
