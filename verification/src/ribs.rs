//! Naming of the RIB files that a day's download yields.

use vstd::prelude::*;
use vstd::string::{StrSliceExecFns, StringExecFns};

verus! {

/// A RIB file to fetch: where it lies, and the name it is stored under.
#[derive(Debug)]
pub struct RibFile {
    pub url: String,
    pub filename: String,
}

/// Whether `text` begins with `prefix`.
pub open spec fn starts_with(text: Seq<char>, prefix: Seq<char>) -> bool {
    prefix.len() <= text.len() && text.subrange(0, prefix.len() as int) == prefix
}

/// The place behind the last `/` of `url`; 0 where it has none.
pub open spec fn basename_start(url: Seq<char>) -> int
    decreases url.len(),
{
    if url.len() == 0 {
        0
    } else if url.last() == '/' {
        url.len() as int
    } else {
        basename_start(url.drop_last())
    }
}

/// What follows the last `/` of `url`: all of it where it has none.
pub open spec fn basename(url: Seq<char>) -> Seq<char> {
    url.subrange(basename_start(url), url.len() as int)
}

/// The project that runs a collector: RIPE RIS names its collectors `rrc..`,
/// all others belong to Route Views.
pub open spec fn collector_source(collector_id: Seq<char>) -> Seq<char> {
    if starts_with(collector_id, "rrc"@) {
        "ris"@
    } else {
        "route-views"@
    }
}

/// The name a RIB file is stored under: the collector and the file's own
/// name, joined by a dot, behind the project's name where the collector's
/// does not begin with it.
pub open spec fn rib_filename(collector_id: Seq<char>, url: Seq<char>) -> Seq<char> {
    let source = collector_source(collector_id);
    if starts_with(collector_id, source) {
        collector_id + "."@ + basename(url)
    } else {
        source + "."@ + collector_id + "."@ + basename(url)
    }
}

/// Whether `text` begins with `prefix`.
pub fn text_starts_with(text: &str, prefix: &str) -> (r: bool)
    ensures
        r == starts_with(text@, prefix@),
{
    let n = prefix.unicode_len();
    if n > text.unicode_len() {
        return false;
    }
    let mut i: usize = 0;
    while i < n
        invariant
            0 <= i <= n,
            n == prefix@.len(),
            n <= text@.len(),
            forall|j: int| 0 <= j < i ==> text@[j] == prefix@[j],
        decreases n - i,
    {
        if text.get_char(i) != prefix.get_char(i) {
            proof {
                assert(text@.subrange(0, n as int)[i as int] != prefix@[i as int]);
            }
            return false;
        }
        i += 1;
    }
    proof {
        assert(text@.subrange(0, n as int) =~= prefix@);
    }
    true
}

/// What follows the last `/` of `url`: all of it where it has none.
pub fn url_basename(url: &str) -> (r: &str)
    ensures
        r@ == basename(url@),
{
    let n = url.unicode_len();
    let mut start: usize = 0;
    let mut i: usize = 0;
    while i < n
        invariant
            0 <= i <= n,
            n == url@.len(),
            start == basename_start(url@.take(i as int)),
            start <= i,
        decreases n - i,
    {
        proof {
            assert(url@.take(i + 1).drop_last() =~= url@.take(i as int));
        }
        if url.get_char(i) == '/' {
            start = i + 1;
        }
        i += 1;
    }
    proof {
        assert(url@.take(n as int) =~= url@);
    }
    url.substring_char(start, n)
}

impl RibFile {
    /// The RIB file that collector `collector_id` offers at `url`, with the
    /// name it is stored under.
    pub fn new(url: String, collector_id: &str) -> (r: RibFile)
        ensures
            r.url@ == url@,
            r.filename@ == rib_filename(collector_id@, url@),
    {
        let source: &str = if text_starts_with(collector_id, "rrc") {
            "ris"
        } else {
            "route-views"
        };
        let mut filename = String::new();
        if !text_starts_with(collector_id, source) {
            filename.append(source);
            filename.append(".");
        }
        filename.append(collector_id);
        filename.append(".");
        filename.append(url_basename(url.as_str()));
        proof {
            assert(filename@ =~= rib_filename(collector_id@, url@));
        }
        RibFile { url, filename }
    }
}

} // verus!
