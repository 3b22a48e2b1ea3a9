//! The parser driver: folds the records of one MRT table dump into a
//! [`PathData`].
//!
//! The records come decoded; reading the file is the caller's part. The
//! first record must be the peer-index table, every later one a unicast RIB
//! record. Each RIB entry yields one route per candidate origin.

use vstd::prelude::*;
use std::collections::HashMap;
use crate::error::PathError;
use crate::net::{Asn, Community, IpAddress, LargeCommunity, Peer, Prefix};
use crate::path_data::{PathData, PathDataView};
use crate::route::{Route, RouteKey, RouteView};

verus! {

broadcast use vstd::std_specs::hash::group_hash_axioms;

/// The subtypes of a table-dump record.
#[derive(Clone, Copy, Debug, PartialEq, Eq, Structural)]
pub enum TableDumpType {
    PeerIndexTable,
    RibIpv4Unicast,
    RibIpv4Multicast,
    RibIpv6Unicast,
    RibIpv6Multicast,
    RibGeneric,
    GeoPeerTable,
    RibIpv4UnicastAddPath,
    RibIpv4MulticastAddPath,
    RibIpv6UnicastAddPath,
    RibIpv6MulticastAddPath,
    RibGenericAddPath,
}

impl TableDumpType {
    /// Whether RIB records of this subtype are read: the unicast tables of
    /// either address family, with or without path identifiers.
    pub open spec fn spec_is_unicast_rib(self) -> bool {
        self == TableDumpType::RibIpv4Unicast || self == TableDumpType::RibIpv4UnicastAddPath
            || self == TableDumpType::RibIpv6Unicast || self
            == TableDumpType::RibIpv6UnicastAddPath
    }

    /// Whether RIB records of this subtype are read.
    #[verifier::when_used_as_spec(spec_is_unicast_rib)]
    pub fn is_unicast_rib(self) -> (r: bool)
        ensures
            r == self.spec_is_unicast_rib(),
    {
        match self {
            TableDumpType::RibIpv4Unicast => true,
            TableDumpType::RibIpv4UnicastAddPath => true,
            TableDumpType::RibIpv6Unicast => true,
            TableDumpType::RibIpv6UnicastAddPath => true,
            _ => false,
        }
    }
}

/// One segment of an AS_PATH attribute.
#[derive(Debug)]
pub enum PathSegment {
    AsSequence(Vec<Asn>),
    AsSet(Vec<Asn>),
    ConfedSequence(Vec<Asn>),
    ConfedSet(Vec<Asn>),
}

/// The next hop that an MP_REACH_NLRI attribute carries: one address, or
/// the two IPv6 addresses of a global and link-local pair in wire order.
#[derive(Clone, Copy, Debug)]
pub enum MpNextHop {
    Single(IpAddress),
    Pair(u128, u128),
}

/// What the logic reads of an MP_REACH_NLRI attribute.
#[derive(Clone, Copy, Debug)]
pub struct MpReach {
    /// Whether the attribute announces IPv6 reachability.
    pub is_ipv6: bool,
    pub next_hop: Option<MpNextHop>,
}

/// What the logic reads of one RIB entry. An attribute that the entry lacks
/// is `None`.
#[derive(Debug)]
pub struct RibEntry {
    pub peer_index: u16,
    /// The segments of the AS_PATH attribute.
    pub as_path: Option<Vec<PathSegment>>,
    /// The NEXT_HOP attribute.
    pub next_hop: Option<IpAddress>,
    /// The MP_REACH_NLRI attribute.
    pub mp_reach: Option<MpReach>,
    /// The COMMUNITIES attribute.
    pub communities: Option<Vec<Community>>,
    /// The LARGE_COMMUNITIES attribute.
    pub large_communities: Option<Vec<LargeCommunity>>,
}

/// A RIB record: the entries that the peers hold for one prefix.
#[derive(Debug)]
pub struct RibAfiEntries {
    pub rib_type: TableDumpType,
    pub prefix: Prefix,
    pub rib_entries: Vec<RibEntry>,
}

/// One decoded record of an MRT file.
#[derive(Debug)]
pub enum MrtRecord {
    /// The peer-index table: each peer with the index that RIB entries name
    /// it by.
    PeerIndexTable(Vec<(u16, Peer)>),
    /// A RIB record of one address family.
    RibAfi(RibAfiEntries),
    /// Any other kind of record.
    Other,
    /// A record that the decoder reported as ill-formed.
    Malformed,
}

/// Whether an IPv6 address is a unicast link-local one (`fe80::/10`).
pub open spec fn spec_is_link_local(bits: u128) -> bool {
    bits >> 118 == 0x3fa
}

/// Whether an IPv6 address is a unicast link-local one (`fe80::/10`).
#[verifier::when_used_as_spec(spec_is_link_local)]
pub fn is_link_local(bits: u128) -> (r: bool)
    ensures
        r == spec_is_link_local(bits),
{
    bits >> 118 == 0x3fa
}

impl MpNextHop {
    /// The global-scope address: of a pair the second only where the first
    /// is link-local and the second is not, else the first.
    pub open spec fn spec_global_addr(self) -> IpAddress {
        match self {
            MpNextHop::Single(addr) => addr,
            MpNextHop::Pair(first, second) => if spec_is_link_local(first) && !spec_is_link_local(
                second,
            ) {
                IpAddress::V6(second)
            } else {
                IpAddress::V6(first)
            },
        }
    }

    /// The global-scope address of the next hop.
    #[verifier::when_used_as_spec(spec_global_addr)]
    pub fn global_addr(self) -> (r: IpAddress)
        ensures
            r == self.spec_global_addr(),
    {
        match self {
            MpNextHop::Single(addr) => addr,
            MpNextHop::Pair(first, second) => if is_link_local(first) && !is_link_local(second) {
                IpAddress::V6(second)
            } else {
                IpAddress::V6(first)
            },
        }
    }
}

/// The peers of a peer-index table by their index. Where an index occurs
/// twice, the later peer stands.
pub open spec fn peer_map(table: Seq<(u16, Peer)>) -> Map<u16, Peer>
    decreases table.len(),
{
    if table.len() == 0 {
        Map::empty()
    } else {
        peer_map(table.drop_last()).insert(table.last().0, table.last().1)
    }
}

/// The peers of a peer-index table by their index.
pub fn index_peers(table: &Vec<(u16, Peer)>) -> (r: HashMap<u16, Peer>)
    ensures
        r@ == peer_map(table@),
{
    let mut peers: HashMap<u16, Peer> = HashMap::new();
    let mut i: usize = 0;
    while i < table.len()
        invariant
            0 <= i <= table.len(),
            peers@ == peer_map(table@.take(i as int)),
        decreases table.len() - i,
    {
        proof {
            assert(table@.take(i + 1).drop_last() =~= table@.take(i as int));
        }
        peers.insert(table[i].0, table[i].1);
        i += 1;
    }
    proof {
        assert(table@.take(table.len() as int) =~= table@);
    }
    peers
}

/// The last AS_SEQUENCE and the last AS_SET among `segments`, each empty
/// where there is none. A confederation segment makes the path ill-formed.
pub open spec fn split_segments(segments: Seq<PathSegment>) -> Result<
    (Seq<Asn>, Seq<Asn>),
    PathError,
>
    decreases segments.len(),
{
    if segments.len() == 0 {
        Ok((Seq::empty(), Seq::empty()))
    } else {
        match split_segments(segments.drop_last()) {
            Err(e) => Err(e),
            Ok((sequence, set)) => match segments.last() {
                PathSegment::AsSequence(asns) => Ok((asns@, set)),
                PathSegment::AsSet(asns) => Ok((sequence, asns@)),
                _ => Err(PathError::MalformedMrt),
            },
        }
    }
}

/// The last AS_SEQUENCE and the last AS_SET among `segments`, each empty
/// where there is none. A confederation segment is refused.
pub fn split_path_segments(segments: &Vec<PathSegment>) -> (r: Result<
    (Vec<Asn>, Vec<Asn>),
    PathError,
>)
    ensures
        match split_segments(segments@) {
            Ok((sequence, set)) => r is Ok && r->Ok_0.0@ == sequence && r->Ok_0.1@ == set,
            Err(e) => r is Err && r->Err_0 == e,
        },
{
    let mut sequence: Vec<Asn> = Vec::new();
    let mut set: Vec<Asn> = Vec::new();
    let mut i: usize = 0;
    while i < segments.len()
        invariant
            0 <= i <= segments.len(),
            split_segments(segments@.take(i as int)) == Ok::<(Seq<Asn>, Seq<Asn>), PathError>(
                (sequence@, set@),
            ),
        decreases segments.len() - i,
    {
        proof {
            assert(segments@.take(i + 1).drop_last() =~= segments@.take(i as int));
            assert(segments@.take(i + 1).last() == segments@[i as int]);
        }
        match &segments[i] {
            PathSegment::AsSequence(asns) => {
                sequence = asns.clone();
                proof {
                    assert(sequence@ =~= asns@);
                }
            },
            PathSegment::AsSet(asns) => {
                set = asns.clone();
                proof {
                    assert(set@ =~= asns@);
                }
            },
            _ => {
                proof {
                    lemma_split_segments_error(segments@, i + 1);
                }
                return Err(PathError::MalformedMrt);
            },
        }
        i += 1;
    }
    proof {
        assert(segments@.take(segments.len() as int) =~= segments@);
    }
    Ok((sequence, set))
}

/// The AS paths that one entry stands for. An AS_SET comes from route
/// aggregation, and each of its members is a candidate origin: there is one
/// path per member, the sequence followed by that member. Without a set
/// the sequence alone is the path; and where both are empty there is none.
pub open spec fn expand_as_path(sequence: Seq<Asn>, set: Seq<Asn>) -> Seq<Seq<Asn>> {
    if set.len() > 0 {
        Seq::new(set.len(), |i: int| sequence.push(set[i]))
    } else if sequence.len() > 0 {
        seq![sequence]
    } else {
        Seq::empty()
    }
}

/// The AS paths that an entry with this AS_SEQUENCE and this AS_SET stands
/// for: one per member of the set, or the sequence alone, or none.
pub fn candidate_as_paths(sequence: &Vec<Asn>, set: &Vec<Asn>) -> (r: Vec<Vec<Asn>>)
    ensures
        r@.map_values(|p: Vec<Asn>| p@) == expand_as_path(sequence@, set@),
{
    let mut paths: Vec<Vec<Asn>> = Vec::new();
    if set.len() > 0 {
        let mut i: usize = 0;
        while i < set.len()
            invariant
                0 <= i <= set.len(),
                paths@.len() == i,
                forall|j: int| 0 <= j < i ==> (#[trigger] paths@[j])@ == sequence@.push(set@[j]),
            decreases set.len() - i,
        {
            let mut path = sequence.clone();
            path.push(set[i]);
            proof {
                assert(path@ =~= sequence@.push(set@[i as int]));
            }
            paths.push(path);
            i += 1;
        }
    } else if sequence.len() > 0 {
        let path = sequence.clone();
        proof {
            assert(path@ =~= sequence@);
        }
        paths.push(path);
    }
    proof {
        assert(paths@.map_values(|p: Vec<Asn>| p@) =~= expand_as_path(sequence@, set@));
    }
    paths
}

impl RibEntry {
    /// The next hop of the entry: the global address of an IPv6 MP_REACH_NLRI
    /// where there is one, else the NEXT_HOP attribute.
    pub open spec fn resolve_next_hop(self) -> Result<IpAddress, PathError> {
        match self.mp_reach {
            Some(MpReach { is_ipv6: true, next_hop: Some(hop) }) => Ok(hop.spec_global_addr()),
            _ => match self.next_hop {
                Some(addr) => Ok(addr),
                None => Err(PathError::MissingAttribute),
            },
        }
    }

    /// The next hop of the entry: the global address of an IPv6 MP_REACH_NLRI
    /// where there is one, else the NEXT_HOP attribute. An entry with
    /// neither lacks a required attribute.
    pub fn next_hop_addr(&self) -> (r: Result<IpAddress, PathError>)
        ensures
            r == self.resolve_next_hop(),
    {
        match self.mp_reach {
            Some(MpReach { is_ipv6: true, next_hop: Some(hop) }) => Ok(hop.global_addr()),
            _ => match self.next_hop {
                Some(addr) => Ok(addr),
                None => Err(PathError::MissingAttribute),
            },
        }
    }

    /// The community tags of the entry; none where the attribute is absent.
    pub open spec fn community_tags(self) -> Seq<Community> {
        match self.communities {
            Some(tags) => tags@,
            None => Seq::empty(),
        }
    }

    /// The large community tags of the entry; none where the attribute is
    /// absent.
    pub open spec fn large_community_tags(self) -> Seq<LargeCommunity> {
        match self.large_communities {
            Some(tags) => tags@,
            None => Seq::empty(),
        }
    }

    /// The routes that the entry contributes for `prefix`, in the order of
    /// its candidate origins; or the reason why the entry cannot be read.
    pub open spec fn routes(
        self,
        filename: Seq<char>,
        peers: Map<u16, Peer>,
        prefix: Prefix,
    ) -> Result<Seq<RouteView>, PathError> {
        if self.as_path is None {
            Err(PathError::MissingAttribute)
        } else {
            match self.resolve_next_hop() {
                Err(e) => Err(e),
                Ok(next_hop) => match split_segments(self.as_path->Some_0@) {
                    Err(e) => Err(e),
                    Ok((sequence, set)) => {
                        let paths = expand_as_path(sequence, set);
                        if paths.len() == 0 {
                            Ok(Seq::empty())
                        } else if !peers.contains_key(self.peer_index) {
                            Err(PathError::MalformedMrt)
                        } else {
                            Ok(
                                Seq::new(
                                    paths.len(),
                                    |i: int|
                                        RouteView {
                                            key: RouteKey {
                                                as_path: paths[i],
                                                filename,
                                                next_hop,
                                                peer: peers[self.peer_index],
                                                prefix,
                                            },
                                            communities: self.community_tags(),
                                            large_communities: self.large_community_tags(),
                                        },
                                ),
                            )
                        }
                    },
                },
            }
        }
    }
}

/// The routes that `entries` contribute for `prefix`, entry by entry; or the
/// reason why the first unreadable entry cannot be read.
pub open spec fn entries_routes(
    entries: Seq<RibEntry>,
    filename: Seq<char>,
    peers: Map<u16, Peer>,
    prefix: Prefix,
) -> Result<Seq<RouteView>, PathError>
    decreases entries.len(),
{
    if entries.len() == 0 {
        Ok(Seq::empty())
    } else {
        match entries_routes(entries.drop_last(), filename, peers, prefix) {
            Err(e) => Err(e),
            Ok(front) => match entries.last().routes(filename, peers, prefix) {
                Err(e) => Err(e),
                Ok(routes) => Ok(front + routes),
            },
        }
    }
}

impl RibAfiEntries {
    /// The routes that the record contributes: none for a default route,
    /// else those of its entries. A record of another table than the
    /// unicast ones is not expected.
    pub open spec fn routes(self, filename: Seq<char>, peers: Map<u16, Peer>) -> Result<
        Seq<RouteView>,
        PathError,
    > {
        if !self.rib_type.spec_is_unicast_rib() {
            Err(PathError::UnexpectedRecordType)
        } else if self.prefix.spec_is_default_route() {
            Ok(Seq::empty())
        } else {
            entries_routes(self.rib_entries@, filename, peers, self.prefix)
        }
    }
}

/// The mathematical value of a [`RibParser`]: the file it reads, the peer
/// table once it was seen, and the routes gathered so far.
pub ghost struct RibParserView {
    pub filename: Seq<char>,
    pub peers: Option<Map<u16, Peer>>,
    pub paths: PathDataView,
}

impl RibParserView {
    /// The parser before the first record.
    pub open spec fn start(filename: Seq<char>) -> RibParserView {
        RibParserView { filename, peers: None, paths: PathDataView::empty() }
    }

    /// The parser after `record`, or the reason why the file is given up.
    /// The first record must be the peer-index table, and no other may be;
    /// every other record must be a unicast RIB record, whose routes are
    /// inserted.
    pub open spec fn step(self, record: MrtRecord) -> Result<RibParserView, PathError> {
        match record {
            MrtRecord::Malformed => Err(PathError::MalformedMrt),
            MrtRecord::Other => Err(PathError::UnexpectedRecordType),
            MrtRecord::PeerIndexTable(table) => if self.peers is None {
                Ok(
                    RibParserView {
                        filename: self.filename,
                        peers: Some(peer_map(table@)),
                        paths: self.paths,
                    },
                )
            } else {
                Err(PathError::UnexpectedRecordType)
            },
            MrtRecord::RibAfi(table) => if self.peers is None {
                Err(PathError::UnexpectedRecordType)
            } else {
                match table.routes(self.filename, self.peers->Some_0) {
                    Err(e) => Err(e),
                    Ok(routes) => Ok(
                        RibParserView {
                            filename: self.filename,
                            peers: self.peers,
                            paths: self.paths.insert_routes(routes),
                        },
                    ),
                }
            },
        }
    }

    /// The parser after the records of `records`, first to last, or the
    /// reason why the first offending record made it give up.
    pub open spec fn run(self, records: Seq<MrtRecord>) -> Result<RibParserView, PathError>
        decreases records.len(),
    {
        if records.len() == 0 {
            Ok(self)
        } else {
            match self.run(records.drop_last()) {
                Err(e) => Err(e),
                Ok(state) => state.step(records.last()),
            }
        }
    }

    /// What the parser hands over at the end of the file. A file without
    /// peer-index table is ill-formed.
    pub open spec fn finish(self) -> Result<PathDataView, PathError> {
        if self.peers is None {
            Err(PathError::MalformedMrt)
        } else {
            Ok(self.paths)
        }
    }
}

/// The result of parsing a whole file.
pub open spec fn parse_records(filename: Seq<char>, records: Seq<MrtRecord>) -> Result<
    PathDataView,
    PathError,
> {
    match RibParserView::start(filename).run(records) {
        Err(e) => Err(e),
        Ok(state) => state.finish(),
    }
}

/// The state of one worker while it reads one MRT file. The caller reads
/// and decodes the file and hands the records over one by one; the parser
/// decides what each record means.
pub struct RibParser {
    filename: String,
    peers: Option<HashMap<u16, Peer>>,
    paths: PathData,
}

impl View for RibParser {
    type V = RibParserView;

    closed spec fn view(&self) -> RibParserView {
        RibParserView {
            filename: self.filename@,
            peers: match self.peers {
                Some(peers) => Some(peers@),
                None => None,
            },
            paths: self.paths@,
        }
    }
}

impl RibParser {
    /// The invariant of the type: the routes gathered so far form a
    /// well-formed index.
    pub open spec fn wf(&self) -> bool {
        self@.paths.wf()
    }

    /// A parser for the file `filename`, before its first record.
    pub fn new(filename: String) -> (r: RibParser)
        ensures
            r@ == RibParserView::start(filename@),
            r.wf(),
    {
        RibParser { filename, peers: None, paths: PathData::new() }
    }

    /// Takes in the next record of the file. On an error the parser is
    /// gone, and with it what it had gathered: a file is read whole or not
    /// at all.
    pub fn consume(self, record: &MrtRecord) -> (r: Result<RibParser, PathError>)
        requires
            self.wf(),
        ensures
            match self@.step(*record) {
                Ok(state) => r is Ok && r->Ok_0@ == state && r->Ok_0.wf(),
                Err(e) => r is Err && r->Err_0 == e,
            },
    {
        let mut parser = self;
        match record {
            MrtRecord::Malformed => Err(PathError::MalformedMrt),
            MrtRecord::Other => Err(PathError::UnexpectedRecordType),
            MrtRecord::PeerIndexTable(table) => {
                if parser.peers.is_some() {
                    return Err(PathError::UnexpectedRecordType);
                }
                parser.peers = Some(index_peers(table));
                Ok(parser)
            },
            MrtRecord::RibAfi(table) => {
                let peers = match &parser.peers {
                    Some(peers) => peers,
                    None => {
                        return Err(PathError::UnexpectedRecordType);
                    },
                };
                if !table.rib_type.is_unicast_rib() {
                    return Err(PathError::UnexpectedRecordType);
                }
                if table.prefix.is_default_route() {
                    proof {
                        assert(parser@.paths.insert_routes(Seq::empty()) == parser@.paths);
                    }
                    return Ok(parser);
                }
                let ghost before = parser@.paths;
                let ghost name = parser.filename@;
                let ghost known = peers@;
                let ghost mut done: Seq<RouteView> = Seq::empty();
                let mut i: usize = 0;
                while i < table.rib_entries.len()
                    invariant
                        0 <= i <= table.rib_entries.len(),
                        parser.paths.wf(),
                        parser.filename@ == name,
                        *record == MrtRecord::RibAfi(*table),
                        self@.filename == name,
                        self@.peers == Some(known),
                        table.rib_type.spec_is_unicast_rib(),
                        !table.prefix.spec_is_default_route(),
                        parser.peers == self.peers,
                        self.peers == Some(*peers),
                        peers@ == known,
                        entries_routes(
                            table.rib_entries@.take(i as int),
                            name,
                            known,
                            table.prefix,
                        ) == Ok::<Seq<RouteView>, PathError>(done),
                        parser.paths@ == before.insert_routes(done),
                    decreases table.rib_entries.len() - i,
                {
                    proof {
                        assert(table.rib_entries@.take(i + 1).drop_last()
                            =~= table.rib_entries@.take(i as int));
                        assert(table.rib_entries@.take(i + 1).last()
                            == table.rib_entries@[i as int]);
                    }
                    let ghost entry_routes = table.rib_entries@[i as int].routes(
                        name,
                        known,
                        table.prefix,
                    );
                    match insert_entry(
                        &mut parser.paths,
                        &parser.filename,
                        peers,
                        table.prefix,
                        &table.rib_entries[i],
                    ) {
                        Ok(()) => {
                            proof {
                                before.lemma_insert_routes_concat(done, entry_routes->Ok_0);
                                done = done + entry_routes->Ok_0;
                            }
                        },
                        Err(e) => {
                            proof {
                                assert(entries_routes(
                                    table.rib_entries@.take(i + 1),
                                    name,
                                    known,
                                    table.prefix,
                                ) == Err::<Seq<RouteView>, PathError>(e));
                                lemma_entries_routes_error(
                                    table.rib_entries@,
                                    i + 1,
                                    name,
                                    known,
                                    table.prefix,
                                );
                                assert(self@.peers == Some(known));
                                assert(self@.filename == name);
                                assert(table.routes(name, known) == Err::<
                                    Seq<RouteView>,
                                    PathError,
                                >(e));
                            }
                            return Err(e);
                        },
                    }
                    i += 1;
                }
                proof {
                    assert(table.rib_entries@.take(table.rib_entries.len() as int)
                        =~= table.rib_entries@);
                }
                Ok(parser)
            },
        }
    }

    /// Hands over what was gathered. A file that held no peer-index table is
    /// ill-formed.
    pub fn finish(self) -> (r: Result<PathData, PathError>)
        requires
            self.wf(),
        ensures
            match self@.finish() {
                Ok(paths) => r is Ok && r->Ok_0@ == paths && r->Ok_0.wf(),
                Err(e) => r is Err && r->Err_0 == e,
            },
    {
        if self.peers.is_none() {
            return Err(PathError::MalformedMrt);
        }
        Ok(self.paths)
    }
}

/// Inserts the routes of one entry, first to last. An entry that cannot be
/// read leaves the index as it is.
fn insert_entry(
    paths: &mut PathData,
    filename: &String,
    peers: &HashMap<u16, Peer>,
    prefix: Prefix,
    entry: &RibEntry,
) -> (r: Result<(), PathError>)
    requires
        old(paths).wf(),
    ensures
        final(paths).wf(),
        match entry.routes(filename@, peers@, prefix) {
            Ok(routes) => r is Ok && final(paths)@ == old(paths)@.insert_routes(routes),
            Err(e) => r == Err::<(), PathError>(e) && final(paths)@ == old(paths)@,
        },
{
    let segments = match &entry.as_path {
        Some(segments) => segments,
        None => {
            return Err(PathError::MissingAttribute);
        },
    };
    let next_hop = match entry.next_hop_addr() {
        Ok(addr) => addr,
        Err(e) => {
            return Err(e);
        },
    };
    let (sequence, set) = match split_path_segments(segments) {
        Ok(parts) => parts,
        Err(e) => {
            return Err(e);
        },
    };
    let as_paths = candidate_as_paths(&sequence, &set);
    if as_paths.len() == 0 {
        return Ok(());
    }
    let peer: Peer = match peers.get(&entry.peer_index) {
        Some(peer) => *peer,
        None => {
            return Err(PathError::MalformedMrt);
        },
    };
    let ghost routes = entry.routes(filename@, peers@, prefix)->Ok_0;
    let ghost expanded = expand_as_path(sequence@, set@);
    let mut i: usize = 0;
    while i < as_paths.len()
        invariant
            0 <= i <= as_paths.len(),
            paths.wf(),
            as_paths@.map_values(|p: Vec<Asn>| p@) == expanded,
            expanded == expand_as_path(sequence@, set@),
            routes.len() == expanded.len(),
            forall|j: int|
                0 <= j < routes.len() ==> #[trigger] routes[j] == (RouteView {
                    key: RouteKey {
                        as_path: expanded[j],
                        filename: filename@,
                        next_hop,
                        peer,
                        prefix,
                    },
                    communities: entry.community_tags(),
                    large_communities: entry.large_community_tags(),
                }),
            paths@ == old(paths)@.insert_routes(routes.take(i as int)),
        decreases as_paths.len() - i,
    {
        let communities: Vec<Community> = match &entry.communities {
            Some(tags) => tags.clone(),
            None => Vec::new(),
        };
        let large_communities: Vec<LargeCommunity> = match &entry.large_communities {
            Some(tags) => tags.clone(),
            None => Vec::new(),
        };
        let as_path = as_paths[i].clone();
        proof {
            assert(expanded[i as int] == as_paths@[i as int]@);
            assert(as_path@ =~= expanded[i as int]);
            assert(as_path@.len() > 0);
            assert(communities@ =~= entry.community_tags());
            assert(large_communities@ =~= entry.large_community_tags());
            assert(routes.take(i + 1).drop_last() =~= routes.take(i as int));
            assert(routes.take(i + 1).last() == routes[i as int]);
        }
        let route = match Route::new(
            as_path,
            filename.clone(),
            next_hop,
            peer,
            prefix,
            communities,
            large_communities,
        ) {
            Ok(route) => route,
            Err(_) => vstd::pervasive::unreached(),
        };
        paths.insert_route(route);
        i += 1;
    }
    proof {
        assert(routes.take(as_paths.len() as int) =~= routes);
    }
    Ok(())
}

/// Parses one MRT file from its decoded records: the peer-index table
/// first, then the RIB records, whose routes are folded into a fresh
/// [`PathData`]. The first record that is not as expected ends the parse
/// with its error, and nothing is salvaged.
pub fn parse_rib(filename: String, records: &Vec<MrtRecord>) -> (r: Result<PathData, PathError>)
    ensures
        match parse_records(filename@, records@) {
            Ok(paths) => r is Ok && r->Ok_0@ == paths && r->Ok_0.wf(),
            Err(e) => r is Err && r->Err_0 == e,
        },
{
    let ghost start = RibParserView::start(filename@);
    let mut parser = RibParser::new(filename);
    let mut i: usize = 0;
    while i < records.len()
        invariant
            0 <= i <= records.len(),
            parser.wf(),
            start == RibParserView::start(filename@),
            start.run(records@.take(i as int)) == Ok::<RibParserView, PathError>(parser@),
        decreases records.len() - i,
    {
        proof {
            assert(records@.take(i + 1).drop_last() =~= records@.take(i as int));
            assert(records@.take(i + 1).last() == records@[i as int]);
        }
        let ghost state = parser@;
        parser = match parser.consume(&records[i]) {
            Ok(next) => next,
            Err(e) => {
                proof {
                    assert(state.step(records@[i as int]) == Err::<RibParserView, PathError>(e));
                    assert(start.run(records@.take(i + 1)) == Err::<RibParserView, PathError>(e));
                    lemma_run_error(start, records@, i + 1);
                }
                return Err(e);
            },
        };
        i += 1;
    }
    proof {
        assert(records@.take(records.len() as int) =~= records@);
    }
    parser.finish()
}

/// Once a part of the segments is refused, the whole is, for the same
/// reason.
proof fn lemma_split_segments_error(segments: Seq<PathSegment>, n: int)
    requires
        0 <= n <= segments.len(),
        split_segments(segments.take(n)) is Err,
    ensures
        split_segments(segments) == split_segments(segments.take(n)),
    decreases segments.len() - n,
{
    if n < segments.len() {
        assert(segments.take(n + 1).drop_last() =~= segments.take(n));
        lemma_split_segments_error(segments, n + 1);
    } else {
        assert(segments.take(n) =~= segments);
    }
}

/// Once a part of the entries is refused, the whole is, for the same reason.
proof fn lemma_entries_routes_error(
    entries: Seq<RibEntry>,
    n: int,
    filename: Seq<char>,
    peers: Map<u16, Peer>,
    prefix: Prefix,
)
    requires
        0 <= n <= entries.len(),
        entries_routes(entries.take(n), filename, peers, prefix) is Err,
    ensures
        entries_routes(entries, filename, peers, prefix) == entries_routes(
            entries.take(n),
            filename,
            peers,
            prefix,
        ),
    decreases entries.len() - n,
{
    if n < entries.len() {
        assert(entries.take(n + 1).drop_last() =~= entries.take(n));
        lemma_entries_routes_error(entries, n + 1, filename, peers, prefix);
    } else {
        assert(entries.take(n) =~= entries);
    }
}

/// Once a part of the records made the parser give up, the whole does, for
/// the same reason.
proof fn lemma_run_error(start: RibParserView, records: Seq<MrtRecord>, n: int)
    requires
        0 <= n <= records.len(),
        start.run(records.take(n)) is Err,
    ensures
        start.run(records) == start.run(records.take(n)),
    decreases records.len() - n,
{
    if n < records.len() {
        assert(records.take(n + 1).drop_last() =~= records.take(n));
        lemma_run_error(start, records, n + 1);
    } else {
        assert(records.take(n) =~= records);
    }
}

} // verus!
