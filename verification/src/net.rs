//! The small value types a route is made of: AS numbers, addresses, prefixes,
//! peers and community tags.

use vstd::prelude::*;

verus! {

/// An Autonomous System Number.
pub type Asn = u32;

/// The AS number that stands in where a test names none.
pub const MOCK_ASN: Asn = 65535;

/// The AS number that a test means by `asn`: [`MOCK_ASN`] where it names
/// none.
pub open spec fn mock_asn(asn: Option<Asn>) -> Asn {
    match asn {
        Some(a) => a,
        None => MOCK_ASN,
    }
}

/// Stand-in values for tests.
pub trait Testing: Sized {
    /// The stand-in for `asn`.
    fn get_mock(asn: Option<u32>) -> (r: Self);
}

impl Testing for Asn {
    /// `asn`, or 65535 where none is given.
    fn get_mock(asn: Option<u32>) -> (r: Asn)
        ensures
            r == mock_asn(asn),
    {
        match asn {
            Some(a) => a,
            None => MOCK_ASN,
        }
    }
}

/// An IP address, held as the integer its octets spell in network order.
#[derive(Clone, Copy, Debug, PartialEq, Eq, Structural, Hash)]
pub enum IpAddress {
    V4(u32),
    V6(u128),
}

impl IpAddress {
    /// The number of bits in an address of this family.
    pub open spec fn spec_max_prefix_len(self) -> u8 {
        match self {
            IpAddress::V4(_) => 32,
            IpAddress::V6(_) => 128,
        }
    }

    /// The number of bits in an address of this family.
    #[verifier::when_used_as_spec(spec_max_prefix_len)]
    pub fn max_prefix_len(self) -> (r: u8)
        ensures
            r == self.spec_max_prefix_len(),
    {
        match self {
            IpAddress::V4(_) => 32,
            IpAddress::V6(_) => 128,
        }
    }

    /// Whether every bit of the address is zero.
    pub open spec fn spec_is_unspecified(self) -> bool {
        match self {
            IpAddress::V4(bits) => bits == 0,
            IpAddress::V6(bits) => bits == 0,
        }
    }

    /// Whether every bit of the address is zero (`0.0.0.0` or `::`).
    #[verifier::when_used_as_spec(spec_is_unspecified)]
    pub fn is_unspecified(self) -> (r: bool)
        ensures
            r == self.spec_is_unspecified(),
    {
        match self {
            IpAddress::V4(bits) => bits == 0,
            IpAddress::V6(bits) => bits == 0,
        }
    }

    /// The address `192.0.2.1`, for tests.
    pub fn get_mock() -> (r: IpAddress)
        ensures
            r == IpAddress::V4(0xC000_0201),
    {
        IpAddress::V4(0xC000_0201)
    }
}

/// An IP prefix: an address and the number of leading bits that count.
#[derive(Clone, Copy, Debug, PartialEq, Eq, Structural, Hash)]
pub struct Prefix {
    pub addr: IpAddress,
    pub len: u8,
}

impl Prefix {
    /// A prefix is valid when its length does not exceed the address width.
    pub open spec fn wf(self) -> bool {
        self.len <= self.addr.spec_max_prefix_len()
    }

    /// The prefix `addr/len`, or `None` where `len` exceeds the width of the
    /// address family.
    pub fn new(addr: IpAddress, len: u8) -> (r: Option<Prefix>)
        ensures
            r == (if len <= addr.spec_max_prefix_len() {
                Some(Prefix { addr, len })
            } else {
                None
            }),
    {
        if len <= addr.max_prefix_len() {
            Some(Prefix { addr, len })
        } else {
            None
        }
    }

    /// Whether this is a default route.
    pub open spec fn spec_is_default_route(self) -> bool {
        self.len == 0 && self.addr.spec_is_unspecified()
    }

    /// Whether this is a default route: `0.0.0.0/0` or `::/0`.
    #[verifier::when_used_as_spec(spec_is_default_route)]
    pub fn is_default_route(self) -> (r: bool)
        ensures
            r == self.spec_is_default_route(),
    {
        self.len == 0 && self.addr.is_unspecified()
    }

    /// The prefix `192.0.2.1/24`, for tests.
    pub fn get_mock() -> (r: Prefix)
        ensures
            r == (Prefix { addr: IpAddress::V4(0xC000_0201), len: 24 }),
            r.wf(),
    {
        Prefix { addr: IpAddress::get_mock(), len: 24 }
    }
}

/// The collector's session over which a route was learned.
#[derive(Clone, Copy, Debug, PartialEq, Eq, Structural, Hash)]
pub struct Peer {
    pub asn: Asn,
    pub address: IpAddress,
    pub bgp_id: u32,
}

impl Peer {
    /// The session with peer AS `asn` at `address`, whose BGP identifier is
    /// `bgp_id`.
    pub fn new(bgp_id: u32, address: IpAddress, asn: Asn) -> (r: Peer)
        ensures
            r == (Peer { asn, address, bgp_id }),
    {
        Peer { asn, address, bgp_id }
    }

    /// Peer AS 65535 at `192.0.2.1` with BGP identifier `192.0.2.1`, for tests.
    pub fn get_mock() -> (r: Peer)
        ensures
            r == (Peer { asn: MOCK_ASN, address: IpAddress::V4(0xC000_0201), bgp_id: 0xC000_0201 }),
    {
        Peer::new(0xC000_0201, IpAddress::get_mock(), MOCK_ASN)
    }
}

/// A BGP community tag.
#[derive(Clone, Copy, Debug, PartialEq, Eq, Structural)]
pub enum Community {
    NoExport,
    NoAdvertise,
    NoExportSubConfed,
    Custom(Asn, u16),
}

impl Community {
    /// The tag `asn:value`, or `65535:23456` where none is given, for tests.
    pub fn get_mock(community: Option<(Asn, u16)>) -> (r: Community)
        ensures
            r == (match community {
                Some(parts) => Community::Custom(parts.0, parts.1),
                None => Community::Custom(MOCK_ASN, 23456),
            }),
    {
        match community {
            Some(parts) => Community::Custom(parts.0, parts.1),
            None => Community::Custom(MOCK_ASN, 23456),
        }
    }
}

/// A BGP large community tag.
#[derive(Clone, Copy, Debug, PartialEq, Eq, Structural)]
pub struct LargeCommunity {
    pub global_admin: u32,
    pub local_data_1: u32,
    pub local_data_2: u32,
}

impl LargeCommunity {
    /// The tag `global_admin:local_data_1:local_data_2`.
    pub open spec fn new_spec(global_admin: u32, local_data_1: u32, local_data_2: u32) -> LargeCommunity {
        LargeCommunity { global_admin, local_data_1, local_data_2 }
    }

    /// The tag `global_admin:local_data_1:local_data_2`.
    #[verifier::when_used_as_spec(new_spec)]
    pub fn new(global_admin: u32, local_data_1: u32, local_data_2: u32) -> (r: LargeCommunity)
        ensures
            r == LargeCommunity::new_spec(global_admin, local_data_1, local_data_2),
    {
        LargeCommunity { global_admin, local_data_1, local_data_2 }
    }

    /// The given tag, or `65535:65535:23456` where none is given, for tests.
    pub fn get_mock(large_community: Option<(u32, u32, u32)>) -> (r: LargeCommunity)
        ensures
            r == (match large_community {
                Some(parts) => LargeCommunity::new_spec(parts.0, parts.1, parts.2),
                None => LargeCommunity::new_spec(65535, 65535, 23456),
            }),
    {
        match large_community {
            Some(parts) => LargeCommunity::new(parts.0, parts.1, parts.2),
            None => LargeCommunity::new(65535, 65535, 23456),
        }
    }
}

} // verus!
