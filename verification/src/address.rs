use vstd::prelude::*;

verus! {

/// A socket address: an IP address with a port, as a plain value.
///
/// IPv4 addresses hold their four octets as one big-endian `u32`; IPv6
/// addresses hold their sixteen octets as one big-endian `u128`, together with
/// the flow information and scope id that take part in equality.
#[derive(Clone, Copy, Debug, PartialEq, Eq, Structural, Hash)]
pub enum Address {
    V4 { ip4: u32, port: u16 },
    V6 { ip6: u128, port: u16, flowinfo: u32, scope_id: u32 },
}

/// An address after it is written out as text and read back: an IPv6
/// address's text carries its scope id but not its flow information, which
/// reads back as 0.
pub open spec fn reparsed(a: Address) -> Address {
    match a {
        Address::V4 { .. } => a,
        Address::V6 { ip6, port, scope_id, .. } => Address::V6 { ip6, port, flowinfo: 0, scope_id },
    }
}

impl Address {
    /// The address as it reads back from its text (see `reparsed`).
    pub fn reparse(&self) -> (r: Address)
        ensures
            r == reparsed(*self),
    {
        match *self {
            Address::V4 { ip4, port } => Address::V4 { ip4, port },
            Address::V6 { ip6, port, scope_id, .. } => Address::V6 { ip6, port, flowinfo: 0, scope_id },
        }
    }

    /// An IPv4 socket address from its four octets and a port.
    pub fn v4(a: u8, b: u8, c: u8, d: u8, port: u16) -> (r: Address)
        ensures
            r == (Address::V4 { ip4: (a * 0x1000000 + b * 0x10000 + c * 0x100 + d) as u32, port }),
    {
        let ip: u32 = (a as u32) * 0x1000000 + (b as u32) * 0x10000 + (c as u32) * 0x100 + (d as u32);
        Address::V4 { ip4: ip, port }
    }
}

} // verus!
