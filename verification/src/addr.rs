//! The two ends of a TCP connection.
use std::hash::Hash;

use vstd::prelude::*;

use crate::ipv4_util::read_be32;

verus! {

/// An IPv4 address.
pub type Ipv4Type = [u8; 4];

/// An address of the network layer. Addresses are told apart, and ordered, by a number.
pub trait NetworkAddr: Copy + Hash + Ord + Default {
    /// The number of the address.
    spec fn number(self) -> nat;

    /// No two addresses have the same number.
    proof fn number_tells_apart(a: Self, b: Self)
        ensures
            a.number() == b.number() ==> a == b,
    ;

    /// The number of the address.
    fn to_number(self) -> (r: u128)
        ensures
            r == self.number(),
    ;
}

impl NetworkAddr for Ipv4Type {
    open spec fn number(self) -> nat {
        crate::ipv4_util::be32(self[0], self[1], self[2], self[3]) as nat
    }

    proof fn number_tells_apart(a: Self, b: Self) {
        if a.number() == b.number() {
            assert(a =~= b);
        }
    }

    fn to_number(self) -> (r: u128) {
        let a: u8 = self[0];
        let b: u8 = self[1];
        let c: u8 = self[2];
        let d: u8 = self[3];
        read_be32(a, b, c, d) as u128
    }
}

/// One end of a TCP connection.
#[derive(Copy, Clone, Debug, Default, Hash, PartialEq, Eq, PartialOrd, Ord)]
pub struct TcpAddr<NetAddr: NetworkAddr> {
    pub net: NetAddr,
    pub port: u16,
}

impl<NetAddr: NetworkAddr> TcpAddr<NetAddr> {
    pub fn new(net: NetAddr, port: u16) -> (r: Self)
        ensures
            r == (TcpAddr { net, port }),
    {
        TcpAddr { net, port }
    }

    /// The order of the ends: by address, then by port.
    pub open spec fn precedes(self, other: Self) -> bool {
        self.net.number() < other.net.number() || (self.net.number() == other.net.number()
            && self.port < other.port)
    }

    /// Whether `self` comes before `other`.
    pub fn is_before(&self, other: &Self) -> (r: bool)
        ensures
            r == self.precedes(*other),
    {
        let mine: u128 = self.net.to_number();
        let theirs: u128 = other.net.to_number();
        mine < theirs || (mine == theirs && self.port < other.port)
    }

    /// Whether `self` and `other` are the same end.
    pub fn same(&self, other: &Self) -> (r: bool)
        ensures
            r == (*self == *other),
    {
        proof {
            NetAddr::number_tells_apart(self.net, other.net);
        }
        self.net.to_number() == other.net.to_number() && self.port == other.port
    }
}

/// The two ends of a connection in their order.
pub open spec fn session_key<NetAddr: NetworkAddr>(
    a: TcpAddr<NetAddr>,
    b: TcpAddr<NetAddr>,
) -> (TcpAddr<NetAddr>, TcpAddr<NetAddr>) {
    if a.precedes(b) {
        (a, b)
    } else {
        (b, a)
    }
}

/// Both directions of a connection belong to the same session, and no other connection does.
pub proof fn law_session_key_is_the_connection<NetAddr: NetworkAddr>(
    a: TcpAddr<NetAddr>,
    b: TcpAddr<NetAddr>,
    c: TcpAddr<NetAddr>,
    d: TcpAddr<NetAddr>,
)
    ensures
        session_key(a, b) == session_key(b, a),
        session_key(a, b) == session_key(c, d) <==> (a == c && b == d) || (a == d && b == c),
{
    NetAddr::number_tells_apart(a.net, b.net);
    NetAddr::number_tells_apart(c.net, d.net);
}

/// Of two ends one comes before the other unless they are the same; the address decides, and the
/// port where the addresses are the same.
pub proof fn law_ends_are_in_one_order<NetAddr: NetworkAddr>(
    a: TcpAddr<NetAddr>,
    b: TcpAddr<NetAddr>,
    c: TcpAddr<NetAddr>,
)
    ensures
        !(a.precedes(b) && b.precedes(a)),
        a.precedes(b) || b.precedes(a) || a == b,
        a.precedes(b) && b.precedes(c) ==> a.precedes(c),
        a.net.number() < b.net.number() ==> a.precedes(b),
        a.net == b.net && a.port < b.port ==> a.precedes(b),
        a.precedes(b) ==> session_key(a, b) == (a, b) && session_key(b, a) == (a, b),
{
    NetAddr::number_tells_apart(a.net, b.net);
}

/// The number of an IPv4 address is made of its bytes, the first one weighing most.
pub proof fn law_number_of_ipv4_address(a: Ipv4Type)
    ensures
        a.number() == ((a[0] * 256 + a[1]) * 256 + a[2]) * 256 + a[3],
{
}

} // verus!
