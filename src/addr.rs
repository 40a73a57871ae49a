use vstd::prelude::*;

verus! {

/// An IP address held as plain integers: the four bytes of an IPv4 address
/// or the sixteen bytes of an IPv6 address, most significant byte first.
#[derive(Clone, Copy, Debug, PartialEq, Eq, Structural)]
pub enum IpAddress {
    V4(u32),
    V6(u128),
}

} // verus!
