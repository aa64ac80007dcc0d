use vstd::prelude::*;

verus! {

/// The address of a proxy server, as the integers that a socket address is
/// made of: an IPv4 address and port, or an IPv6 address, port, flow
/// information and scope identifier.
#[derive(Clone, Copy, Debug, PartialEq, Eq, Hash, Structural)]
pub enum ProxyAddr {
    V4(u32, u16),
    V6(u128, u16, u32, u32),
}

} // verus!
