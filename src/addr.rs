//! IP addresses as plain integers, with the order that places every IPv4
//! address before every IPv6 address.
use vstd::prelude::*;

verus! {

/// An IPv4 address (as its 32-bit big-endian value) or an IPv6 address (as its
/// 128-bit big-endian value).
#[derive(Clone, Copy, Debug, PartialEq, Eq, Structural)]
pub enum Addr {
    V4(u32),
    V6(u128),
}

/// The number of IPv4 addresses; IPv6 keys start above them.
pub open spec fn v6_base() -> int {
    0x1_0000_0000
}

/// The position of an address in the total order used by the index: all IPv4
/// addresses first, by value, then all IPv6 addresses, by value.
pub open spec fn key(a: Addr) -> int {
    match a {
        Addr::V4(x) => x as int,
        Addr::V6(x) => v6_base() + x as int,
    }
}

/// Whether `a` comes before or equals `b` in the address order.
pub fn addr_le(a: &Addr, b: &Addr) -> (r: bool)
    ensures
        r == (key(*a) <= key(*b)),
{
    match (a, b) {
        (Addr::V4(x), Addr::V4(y)) => *x <= *y,
        (Addr::V6(x), Addr::V6(y)) => *x <= *y,
        (Addr::V4(_), Addr::V6(_)) => true,
        (Addr::V6(_), Addr::V4(_)) => false,
    }
}

/// Whether `a` and `b` are the same address.
pub fn addr_eq(a: &Addr, b: &Addr) -> (r: bool)
    ensures
        r == (key(*a) == key(*b)),
        r == (*a == *b),
{
    match (a, b) {
        (Addr::V4(x), Addr::V4(y)) => *x == *y,
        (Addr::V6(x), Addr::V6(y)) => *x == *y,
        _ => false,
    }
}

} // verus!
