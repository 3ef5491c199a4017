//! Peer ids are IP addresses; the master is the live peer with the
//! lowest address.

use vstd::prelude::*;

verus! {

/// A parsed IP address: version 4 addresses as their 32 bits, version 6
/// addresses as their 128 bits, both most significant octet first.
#[derive(Debug, Clone, Copy, PartialEq, Eq, Structural)]
pub enum IpKey {
    V4(u32),
    V6(u128),
}

/// What `core::net::IpAddr`'s `FromStr` makes of `text`.
pub uninterp spec fn parsed_ip_address(text: Seq<char>) -> Option<IpKey>;

/// Parses `text` as an IP address with `core::net::IpAddr`'s `FromStr`
/// implementation. The result is named, not stated: it is `None` exactly
/// when parsing fails, and otherwise the address's bits tagged with its
/// version; the grammar of accepted text is left to the standard library.
#[verifier::external_body]
fn parse_ip_address(text: &str) -> (r: Option<IpKey>)
    ensures
        r == parsed_ip_address(text@),
{
    match text.parse::<core::net::IpAddr>() {
        Ok(core::net::IpAddr::V4(a)) => Some(IpKey::V4(u32::from(a))),
        Ok(core::net::IpAddr::V6(a)) => Some(IpKey::V6(u128::from(a))),
        Err(_) => None,
    }
}

/// The order of IP addresses: every version 4 address before every version
/// 6 address, and by value within a version.
pub open spec fn ip_key_less(a: IpKey, b: IpKey) -> bool {
    match (a, b) {
        (IpKey::V4(x), IpKey::V4(y)) => x < y,
        (IpKey::V4(_), IpKey::V6(_)) => true,
        (IpKey::V6(_), IpKey::V4(_)) => false,
        (IpKey::V6(x), IpKey::V6(y)) => x < y,
    }
}

/// The key by which a peer id competes in the election: its address, or
/// 255.255.255.255 when the id is not an address.
pub open spec fn election_key(id: Seq<char>) -> IpKey {
    match parsed_ip_address(id) {
        Some(k) => k,
        None => IpKey::V4(0xFFFF_FFFFu32),
    }
}

/// Whether `a` comes before `b` in the order of IP addresses.
pub fn ip_key_lt(a: IpKey, b: IpKey) -> (r: bool)
    ensures
        r == ip_key_less(a, b),
{
    match (a, b) {
        (IpKey::V4(x), IpKey::V4(y)) => x < y,
        (IpKey::V4(_), IpKey::V6(_)) => true,
        (IpKey::V6(_), IpKey::V4(_)) => false,
        (IpKey::V6(x), IpKey::V6(y)) => x < y,
    }
}

/// The election key of a peer id (see `election_key`).
pub fn key_of_id(id: &str) -> (k: IpKey)
    ensures
        k == election_key(id@),
{
    match parse_ip_address(id) {
        Some(k) => k,
        None => IpKey::V4(0xFFFF_FFFFu32),
    }
}

/// Law: the order of addresses is a strict total order.
pub proof fn lemma_ip_order(a: IpKey, b: IpKey, c: IpKey)
    ensures
        !ip_key_less(a, a),
        ip_key_less(a, b) ==> !ip_key_less(b, a),
        ip_key_less(a, b) && ip_key_less(b, c) ==> ip_key_less(a, c),
        a != b ==> ip_key_less(a, b) || ip_key_less(b, a),
{
}

} // verus!
