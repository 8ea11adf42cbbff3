use vstd::prelude::*;

verus! {

/// The largest IPv4 address, as a 128-bit number.
pub const IPV4_MAX: u128 = 0xffff_ffff;

/// The IPv4 loopback address 127.0.0.1.
pub const IPV4_LOCALHOST: u128 = 0x7f00_0001;

/// The IP family that an address encoded in a `u128` belongs to.
pub open spec fn spec_ip_type(ip: u128) -> u8 {
    if ip <= IPV4_MAX { 4 } else { 6 }
}

/// Whether an encoded address is accepted for serving a module.
///
/// Only non-loopback IPv4 addresses strictly below `255.255.255.255`, other than
/// zero, are accepted.
pub open spec fn spec_is_valid_ip_address(addr: u128) -> bool {
    &&& addr != 0
    &&& spec_ip_type(addr) != 6
    &&& addr < IPV4_MAX
    &&& addr != IPV4_LOCALHOST
}

/// Returns 4 for addresses that fit in 32 bits and 6 for all others.
pub fn get_ip_type(ip: u128) -> (t: u8)
    ensures
        t == spec_ip_type(ip),
{
    if ip <= IPV4_MAX {
        4
    } else {
        6
    }
}

/// Checks that an encoded IP address may be served.
pub fn is_valid_ip_address(addr: u128) -> (valid: bool)
    ensures
        valid == spec_is_valid_ip_address(addr),
{
    let ip_type: u8 = get_ip_type(addr);
    if addr == 0 {
        return false;
    }
    if ip_type == 6 {
        return false;
    }
    if addr >= IPV4_MAX {
        return false;
    }
    if addr == IPV4_LOCALHOST {
        return false;
    }
    true
}

} // verus!
