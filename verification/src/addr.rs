//! IPv4 addresses as four octets, and their view as a sequence of bits.

use vstd::prelude::*;

verus! {

/// An IPv4 address, stored as four octets in network order (most significant
/// octet first).
#[derive(Clone, Copy, Debug, PartialEq, Eq)]
pub struct Ipv4Address {
    pub octets: [u8; 4],
}

/// Bit `i` of the address, counting from the most significant bit of the
/// first octet (bit 0) to the least significant bit of the last (bit 31).
pub open spec fn addr_bit(addr: Ipv4Address, i: int) -> bool
    recommends
        0 <= i < 32,
{
    (addr.octets@[i / 8] >> ((7 - (i % 8)) as u8)) & 1 == 1
}

/// The bits of the address from position `lo` (inclusive) to `hi`
/// (exclusive), most significant first.
pub open spec fn bits_range(addr: Ipv4Address, lo: int, hi: int) -> Seq<bool>
    recommends
        0 <= lo <= hi <= 32,
{
    Seq::new((hi - lo) as nat, |i: int| addr_bit(addr, lo + i))
}

/// The first `n` bits of the address: the prefix of length `n` that the
/// address falls under.
pub open spec fn prefix_bits(addr: Ipv4Address, n: int) -> Seq<bool>
    recommends
        0 <= n <= 32,
{
    bits_range(addr, 0, n)
}

/// All 32 bits of the address, most significant first.
pub open spec fn addr_bits(addr: Ipv4Address) -> Seq<bool> {
    bits_range(addr, 0, 32)
}

/// A prefix of the address is the corresponding take of its full bit string.
pub proof fn lemma_prefix_bits_take(addr: Ipv4Address, n: int)
    requires
        0 <= n <= 32,
    ensures
        prefix_bits(addr, n) == addr_bits(addr).take(n),
{
    assert(prefix_bits(addr, n) =~= addr_bits(addr).take(n));
}

impl Ipv4Address {
    /// Builds an address from its four octets, most significant first.
    pub fn new(a: u8, b: u8, c: u8, d: u8) -> (addr: Ipv4Address)
        ensures
            addr.octets@ == seq![a, b, c, d],
    {
        let addr = Ipv4Address { octets: [a, b, c, d] };
        proof {
            assert(addr.octets@ =~= seq![a, b, c, d]);
        }
        addr
    }

    /// Extracts bit `i` of the address, most significant first.
    pub fn bit_at(&self, i: usize) -> (b: bool)
        requires
            i < 32,
        ensures
            b == addr_bit(*self, i as int),
    {
        let idx: usize = i / 8;
        let sh: u8 = (7 - (i % 8)) as u8;
        let bit: u8 = (self.octets[idx] >> sh) & 1;
        bit == 1
    }
}

} // verus!
