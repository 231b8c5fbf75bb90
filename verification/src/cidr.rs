//! Provider network database: only nodes whose address lies in a known
//! provider's ranges are kept.
//!
//! Each provider has a name and a list of networks read from a text with
//! one CIDR per line (`#` comments and blank lines allowed). Ranges can be
//! loaded from a directory of such files and refreshed from RIPEstat.
use vstd::prelude::*;

use ipnetwork::IpNetwork;

use crate::sources::{is_source_line, lemma_source_lines_concat, source_lines};
use crate::text::{
    chars_eq, chars_lt, chars_of, decimal, extend_chars, lemma_concat_lacks,
    lemma_decimal_lacks, lemma_seq_lt_total, lemma_seq_lt_transitive, lemma_split_concat,
    lemma_split_single, lemma_trim_noop, push_decimal, seq_lt, split, string_of, strings_view, trim,
    last_index_of, lemma_seq_lt_irreflexive, rfind_char, slice_copy,
};

verus! {

/// An IP address: 32 bits for IPv4, 128 bits for IPv6.
#[derive(Debug, Clone, Copy, PartialEq, Eq)]
pub enum IpAddress {
    V4(u32),
    V6(u128),
}

/// A network: an address and a prefix length.
#[allow(inconsistent_fields)]
#[derive(Debug, Clone, Copy, PartialEq, Eq)]
pub enum Network {
    V4 { addr: u32, prefix: u8 },
    V6 { addr: u128, prefix: u8 },
}

/// Mask of the first `prefix` bits of an IPv4 address.
pub open spec fn v4_mask(prefix: u8) -> u32 {
    if prefix >= 32 {
        0xffff_ffff
    } else {
        !(0xffff_ffffu32 >> prefix)
    }
}

/// Mask of the first `prefix` bits of an IPv6 address.
pub open spec fn v6_mask(prefix: u8) -> u128 {
    if prefix >= 128 {
        0xffff_ffff_ffff_ffff_ffff_ffff_ffff_ffffu128
    } else {
        !(0xffff_ffff_ffff_ffff_ffff_ffff_ffff_ffffu128 >> prefix)
    }
}

/// `IpNetwork::contains`: same family, and the address agrees with the
/// network's address on the first `prefix` bits.
pub open spec fn network_contains(n: Network, ip: IpAddress) -> bool {
    match (n, ip) {
        (Network::V4 { addr, prefix }, IpAddress::V4(a)) => (a & v4_mask(prefix)) == (addr
            & v4_mask(prefix)),
        (Network::V6 { addr, prefix }, IpAddress::V6(a)) => (a & v6_mask(prefix)) == (addr
            & v6_mask(prefix)),
        _ => false,
    }
}

/// Prefix within the family's width.
pub open spec fn network_wf(n: Network) -> bool {
    match n {
        Network::V4 { prefix, .. } => prefix <= 32,
        Network::V6 { prefix, .. } => prefix <= 128,
    }
}

/// Plain value of a network: (is IPv6, address, prefix).
pub open spec fn network_value(n: Network) -> (bool, u128, u8) {
    match n {
        Network::V4 { addr, prefix } => (false, addr as u128, prefix),
        Network::V6 { addr, prefix } => (true, addr, prefix),
    }
}

/// Bit `i` of a 32-bit word, counted from the most significant bit (bit 0).
pub open spec fn bit32(x: u32, i: u32) -> bool {
    (x >> ((31u32 - i) as u32)) & 1u32 == 1u32
}

/// Bit `i` of a 128-bit word, counted from the most significant bit (bit 0).
pub open spec fn bit128(x: u128, i: u32) -> bool {
    (x >> ((127u32 - i) as u32)) & 1u128 == 1u128
}

proof fn lemma_v4_mask_bit(p: u32, i: u32)
    by (bit_vector)
    requires
        p < 32,
        i < 32,
    ensures
        ((!(0xffff_ffffu32 >> p)) >> ((31u32 - i) as u32)) & 1u32 == 1u32 <==> i < p,
{
}

proof fn lemma_v4_ones_bit(i: u32)
    by (bit_vector)
    requires
        i < 32,
    ensures
        (0xffff_ffffu32 >> ((31u32 - i) as u32)) & 1u32 == 1u32,
{
}

/// The IPv4 mask of a prefix `p` (at most 32) has exactly its first `p`
/// bits set.
pub proof fn lemma_v4_mask_bits(p: u8)
    requires
        p <= 32,
    ensures
        forall|i: u32| i < 32 ==> (#[trigger] bit32(v4_mask(p), i) <==> i < p),
{
    assert forall|i: u32| i < 32 implies (#[trigger] bit32(v4_mask(p), i) <==> i < p) by {
        if p < 32 {
            lemma_v4_mask_bit(p as u32, i);
            assert(v4_mask(p) == !(0xffff_ffffu32 >> p));
        } else {
            lemma_v4_ones_bit(i);
        }
    }
}

proof fn lemma_and_bit(x: u32, m: u32, i: u32)
    by (bit_vector)
    requires
        i < 32,
    ensures
        ((x & m) >> ((31u32 - i) as u32)) & 1u32 == 1u32 <==> (((x >> ((31u32 - i) as u32)) & 1u32
            == 1u32) && ((m >> ((31u32 - i) as u32)) & 1u32 == 1u32)),
{
}

proof fn lemma_bits_ext_bv(x: u32, y: u32)
    by (bit_vector)
    requires
        (x >> 31u32) & 1u32 == (y >> 31u32) & 1u32,
        (x >> 30u32) & 1u32 == (y >> 30u32) & 1u32,
        (x >> 29u32) & 1u32 == (y >> 29u32) & 1u32,
        (x >> 28u32) & 1u32 == (y >> 28u32) & 1u32,
        (x >> 27u32) & 1u32 == (y >> 27u32) & 1u32,
        (x >> 26u32) & 1u32 == (y >> 26u32) & 1u32,
        (x >> 25u32) & 1u32 == (y >> 25u32) & 1u32,
        (x >> 24u32) & 1u32 == (y >> 24u32) & 1u32,
        (x >> 23u32) & 1u32 == (y >> 23u32) & 1u32,
        (x >> 22u32) & 1u32 == (y >> 22u32) & 1u32,
        (x >> 21u32) & 1u32 == (y >> 21u32) & 1u32,
        (x >> 20u32) & 1u32 == (y >> 20u32) & 1u32,
        (x >> 19u32) & 1u32 == (y >> 19u32) & 1u32,
        (x >> 18u32) & 1u32 == (y >> 18u32) & 1u32,
        (x >> 17u32) & 1u32 == (y >> 17u32) & 1u32,
        (x >> 16u32) & 1u32 == (y >> 16u32) & 1u32,
        (x >> 15u32) & 1u32 == (y >> 15u32) & 1u32,
        (x >> 14u32) & 1u32 == (y >> 14u32) & 1u32,
        (x >> 13u32) & 1u32 == (y >> 13u32) & 1u32,
        (x >> 12u32) & 1u32 == (y >> 12u32) & 1u32,
        (x >> 11u32) & 1u32 == (y >> 11u32) & 1u32,
        (x >> 10u32) & 1u32 == (y >> 10u32) & 1u32,
        (x >> 9u32) & 1u32 == (y >> 9u32) & 1u32,
        (x >> 8u32) & 1u32 == (y >> 8u32) & 1u32,
        (x >> 7u32) & 1u32 == (y >> 7u32) & 1u32,
        (x >> 6u32) & 1u32 == (y >> 6u32) & 1u32,
        (x >> 5u32) & 1u32 == (y >> 5u32) & 1u32,
        (x >> 4u32) & 1u32 == (y >> 4u32) & 1u32,
        (x >> 3u32) & 1u32 == (y >> 3u32) & 1u32,
        (x >> 2u32) & 1u32 == (y >> 2u32) & 1u32,
        (x >> 1u32) & 1u32 == (y >> 1u32) & 1u32,
        (x >> 0u32) & 1u32 == (y >> 0u32) & 1u32,
    ensures
        x == y,
{
}

proof fn lemma_bits_ext(x: u32, y: u32)
    requires
        forall|i: u32| i < 32 ==> (#[trigger] bit32(x, i) <==> bit32(y, i)),
    ensures
        x == y,
{
    lemma_bit_pair(x, y, 0u32);
    lemma_bit_pair(x, y, 1u32);
    lemma_bit_pair(x, y, 2u32);
    lemma_bit_pair(x, y, 3u32);
    lemma_bit_pair(x, y, 4u32);
    lemma_bit_pair(x, y, 5u32);
    lemma_bit_pair(x, y, 6u32);
    lemma_bit_pair(x, y, 7u32);
    lemma_bit_pair(x, y, 8u32);
    lemma_bit_pair(x, y, 9u32);
    lemma_bit_pair(x, y, 10u32);
    lemma_bit_pair(x, y, 11u32);
    lemma_bit_pair(x, y, 12u32);
    lemma_bit_pair(x, y, 13u32);
    lemma_bit_pair(x, y, 14u32);
    lemma_bit_pair(x, y, 15u32);
    lemma_bit_pair(x, y, 16u32);
    lemma_bit_pair(x, y, 17u32);
    lemma_bit_pair(x, y, 18u32);
    lemma_bit_pair(x, y, 19u32);
    lemma_bit_pair(x, y, 20u32);
    lemma_bit_pair(x, y, 21u32);
    lemma_bit_pair(x, y, 22u32);
    lemma_bit_pair(x, y, 23u32);
    lemma_bit_pair(x, y, 24u32);
    lemma_bit_pair(x, y, 25u32);
    lemma_bit_pair(x, y, 26u32);
    lemma_bit_pair(x, y, 27u32);
    lemma_bit_pair(x, y, 28u32);
    lemma_bit_pair(x, y, 29u32);
    lemma_bit_pair(x, y, 30u32);
    lemma_bit_pair(x, y, 31u32);
    lemma_bits_ext_bv(x, y);
}

proof fn lemma_bit_pair(x: u32, y: u32, i: u32)
    requires
        i < 32,
        bit32(x, i) <==> bit32(y, i),
    ensures
        (x >> ((31u32 - i) as u32)) & 1u32 == (y >> ((31u32 - i) as u32)) & 1u32,
{
    assert(((x >> ((31u32 - i) as u32)) & 1u32) <= 1u32) by (bit_vector);
    assert(((y >> ((31u32 - i) as u32)) & 1u32) <= 1u32) by (bit_vector);
}

/// An IPv4 address lies in an IPv4 network of prefix `p` (at most 32)
/// exactly when it agrees with the network's address on its first `p` bits.
pub proof fn lemma_v4_contains_bits(addr: u32, prefix: u8, a: u32)
    requires
        prefix <= 32,
    ensures
        network_contains(Network::V4 { addr, prefix }, IpAddress::V4(a)) <==> forall|i: u32|
            i < prefix ==> (#[trigger] bit32(a, i) <==> bit32(addr, i)),
{
    let m = v4_mask(prefix);
    lemma_v4_mask_bits(prefix);
    assert forall|i: u32| i < 32 implies (#[trigger] bit32(a & m, i) <==> (bit32(a, i) && bit32(m, i)))
        && (bit32(addr & m, i) <==> (bit32(addr, i) && bit32(m, i))) by {
        lemma_and_bit(a, m, i);
        lemma_and_bit(addr, m, i);
    }
    if (a & m) == (addr & m) {
        assert forall|i: u32| i < prefix implies (#[trigger] bit32(a, i) <==> bit32(addr, i)) by {
            assert(bit32(m, i));
            assert(bit32(a & m, i) == bit32(addr & m, i));
        }
    }
    if forall|i: u32| i < prefix ==> (#[trigger] bit32(a, i) <==> bit32(addr, i)) {
        assert forall|i: u32| i < 32 implies (#[trigger] bit32(a & m, i) <==> bit32(addr & m, i)) by {
            if i < prefix {
                assert(bit32(a, i) <==> bit32(addr, i));
            }
        }
        lemma_bits_ext(a & m, addr & m);
    }
}

proof fn lemma_v6_mask_bit(p: u32, i: u32)
    by (bit_vector)
    requires
        p < 128,
        i < 128,
    ensures
        ((!(0xffff_ffff_ffff_ffff_ffff_ffff_ffff_ffffu128 >> p)) >> ((127u32 - i) as u32)) & 1u128 == 1u128 <==> i < p,
{
}

proof fn lemma_v6_ones_bit(i: u32)
    by (bit_vector)
    requires
        i < 128,
    ensures
        (0xffff_ffff_ffff_ffff_ffff_ffff_ffff_ffffu128 >> ((127u32 - i) as u32)) & 1u128 == 1u128,
{
}

/// The IPv6 mask of a prefix `p` (at most 128) has exactly its first `p`
/// bits set.
pub proof fn lemma_v6_mask_bits(p: u8)
    requires
        p <= 128,
    ensures
        forall|i: u32| i < 128 ==> (#[trigger] bit128(v6_mask(p), i) <==> i < p),
{
    assert forall|i: u32| i < 128 implies (#[trigger] bit128(v6_mask(p), i) <==> i < p) by {
        if p < 128 {
            lemma_v6_mask_bit(p as u32, i);
            assert(v6_mask(p) == !(0xffff_ffff_ffff_ffff_ffff_ffff_ffff_ffffu128 >> p));
        } else {
            lemma_v6_ones_bit(i);
        }
    }
}

proof fn lemma_and_bit128(x: u128, m: u128, i: u32)
    by (bit_vector)
    requires
        i < 128,
    ensures
        ((x & m) >> ((127u32 - i) as u32)) & 1u128 == 1u128 <==> (((x >> ((127u32 - i) as u32)) & 1u128 == 1u128) && ((m >> ((127u32 - i) as u32))
            & 1u128 == 1u128)),
{
}

proof fn lemma_bits_ext128_bv(x: u128, y: u128)
    by (bit_vector)
    requires
        (x >> 127u32) & 1u128 == (y >> 127u32) & 1u128,
        (x >> 126u32) & 1u128 == (y >> 126u32) & 1u128,
        (x >> 125u32) & 1u128 == (y >> 125u32) & 1u128,
        (x >> 124u32) & 1u128 == (y >> 124u32) & 1u128,
        (x >> 123u32) & 1u128 == (y >> 123u32) & 1u128,
        (x >> 122u32) & 1u128 == (y >> 122u32) & 1u128,
        (x >> 121u32) & 1u128 == (y >> 121u32) & 1u128,
        (x >> 120u32) & 1u128 == (y >> 120u32) & 1u128,
        (x >> 119u32) & 1u128 == (y >> 119u32) & 1u128,
        (x >> 118u32) & 1u128 == (y >> 118u32) & 1u128,
        (x >> 117u32) & 1u128 == (y >> 117u32) & 1u128,
        (x >> 116u32) & 1u128 == (y >> 116u32) & 1u128,
        (x >> 115u32) & 1u128 == (y >> 115u32) & 1u128,
        (x >> 114u32) & 1u128 == (y >> 114u32) & 1u128,
        (x >> 113u32) & 1u128 == (y >> 113u32) & 1u128,
        (x >> 112u32) & 1u128 == (y >> 112u32) & 1u128,
        (x >> 111u32) & 1u128 == (y >> 111u32) & 1u128,
        (x >> 110u32) & 1u128 == (y >> 110u32) & 1u128,
        (x >> 109u32) & 1u128 == (y >> 109u32) & 1u128,
        (x >> 108u32) & 1u128 == (y >> 108u32) & 1u128,
        (x >> 107u32) & 1u128 == (y >> 107u32) & 1u128,
        (x >> 106u32) & 1u128 == (y >> 106u32) & 1u128,
        (x >> 105u32) & 1u128 == (y >> 105u32) & 1u128,
        (x >> 104u32) & 1u128 == (y >> 104u32) & 1u128,
        (x >> 103u32) & 1u128 == (y >> 103u32) & 1u128,
        (x >> 102u32) & 1u128 == (y >> 102u32) & 1u128,
        (x >> 101u32) & 1u128 == (y >> 101u32) & 1u128,
        (x >> 100u32) & 1u128 == (y >> 100u32) & 1u128,
        (x >> 99u32) & 1u128 == (y >> 99u32) & 1u128,
        (x >> 98u32) & 1u128 == (y >> 98u32) & 1u128,
        (x >> 97u32) & 1u128 == (y >> 97u32) & 1u128,
        (x >> 96u32) & 1u128 == (y >> 96u32) & 1u128,
        (x >> 95u32) & 1u128 == (y >> 95u32) & 1u128,
        (x >> 94u32) & 1u128 == (y >> 94u32) & 1u128,
        (x >> 93u32) & 1u128 == (y >> 93u32) & 1u128,
        (x >> 92u32) & 1u128 == (y >> 92u32) & 1u128,
        (x >> 91u32) & 1u128 == (y >> 91u32) & 1u128,
        (x >> 90u32) & 1u128 == (y >> 90u32) & 1u128,
        (x >> 89u32) & 1u128 == (y >> 89u32) & 1u128,
        (x >> 88u32) & 1u128 == (y >> 88u32) & 1u128,
        (x >> 87u32) & 1u128 == (y >> 87u32) & 1u128,
        (x >> 86u32) & 1u128 == (y >> 86u32) & 1u128,
        (x >> 85u32) & 1u128 == (y >> 85u32) & 1u128,
        (x >> 84u32) & 1u128 == (y >> 84u32) & 1u128,
        (x >> 83u32) & 1u128 == (y >> 83u32) & 1u128,
        (x >> 82u32) & 1u128 == (y >> 82u32) & 1u128,
        (x >> 81u32) & 1u128 == (y >> 81u32) & 1u128,
        (x >> 80u32) & 1u128 == (y >> 80u32) & 1u128,
        (x >> 79u32) & 1u128 == (y >> 79u32) & 1u128,
        (x >> 78u32) & 1u128 == (y >> 78u32) & 1u128,
        (x >> 77u32) & 1u128 == (y >> 77u32) & 1u128,
        (x >> 76u32) & 1u128 == (y >> 76u32) & 1u128,
        (x >> 75u32) & 1u128 == (y >> 75u32) & 1u128,
        (x >> 74u32) & 1u128 == (y >> 74u32) & 1u128,
        (x >> 73u32) & 1u128 == (y >> 73u32) & 1u128,
        (x >> 72u32) & 1u128 == (y >> 72u32) & 1u128,
        (x >> 71u32) & 1u128 == (y >> 71u32) & 1u128,
        (x >> 70u32) & 1u128 == (y >> 70u32) & 1u128,
        (x >> 69u32) & 1u128 == (y >> 69u32) & 1u128,
        (x >> 68u32) & 1u128 == (y >> 68u32) & 1u128,
        (x >> 67u32) & 1u128 == (y >> 67u32) & 1u128,
        (x >> 66u32) & 1u128 == (y >> 66u32) & 1u128,
        (x >> 65u32) & 1u128 == (y >> 65u32) & 1u128,
        (x >> 64u32) & 1u128 == (y >> 64u32) & 1u128,
        (x >> 63u32) & 1u128 == (y >> 63u32) & 1u128,
        (x >> 62u32) & 1u128 == (y >> 62u32) & 1u128,
        (x >> 61u32) & 1u128 == (y >> 61u32) & 1u128,
        (x >> 60u32) & 1u128 == (y >> 60u32) & 1u128,
        (x >> 59u32) & 1u128 == (y >> 59u32) & 1u128,
        (x >> 58u32) & 1u128 == (y >> 58u32) & 1u128,
        (x >> 57u32) & 1u128 == (y >> 57u32) & 1u128,
        (x >> 56u32) & 1u128 == (y >> 56u32) & 1u128,
        (x >> 55u32) & 1u128 == (y >> 55u32) & 1u128,
        (x >> 54u32) & 1u128 == (y >> 54u32) & 1u128,
        (x >> 53u32) & 1u128 == (y >> 53u32) & 1u128,
        (x >> 52u32) & 1u128 == (y >> 52u32) & 1u128,
        (x >> 51u32) & 1u128 == (y >> 51u32) & 1u128,
        (x >> 50u32) & 1u128 == (y >> 50u32) & 1u128,
        (x >> 49u32) & 1u128 == (y >> 49u32) & 1u128,
        (x >> 48u32) & 1u128 == (y >> 48u32) & 1u128,
        (x >> 47u32) & 1u128 == (y >> 47u32) & 1u128,
        (x >> 46u32) & 1u128 == (y >> 46u32) & 1u128,
        (x >> 45u32) & 1u128 == (y >> 45u32) & 1u128,
        (x >> 44u32) & 1u128 == (y >> 44u32) & 1u128,
        (x >> 43u32) & 1u128 == (y >> 43u32) & 1u128,
        (x >> 42u32) & 1u128 == (y >> 42u32) & 1u128,
        (x >> 41u32) & 1u128 == (y >> 41u32) & 1u128,
        (x >> 40u32) & 1u128 == (y >> 40u32) & 1u128,
        (x >> 39u32) & 1u128 == (y >> 39u32) & 1u128,
        (x >> 38u32) & 1u128 == (y >> 38u32) & 1u128,
        (x >> 37u32) & 1u128 == (y >> 37u32) & 1u128,
        (x >> 36u32) & 1u128 == (y >> 36u32) & 1u128,
        (x >> 35u32) & 1u128 == (y >> 35u32) & 1u128,
        (x >> 34u32) & 1u128 == (y >> 34u32) & 1u128,
        (x >> 33u32) & 1u128 == (y >> 33u32) & 1u128,
        (x >> 32u32) & 1u128 == (y >> 32u32) & 1u128,
        (x >> 31u32) & 1u128 == (y >> 31u32) & 1u128,
        (x >> 30u32) & 1u128 == (y >> 30u32) & 1u128,
        (x >> 29u32) & 1u128 == (y >> 29u32) & 1u128,
        (x >> 28u32) & 1u128 == (y >> 28u32) & 1u128,
        (x >> 27u32) & 1u128 == (y >> 27u32) & 1u128,
        (x >> 26u32) & 1u128 == (y >> 26u32) & 1u128,
        (x >> 25u32) & 1u128 == (y >> 25u32) & 1u128,
        (x >> 24u32) & 1u128 == (y >> 24u32) & 1u128,
        (x >> 23u32) & 1u128 == (y >> 23u32) & 1u128,
        (x >> 22u32) & 1u128 == (y >> 22u32) & 1u128,
        (x >> 21u32) & 1u128 == (y >> 21u32) & 1u128,
        (x >> 20u32) & 1u128 == (y >> 20u32) & 1u128,
        (x >> 19u32) & 1u128 == (y >> 19u32) & 1u128,
        (x >> 18u32) & 1u128 == (y >> 18u32) & 1u128,
        (x >> 17u32) & 1u128 == (y >> 17u32) & 1u128,
        (x >> 16u32) & 1u128 == (y >> 16u32) & 1u128,
        (x >> 15u32) & 1u128 == (y >> 15u32) & 1u128,
        (x >> 14u32) & 1u128 == (y >> 14u32) & 1u128,
        (x >> 13u32) & 1u128 == (y >> 13u32) & 1u128,
        (x >> 12u32) & 1u128 == (y >> 12u32) & 1u128,
        (x >> 11u32) & 1u128 == (y >> 11u32) & 1u128,
        (x >> 10u32) & 1u128 == (y >> 10u32) & 1u128,
        (x >> 9u32) & 1u128 == (y >> 9u32) & 1u128,
        (x >> 8u32) & 1u128 == (y >> 8u32) & 1u128,
        (x >> 7u32) & 1u128 == (y >> 7u32) & 1u128,
        (x >> 6u32) & 1u128 == (y >> 6u32) & 1u128,
        (x >> 5u32) & 1u128 == (y >> 5u32) & 1u128,
        (x >> 4u32) & 1u128 == (y >> 4u32) & 1u128,
        (x >> 3u32) & 1u128 == (y >> 3u32) & 1u128,
        (x >> 2u32) & 1u128 == (y >> 2u32) & 1u128,
        (x >> 1u32) & 1u128 == (y >> 1u32) & 1u128,
        (x >> 0u32) & 1u128 == (y >> 0u32) & 1u128,
    ensures
        x == y,
{
}

proof fn lemma_bit_pair128(x: u128, y: u128, i: u32)
    requires
        i < 128,
        bit128(x, i) <==> bit128(y, i),
    ensures
        (x >> ((127u32 - i) as u32)) & 1u128 == (y >> ((127u32 - i) as u32)) & 1u128,
{
    assert(((x >> ((127u32 - i) as u32)) & 1u128) <= 1u128) by (bit_vector);
    assert(((y >> ((127u32 - i) as u32)) & 1u128) <= 1u128) by (bit_vector);
}

proof fn lemma_bits_ext128(x: u128, y: u128)
    requires
        forall|i: u32| i < 128 ==> (#[trigger] bit128(x, i) <==> bit128(y, i)),
    ensures
        x == y,
{
    lemma_bit_pair128(x, y, 0u32);
    lemma_bit_pair128(x, y, 1u32);
    lemma_bit_pair128(x, y, 2u32);
    lemma_bit_pair128(x, y, 3u32);
    lemma_bit_pair128(x, y, 4u32);
    lemma_bit_pair128(x, y, 5u32);
    lemma_bit_pair128(x, y, 6u32);
    lemma_bit_pair128(x, y, 7u32);
    lemma_bit_pair128(x, y, 8u32);
    lemma_bit_pair128(x, y, 9u32);
    lemma_bit_pair128(x, y, 10u32);
    lemma_bit_pair128(x, y, 11u32);
    lemma_bit_pair128(x, y, 12u32);
    lemma_bit_pair128(x, y, 13u32);
    lemma_bit_pair128(x, y, 14u32);
    lemma_bit_pair128(x, y, 15u32);
    lemma_bit_pair128(x, y, 16u32);
    lemma_bit_pair128(x, y, 17u32);
    lemma_bit_pair128(x, y, 18u32);
    lemma_bit_pair128(x, y, 19u32);
    lemma_bit_pair128(x, y, 20u32);
    lemma_bit_pair128(x, y, 21u32);
    lemma_bit_pair128(x, y, 22u32);
    lemma_bit_pair128(x, y, 23u32);
    lemma_bit_pair128(x, y, 24u32);
    lemma_bit_pair128(x, y, 25u32);
    lemma_bit_pair128(x, y, 26u32);
    lemma_bit_pair128(x, y, 27u32);
    lemma_bit_pair128(x, y, 28u32);
    lemma_bit_pair128(x, y, 29u32);
    lemma_bit_pair128(x, y, 30u32);
    lemma_bit_pair128(x, y, 31u32);
    lemma_bit_pair128(x, y, 32u32);
    lemma_bit_pair128(x, y, 33u32);
    lemma_bit_pair128(x, y, 34u32);
    lemma_bit_pair128(x, y, 35u32);
    lemma_bit_pair128(x, y, 36u32);
    lemma_bit_pair128(x, y, 37u32);
    lemma_bit_pair128(x, y, 38u32);
    lemma_bit_pair128(x, y, 39u32);
    lemma_bit_pair128(x, y, 40u32);
    lemma_bit_pair128(x, y, 41u32);
    lemma_bit_pair128(x, y, 42u32);
    lemma_bit_pair128(x, y, 43u32);
    lemma_bit_pair128(x, y, 44u32);
    lemma_bit_pair128(x, y, 45u32);
    lemma_bit_pair128(x, y, 46u32);
    lemma_bit_pair128(x, y, 47u32);
    lemma_bit_pair128(x, y, 48u32);
    lemma_bit_pair128(x, y, 49u32);
    lemma_bit_pair128(x, y, 50u32);
    lemma_bit_pair128(x, y, 51u32);
    lemma_bit_pair128(x, y, 52u32);
    lemma_bit_pair128(x, y, 53u32);
    lemma_bit_pair128(x, y, 54u32);
    lemma_bit_pair128(x, y, 55u32);
    lemma_bit_pair128(x, y, 56u32);
    lemma_bit_pair128(x, y, 57u32);
    lemma_bit_pair128(x, y, 58u32);
    lemma_bit_pair128(x, y, 59u32);
    lemma_bit_pair128(x, y, 60u32);
    lemma_bit_pair128(x, y, 61u32);
    lemma_bit_pair128(x, y, 62u32);
    lemma_bit_pair128(x, y, 63u32);
    lemma_bit_pair128(x, y, 64u32);
    lemma_bit_pair128(x, y, 65u32);
    lemma_bit_pair128(x, y, 66u32);
    lemma_bit_pair128(x, y, 67u32);
    lemma_bit_pair128(x, y, 68u32);
    lemma_bit_pair128(x, y, 69u32);
    lemma_bit_pair128(x, y, 70u32);
    lemma_bit_pair128(x, y, 71u32);
    lemma_bit_pair128(x, y, 72u32);
    lemma_bit_pair128(x, y, 73u32);
    lemma_bit_pair128(x, y, 74u32);
    lemma_bit_pair128(x, y, 75u32);
    lemma_bit_pair128(x, y, 76u32);
    lemma_bit_pair128(x, y, 77u32);
    lemma_bit_pair128(x, y, 78u32);
    lemma_bit_pair128(x, y, 79u32);
    lemma_bit_pair128(x, y, 80u32);
    lemma_bit_pair128(x, y, 81u32);
    lemma_bit_pair128(x, y, 82u32);
    lemma_bit_pair128(x, y, 83u32);
    lemma_bit_pair128(x, y, 84u32);
    lemma_bit_pair128(x, y, 85u32);
    lemma_bit_pair128(x, y, 86u32);
    lemma_bit_pair128(x, y, 87u32);
    lemma_bit_pair128(x, y, 88u32);
    lemma_bit_pair128(x, y, 89u32);
    lemma_bit_pair128(x, y, 90u32);
    lemma_bit_pair128(x, y, 91u32);
    lemma_bit_pair128(x, y, 92u32);
    lemma_bit_pair128(x, y, 93u32);
    lemma_bit_pair128(x, y, 94u32);
    lemma_bit_pair128(x, y, 95u32);
    lemma_bit_pair128(x, y, 96u32);
    lemma_bit_pair128(x, y, 97u32);
    lemma_bit_pair128(x, y, 98u32);
    lemma_bit_pair128(x, y, 99u32);
    lemma_bit_pair128(x, y, 100u32);
    lemma_bit_pair128(x, y, 101u32);
    lemma_bit_pair128(x, y, 102u32);
    lemma_bit_pair128(x, y, 103u32);
    lemma_bit_pair128(x, y, 104u32);
    lemma_bit_pair128(x, y, 105u32);
    lemma_bit_pair128(x, y, 106u32);
    lemma_bit_pair128(x, y, 107u32);
    lemma_bit_pair128(x, y, 108u32);
    lemma_bit_pair128(x, y, 109u32);
    lemma_bit_pair128(x, y, 110u32);
    lemma_bit_pair128(x, y, 111u32);
    lemma_bit_pair128(x, y, 112u32);
    lemma_bit_pair128(x, y, 113u32);
    lemma_bit_pair128(x, y, 114u32);
    lemma_bit_pair128(x, y, 115u32);
    lemma_bit_pair128(x, y, 116u32);
    lemma_bit_pair128(x, y, 117u32);
    lemma_bit_pair128(x, y, 118u32);
    lemma_bit_pair128(x, y, 119u32);
    lemma_bit_pair128(x, y, 120u32);
    lemma_bit_pair128(x, y, 121u32);
    lemma_bit_pair128(x, y, 122u32);
    lemma_bit_pair128(x, y, 123u32);
    lemma_bit_pair128(x, y, 124u32);
    lemma_bit_pair128(x, y, 125u32);
    lemma_bit_pair128(x, y, 126u32);
    lemma_bit_pair128(x, y, 127u32);
    lemma_bits_ext128_bv(x, y);
}

/// An IPv6 address lies in an IPv6 network of prefix `p` (at most 128)
/// exactly when it agrees with the network's address on its first `p` bits.
pub proof fn lemma_v6_contains_bits(addr: u128, prefix: u8, a: u128)
    requires
        prefix <= 128,
    ensures
        network_contains(Network::V6 { addr, prefix }, IpAddress::V6(a)) <==> forall|i: u32|
            i < prefix ==> (#[trigger] bit128(a, i) <==> bit128(addr, i)),
{
    let m = v6_mask(prefix);
    lemma_v6_mask_bits(prefix);
    assert forall|i: u32| i < 128 implies (#[trigger] bit128(a & m, i) <==> (bit128(a, i) && bit128(m, i)))
        && (bit128(addr & m, i) <==> (bit128(addr, i) && bit128(m, i))) by {
        lemma_and_bit128(a, m, i);
        lemma_and_bit128(addr, m, i);
    }
    if (a & m) == (addr & m) {
        assert forall|i: u32| i < prefix implies (#[trigger] bit128(a, i) <==> bit128(addr, i)) by {
            assert(bit128(m, i));
            assert(bit128(a & m, i) == bit128(addr & m, i));
        }
    }
    if forall|i: u32| i < prefix ==> (#[trigger] bit128(a, i) <==> bit128(addr, i)) {
        assert forall|i: u32| i < 128 implies (#[trigger] bit128(a & m, i) <==> bit128(addr & m, i)) by {
            if i < prefix {
                assert(bit128(a, i) <==> bit128(addr, i));
            }
        }
        lemma_bits_ext128(a & m, addr & m);
    }
}

/// An address never lies in a network of the other family.
pub proof fn lemma_contains_same_family(n: Network, ip: IpAddress)
    ensures
        network_contains(n, ip) ==> (n is V4 <==> ip is V4),
{
}

impl Network {
    /// Whether `ip` lies in this network.
    pub fn contains(&self, ip: IpAddress) -> (r: bool)
        ensures
            r == network_contains(*self, ip),
    {
        match (*self, ip) {
            (Network::V4 { addr, prefix }, IpAddress::V4(a)) => {
                let m: u32 = if prefix >= 32 {
                    0xffff_ffff
                } else {
                    !(0xffff_ffffu32 >> prefix)
                };
                (a & m) == (addr & m)
            },
            (Network::V6 { addr, prefix }, IpAddress::V6(a)) => {
                let m: u128 = if prefix >= 128 {
                    0xffff_ffff_ffff_ffff_ffff_ffff_ffff_ffffu128
                } else {
                    !(0xffff_ffff_ffff_ffff_ffff_ffff_ffff_ffffu128 >> prefix)
                };
                (a & m) == (addr & m)
            },
            _ => false,
        }
    }
}

/// Name for what `str::parse::<IpNetwork>` gives for a text, as a plain
/// value (is IPv6, address, prefix); `None` when it is no network.
pub uninterp spec fn parsed_network(text: Seq<char>) -> Option<(bool, u128, u8)>;

/// What `str::parse::<IpNetwork>` gives for a text: nothing for an empty
/// text or one starting with `#` (no address begins so), otherwise the named
/// result.
pub open spec fn network_of_text(text: Seq<char>) -> Option<(bool, u128, u8)> {
    if text.len() == 0 || text[0] == '#' {
        None
    } else {
        parsed_network(text)
    }
}

/// Plain value of an optional network.
pub open spec fn network_opt_value(n: Option<Network>) -> Option<(bool, u128, u8)> {
    match n {
        Some(n) => Some(network_value(n)),
        None => None,
    }
}

/// Calls `text.parse::<ipnetwork::IpNetwork>()` and converts the result.
/// Claimed: the result depends on the text alone (it is only named); an
/// empty text, or one starting with `#`, is no network (the address part
/// before any `/` goes to `Ipv4Addr::from_str` and `Ipv6Addr::from_str`,
/// which accept neither); and a parsed prefix is at most 32 for IPv4 and 128
/// for IPv6, as `Ipv4Network::new` and `Ipv6Network::new` check.
#[verifier::external_body]
fn parse_network(text: &str) -> (r: Option<Network>)
    ensures
        text@.len() == 0 || text@[0] == '#' ==> r is None,
        !(text@.len() == 0 || text@[0] == '#') ==> network_opt_value(r) == parsed_network(text@),
        r matches Some(n) ==> network_wf(n),
{
    match text.parse::<IpNetwork>() {
        Ok(IpNetwork::V4(n)) => Some(Network::V4 { addr: u32::from(n.ip()), prefix: n.prefix() }),
        Ok(IpNetwork::V6(n)) => Some(Network::V6 { addr: u128::from(n.ip()), prefix: n.prefix() }),
        Err(_) => None,
    }
}

/// The networks named by the lines of a text.
pub open spec fn networks_of(lines: Seq<Seq<char>>) -> Seq<(bool, u128, u8)>
    decreases lines.len(),
{
    if lines.len() == 0 {
        Seq::empty()
    } else {
        let acc = networks_of(lines.drop_last());
        match network_of_text(lines.last()) {
            Some(n) => acc.push(n),
            None => acc,
        }
    }
}

/// Networks of a CIDR text: its non-blank, non-comment lines (trimmed) that
/// parse as networks, in order.
pub open spec fn parse_networks_spec(body: Seq<char>) -> Seq<(bool, u128, u8)> {
    networks_of(source_lines(split(body, '\n')))
}

/// Plain values of networks.
pub open spec fn networks_value(v: Seq<Network>) -> Seq<(bool, u128, u8)> {
    v.map_values(|n: Network| network_value(n))
}

/// Parse CIDR lines, ignoring blanks and `#` comments.
pub fn parse_networks(body: &str) -> (r: Vec<Network>)
    ensures
        networks_value(r@) == parse_networks_spec(body@),
        forall|i: int| 0 <= i < r@.len() ==> network_wf(#[trigger] r@[i]),
{
    let lines = crate::sources::parse_source_list(body);
    let mut out: Vec<Network> = Vec::new();
    let mut i: usize = 0;
    assert(networks_value(out@) =~= networks_of(strings_view(lines@).take(0)));
    while i < lines.len()
        invariant
            0 <= i <= lines.len(),
            networks_value(out@) == networks_of(strings_view(lines@).take(i as int)),
            forall|k: int| 0 <= k < out@.len() ==> network_wf(#[trigger] out@[k]),
        decreases lines.len() - i,
    {
        let ghost before = out@;
        let ghost ls = strings_view(lines@);
        assert(ls.take(i + 1).drop_last() =~= ls.take(i as int));
        assert(ls.take(i + 1).last() == lines@[i as int]@);
        match parse_network(lines[i].as_str()) {
            Some(n) => {
                out.push(n);
                assert(networks_value(out@) =~= networks_value(before).push(network_value(n)));
            },
            None => {},
        }
        i = i + 1;
    }
    assert(strings_view(lines@).take(lines@.len() as int) =~= strings_view(lines@));
    out
}

/// One provider and its networks.
#[derive(Debug)]
struct ProviderEntry {
    name: String,
    networks: Vec<Network>,
}

/// A set of providers and their networks, queryable by IP.
#[derive(Debug)]
pub struct ProviderDb {
    entries: Vec<ProviderEntry>,
}

/// Abstract value of the database: each provider's name and networks.
pub type DbView = Seq<(Seq<char>, Seq<Network>)>;

impl View for ProviderDb {
    type V = DbView;

    closed spec fn view(&self) -> DbView {
        self.entries@.map_values(|e: ProviderEntry| (e.name@, e.networks@))
    }
}

/// Database built from `(provider, text)` files.
pub open spec fn db_matches_files(db: DbView, files: Seq<(Seq<char>, Seq<char>)>) -> bool {
    &&& db.len() == files.len()
    &&& forall|i: int|
        0 <= i < db.len() ==> #[trigger] db[i].0 == files[i].0 && networks_value(db[i].1)
            == parse_networks_spec(files[i].1)
}

/// Names of the providers whose ranges are meant to be built in. Their
/// range texts are empty: ranges are loaded from a directory.
pub open spec fn embedded_files() -> Seq<(Seq<char>, Seq<char>)> {
    seq![
        ("vk"@, Seq::<char>::empty()),
        ("yandex"@, Seq::<char>::empty()),
        ("mts"@, Seq::<char>::empty()),
        ("beeline"@, Seq::<char>::empty()),
        ("megafon"@, Seq::<char>::empty()),
        ("rostelecom"@, Seq::<char>::empty()),
        ("tele2"@, Seq::<char>::empty()),
        ("ertelecom"@, Seq::<char>::empty()),
        ("ttk"@, Seq::<char>::empty()),
    ]
}

/// Stem of a directory entry's name when its extension is `txt`, as
/// `Path::extension` and `Path::file_stem` split a name: at the last `.`,
/// which must not be the first character.
pub open spec fn txt_stem(name: Seq<char>) -> Option<Seq<char>> {
    match last_index_of(name, '.') {
        Some(i) => if i > 0 && name.skip(i + 1) == seq!['t', 'x', 't'] {
            Some(name.take(i))
        } else {
            None
        },
        None => None,
    }
}

/// The names among `names` that have the extension `txt`, in order.
pub open spec fn txt_names(names: Seq<Seq<char>>) -> Seq<Seq<char>>
    decreases names.len(),
{
    if names.len() == 0 {
        Seq::empty()
    } else if txt_stem(names.last()) is Some {
        txt_names(names.drop_last()).push(names.last())
    } else {
        txt_names(names.drop_last())
    }
}

/// File names of `(file name, stem)` pairs.
pub open spec fn pair_names(v: Seq<(String, String)>) -> Seq<Seq<char>> {
    v.map_values(|e: (String, String)| e.0@)
}

/// The stem of a name with the extension `txt`, `None` for other names.
fn txt_stem_of(name: &str) -> (r: Option<String>)
    ensures
        match r {
            Some(t) => txt_stem(name@) == Some(t@),
            None => txt_stem(name@) is None,
        },
{
    let cs = chars_of(name);
    match rfind_char(&cs, '.') {
        Some(i) => {
            let ext = slice_copy(&cs, i + 1, cs.len());
            let txt = vec!['t', 'x', 't'];
            assert(ext@ =~= cs@.skip(i + 1));
            if i > 0 && chars_eq(&ext, &txt) {
                let stem = slice_copy(&cs, 0, i);
                assert(stem@ =~= cs@.take(i as int));
                Some(string_of(&stem))
            } else {
                None
            }
        },
        None => None,
    }
}

/// The `.txt` entries of a directory listing, as `(file name, stem)` pairs
/// in ascending order of the file names (the order of the sorted paths of
/// one directory); each entry is kept as often as it is listed.
pub fn provider_file_names(names: &Vec<String>) -> (r: Vec<(String, String)>)
    ensures
        forall|a: int, b: int|
            0 <= a < b < r@.len() ==> !seq_lt(#[trigger] r@[b].0@, #[trigger] r@[a].0@),
        pair_names(r@).to_multiset() == txt_names(strings_view(names@)).to_multiset(),
        forall|i: int| 0 <= i < r@.len() ==> txt_stem((#[trigger] r@[i]).0@) == Some(r@[i].1@),
{
    broadcast use vstd::seq_lib::group_to_multiset_ensures;

    let ghost ns = strings_view(names@);
    let mut out: Vec<(String, String)> = Vec::new();
    let mut i: usize = 0;
    assert(pair_names(out@) =~= txt_names(ns.take(0)));
    while i < names.len()
        invariant
            0 <= i <= names@.len(),
            ns == strings_view(names@),
            forall|a: int, b: int|
                0 <= a < b < out@.len() ==> !seq_lt(#[trigger] out@[b].0@, #[trigger] out@[a].0@),
            pair_names(out@).to_multiset() == txt_names(ns.take(i as int)).to_multiset(),
            forall|k: int| 0 <= k < out@.len() ==> txt_stem((#[trigger] out@[k]).0@) == Some(
                out@[k].1@,
            ),
        decreases names.len() - i,
    {
        let ghost before = out@;
        proof {
            assert(ns.take(i + 1).drop_last() =~= ns.take(i as int));
            assert(ns.take(i + 1).last() == names@[i as int]@);
        }
        match txt_stem_of(names[i].as_str()) {
            Some(stem) => {
                let x = chars_of(names[i].as_str());
                let mut j: usize = 0;
                while j < out.len() && !chars_lt(&x, &chars_of(out[j].0.as_str()))
                    invariant
                        0 <= j <= out@.len(),
                        i < names@.len(),
                        out@ == before,
                        x@ == names@[i as int]@,
                        forall|m: int| 0 <= m < j ==> !seq_lt(x@, (#[trigger] out@[m]).0@),
                    decreases out.len() - j,
                {
                    j = j + 1;
                }
                out.insert(j, (names[i].clone(), stem));
                proof {
                    let xv = x@;
                    assert(out@[j as int].0@ == xv);
                    assert forall|a: int, b: int|
                        0 <= a < b < out@.len() implies !seq_lt(
                        #[trigger] out@[b].0@,
                        #[trigger] out@[a].0@,
                    ) by {
                        if b < j {
                            assert(out@[a] == before[a] && out@[b] == before[b]);
                        } else if b == j {
                            assert(out@[a] == before[a]);
                        } else if a == j {
                            assert(out@[b] == before[b - 1]);
                            assert(seq_lt(xv, before[j as int].0@));
                            if b - 1 > j {
                                assert(!seq_lt(before[b - 1].0@, before[j as int].0@));
                                lemma_seq_lt_total(before[b - 1].0@, before[j as int].0@);
                                if before[b - 1].0@ != before[j as int].0@ {
                                    lemma_seq_lt_transitive(xv, before[j as int].0@, before[b - 1].0@);
                                }
                            }
                            if seq_lt(before[b - 1].0@, xv) {
                                lemma_seq_lt_transitive(xv, before[b - 1].0@, xv);
                                lemma_seq_lt_irreflexive(xv);
                            }
                        } else if a < j {
                            assert(out@[a] == before[a] && out@[b] == before[b - 1]);
                        } else {
                            assert(out@[a] == before[a - 1] && out@[b] == before[b - 1]);
                        }
                    }
                    assert(pair_names(out@) =~= pair_names(before).insert(j as int, xv));
                    assert(txt_names(ns.take(i + 1)) == txt_names(ns.take(i as int)).push(xv));
                    vstd::seq_lib::to_multiset_insert(pair_names(before), j as int, xv);
                    vstd::seq_lib::to_multiset_build(txt_names(ns.take(i as int)), xv);
                    assert(pair_names(out@).to_multiset() == pair_names(before).to_multiset().insert(
                        xv,
                    ));
                    assert(txt_names(ns.take(i + 1)).to_multiset() == txt_names(
                        ns.take(i as int),
                    ).to_multiset().insert(xv));
                    assert forall|k: int| 0 <= k < out@.len() implies txt_stem(
                        (#[trigger] out@[k]).0@,
                    ) == Some(out@[k].1@) by {
                        if k < j {
                            assert(out@[k] == before[k]);
                        } else if k > j {
                            assert(out@[k] == before[k - 1]);
                        }
                    }
                }
            },
            None => {
                assert(txt_names(ns.take(i + 1)) == txt_names(ns.take(i as int)));
            },
        }
        i = i + 1;
    }
    assert(ns.take(names@.len() as int) =~= ns);
    out
}

/// Whether one of the networks contains `ip`.
pub open spec fn any_contains(nets: Seq<Network>, ip: IpAddress) -> bool {
    exists|i: int| 0 <= i < nets.len() && network_contains(#[trigger] nets[i], ip)
}

/// Name of the first provider with a network containing `ip`.
pub open spec fn first_match(db: DbView, ip: IpAddress) -> Option<Seq<char>>
    decreases db.len(),
{
    if db.len() == 0 {
        None
    } else if any_contains(db[0].1, ip) {
        Some(db[0].0)
    } else {
        first_match(db.drop_first(), ip)
    }
}

/// The provider an address is matched to has a range containing it and no
/// earlier provider has one; when there is no match, no range of any
/// provider contains the address.
pub proof fn lemma_first_match(db: DbView, ip: IpAddress)
    ensures
        match first_match(db, ip) {
            Some(name) => exists|i: int|
                0 <= i < db.len() && (#[trigger] db[i]).0 == name && any_contains(db[i].1, ip)
                    && forall|k: int| 0 <= k < i ==> !any_contains(#[trigger] db[k].1, ip),
            None => forall|i: int| 0 <= i < db.len() ==> !any_contains(#[trigger] db[i].1, ip),
        },
    decreases db.len(),
{
    if db.len() > 0 {
        let t = db.drop_first();
        lemma_first_match(t, ip);
        if any_contains(db[0].1, ip) {
            assert(db[0].0 == db[0].0);
        } else {
            match first_match(t, ip) {
                Some(name) => {
                    let i = choose|i: int|
                        0 <= i < t.len() && (#[trigger] t[i]).0 == name && any_contains(t[i].1, ip)
                            && forall|k: int| 0 <= k < i ==> !any_contains(#[trigger] t[k].1, ip);
                    assert(db[i + 1] == t[i]);
                    assert forall|k: int| 0 <= k < i + 1 implies !any_contains(
                        #[trigger] db[k].1,
                        ip,
                    ) by {
                        if k > 0 {
                            assert(db[k] == t[k - 1]);
                        }
                    }
                },
                None => {
                    assert forall|i: int| 0 <= i < db.len() implies !any_contains(
                        #[trigger] db[i].1,
                        ip,
                    ) by {
                        if i > 0 {
                            assert(db[i] == t[i - 1]);
                        }
                    }
                },
            }
        }
    }
}

/// Total number of networks.
pub open spec fn total_networks(db: DbView) -> nat
    decreases db.len(),
{
    if db.len() == 0 {
        0
    } else {
        total_networks(db.drop_last()) + db.last().1.len()
    }
}

/// Characters of each file's name and text.
pub open spec fn files_view(files: Seq<(String, String)>) -> Seq<(Seq<char>, Seq<char>)> {
    files.map_values(|f: (String, String)| (f.0@, f.1@))
}

impl ProviderDb {
    /// Build the database from `(provider, text)` files.
    pub fn from_texts(files: &Vec<(String, String)>) -> (r: Self)
        ensures
            db_matches_files(r@, files_view(files@)),
    {
        let mut entries: Vec<ProviderEntry> = Vec::new();
        let mut i: usize = 0;
        while i < files.len()
            invariant
                0 <= i <= files.len(),
                entries@.len() == i,
                forall|k: int|
                    0 <= k < i ==> #[trigger] entries@[k].name@ == files@[k].0@ && networks_value(
                        entries@[k].networks@,
                    ) == parse_networks_spec(files@[k].1@),
            decreases files.len() - i,
        {
            let name = string_of(&chars_of(files[i].0.as_str()));
            let networks = parse_networks(files[i].1.as_str());
            entries.push(ProviderEntry { name, networks });
            i = i + 1;
        }
        let r = ProviderDb { entries };
        assert forall|k: int| 0 <= k < r@.len() implies #[trigger] r@[k].0 == files_view(files@)[k].0
            && networks_value(r@[k].1) == parse_networks_spec(files_view(files@)[k].1) by {
            assert(r@[k] == (entries@[k].name@, entries@[k].networks@));
        }
        r
    }

    /// Build the database from the ranges embedded in the binary.
    pub fn embedded() -> (r: Self)
        ensures
            db_matches_files(r@, embedded_files()),
    {
        let files = vec![
            ("vk".to_owned(), String::new()),
            ("yandex".to_owned(), String::new()),
            ("mts".to_owned(), String::new()),
            ("beeline".to_owned(), String::new()),
            ("megafon".to_owned(), String::new()),
            ("rostelecom".to_owned(), String::new()),
            ("tele2".to_owned(), String::new()),
            ("ertelecom".to_owned(), String::new()),
            ("ttk".to_owned(), String::new()),
        ];
        assert(files_view(files@) =~= embedded_files());
        Self::from_texts(&files)
    }

    /// Database from the `(provider, text)` files of a directory, in the
    /// order given; the embedded ranges when there are none.
    pub fn from_files(files: &Vec<(String, String)>) -> (r: Self)
        ensures
            files@.len() == 0 ==> db_matches_files(r@, embedded_files()),
            files@.len() > 0 ==> db_matches_files(r@, files_view(files@)),
    {
        if files.len() == 0 {
            Self::embedded()
        } else {
            Self::from_texts(files)
        }
    }

    /// Return the name of the first provider whose ranges contain `ip`.
    pub fn match_ip(&self, ip: IpAddress) -> (r: Option<&str>)
        ensures
            match r {
                Some(name) => first_match(self@, ip) == Some(name@),
                None => first_match(self@, ip) is None,
            },
    {
        let mut i: usize = 0;
        assert(self@.skip(0) =~= self@);
        while i < self.entries.len()
            invariant
                0 <= i <= self.entries@.len(),
                self@.len() == self.entries@.len(),
                first_match(self@, ip) == first_match(self@.skip(i as int), ip),
            decreases self.entries.len() - i,
        {
            let e = &self.entries[i];
            let ghost rest = self@.skip(i as int);
            assert(rest[0] == (e.name@, e.networks@));
            assert(rest.drop_first() =~= self@.skip(i + 1));
            let mut k: usize = 0;
            let mut found = false;
            while k < e.networks.len()
                invariant
                    0 <= k <= e.networks@.len(),
                    found == exists|m: int| 0 <= m < k && network_contains(#[trigger] e.networks@[m], ip),
                decreases e.networks.len() - k,
            {
                if e.networks[k].contains(ip) {
                    found = true;
                }
                k = k + 1;
            }
            if found {
                return Some(e.name.as_str());
            }
            i = i + 1;
        }
        None
    }

    /// Total number of networks across all providers.
    pub fn len(&self) -> (r: usize)
        requires
            total_networks(self@) <= usize::MAX,
        ensures
            r == total_networks(self@),
    {
        let mut total: usize = 0;
        let mut i: usize = 0;
        while i < self.entries.len()
            invariant
                0 <= i <= self.entries@.len(),
                self@.len() == self.entries@.len(),
                total_networks(self@) <= usize::MAX,
                total == total_networks(self@.take(i as int)),
            decreases self.entries.len() - i,
        {
            proof {
                assert(self@.take(i + 1).drop_last() =~= self@.take(i as int));
                assert(self@.take(i + 1).last() == self@[i as int]);
                lemma_total_prefix(self@, i + 1);
            }
            total = total + self.entries[i].networks.len();
            i = i + 1;
        }
        assert(self@.take(self@.len() as int) =~= self@);
        total
    }

    /// Whether there are no networks at all.
    pub fn is_empty(&self) -> (r: bool)
        ensures
            r == (total_networks(self@) == 0),
    {
        let mut i: usize = 0;
        while i < self.entries.len()
            invariant
                0 <= i <= self.entries@.len(),
                self@.len() == self.entries@.len(),
                total_networks(self@.take(i as int)) == 0,
            decreases self.entries.len() - i,
        {
            proof {
                assert(self@.take(i + 1).drop_last() =~= self@.take(i as int));
                assert(self@.take(i + 1).last() == self@[i as int]);
            }
            if self.entries[i].networks.len() > 0 {
                proof {
                    lemma_total_prefix(self@, i + 1);
                }
                return false;
            }
            i = i + 1;
        }
        assert(self@.take(self@.len() as int) =~= self@);
        true
    }

    /// Providers and how many ranges each has (for logging).
    pub fn summary(&self) -> (r: Vec<(String, usize)>)
        ensures
            r@.len() == self@.len(),
            forall|i: int|
                0 <= i < r@.len() ==> (#[trigger] r@[i]).0@ == self@[i].0 && r@[i].1
                    == self@[i].1.len(),
    {
        let mut out: Vec<(String, usize)> = Vec::new();
        let mut i: usize = 0;
        while i < self.entries.len()
            invariant
                0 <= i <= self.entries@.len(),
                self@.len() == self.entries@.len(),
                out@.len() == i,
                forall|k: int|
                    0 <= k < i ==> (#[trigger] out@[k]).0@ == self@[k].0 && out@[k].1
                        == self@[k].1.len(),
            decreases self.entries.len() - i,
        {
            let e = &self.entries[i];
            assert(self@[i as int] == (e.name@, e.networks@));
            out.push((e.name.clone(), e.networks.len()));
            i = i + 1;
        }
        out
    }
}

/// A prefix of the database holds at most as many networks as the whole.
proof fn lemma_total_prefix(db: DbView, k: int)
    requires
        0 <= k <= db.len(),
    ensures
        total_networks(db.take(k)) <= total_networks(db),
    decreases db.len() - k,
{
    if k < db.len() {
        lemma_total_prefix(db, k + 1);
        assert(db.take(k + 1).drop_last() =~= db.take(k));
    } else {
        assert(db.take(k) =~= db);
    }
}


/// `AS<n>` for each ASN, joined by `, `.
pub open spec fn asn_list(asns: Seq<u32>) -> Seq<char>
    decreases asns.len(),
{
    if asns.len() == 0 {
        Seq::empty()
    } else if asns.len() == 1 {
        seq!['A', 'S'] + decimal(asns[0] as nat)
    } else {
        asn_list(asns.drop_last()) + seq![',', ' ', 'A', 'S'] + decimal(asns.last() as nat)
    }
}

/// Each prefix followed by a newline.
pub open spec fn prefix_lines(ps: Seq<Seq<char>>) -> Seq<char>
    decreases ps.len(),
{
    if ps.len() == 0 {
        Seq::empty()
    } else {
        prefix_lines(ps.drop_last()) + ps.last() + seq!['\n']
    }
}

/// The text of a provider's range file.
pub open spec fn provider_file(provider: Seq<char>, asns: Seq<u32>, prefixes: Seq<Seq<char>>) -> Seq<
    char,
> {
    "# Диапазоны "@ + provider + ". ASN: "@ + asn_list(asns)
        + ".\n# Обновление: hiddify-parser update-cidr\n"@ + prefix_lines(prefixes)
}

proof fn lemma_asn_list_lacks_newline(asns: Seq<u32>)
    ensures
        !asn_list(asns).contains('\n'),
    decreases asns.len(),
{
    if asns.len() == 1 {
        lemma_decimal_lacks(asns[0] as nat, '\n');
        lemma_concat_lacks(seq!['A', 'S'], decimal(asns[0] as nat), '\n');
    } else if asns.len() > 1 {
        lemma_asn_list_lacks_newline(asns.drop_last());
        lemma_decimal_lacks(asns.last() as nat, '\n');
        lemma_concat_lacks(asn_list(asns.drop_last()), seq![',', ' ', 'A', 'S'], '\n');
        lemma_concat_lacks(
            asn_list(asns.drop_last()) + seq![',', ' ', 'A', 'S'],
            decimal(asns.last() as nat),
            '\n',
        );
    }
}

proof fn lemma_split_prefix_lines(ps: Seq<Seq<char>>, tail: Seq<char>)
    requires
        forall|i: int| 0 <= i < ps.len() ==> !(#[trigger] ps[i]).contains('\n'),
    ensures
        split(prefix_lines(ps) + tail, '\n') == ps + split(tail, '\n'),
    decreases ps.len(),
{
    if ps.len() == 0 {
        assert(prefix_lines(ps) + tail =~= tail);
        assert(ps + split(tail, '\n') =~= split(tail, '\n'));
    } else {
        let init = ps.drop_last();
        let last = ps.last();
        let rest = last + seq!['\n'] + tail;
        assert forall|i: int| 0 <= i < init.len() implies !(#[trigger] init[i]).contains('\n') by {
            assert(init[i] == ps[i]);
        }
        lemma_split_prefix_lines(init, rest);
        assert(prefix_lines(ps) + tail =~= prefix_lines(init) + rest);
        lemma_split_concat(last, tail, '\n');
        lemma_split_single(last, '\n');
        assert(init + (seq![last] + split(tail, '\n')) =~= ps + split(tail, '\n'));
    }
}

proof fn lemma_networks_of_source_lines(ps: Seq<Seq<char>>)
    requires
        forall|i: int| 0 <= i < ps.len() ==> trim(#[trigger] ps[i]) == ps[i],
    ensures
        networks_of(source_lines(ps)) == networks_of(ps),
    decreases ps.len(),
{
    if ps.len() > 0 {
        let init = ps.drop_last();
        let l = ps.last();
        assert forall|i: int| 0 <= i < init.len() implies trim(#[trigger] init[i]) == init[i] by {
            assert(init[i] == ps[i]);
        }
        lemma_networks_of_source_lines(init);
        assert(trim(ps[ps.len() - 1]) == ps[ps.len() - 1]);
        if is_source_line(l) {
            let acc = source_lines(init);
            assert(acc.push(l).drop_last() =~= acc);
        }
    }
}

/// Convenience: serialize a provider->prefixes map back into the on-disk format.
pub fn render_provider_file(provider: &str, asns: &[u32], prefixes: &[String]) -> (r: String)
    ensures
        r@ == provider_file(provider@, asns@, strings_view(prefixes@)),
{
    let mut out = chars_of("# Диапазоны ");
    extend_chars(&mut out, &chars_of(provider));
    extend_chars(&mut out, &chars_of(". ASN: "));
    let ghost head = out@;
    let mut i: usize = 0;
    while i < asns.len()
        invariant
            0 <= i <= asns.len(),
            out@ == head + asn_list(asns@.take(i as int)),
        decreases asns.len() - i,
    {
        if i > 0 {
            out.push(',');
            out.push(' ');
        }
        out.push('A');
        out.push('S');
        push_decimal(&mut out, asns[i] as u128);
        proof {
            let t = asns@.take(i + 1);
            assert(t.drop_last() =~= asns@.take(i as int));
            assert(t.last() == asns@[i as int]);
            if i == 0 {
                assert(t.len() == 1);
            }
            assert(out@ =~= head + asn_list(t));
        }
        i = i + 1;
    }
    assert(asns@.take(asns.len() as int) =~= asns@);
    extend_chars(&mut out, &chars_of(".\n# Обновление: hiddify-parser update-cidr\n"));
    let ghost mid = out@;
    let mut k: usize = 0;
    while k < prefixes.len()
        invariant
            0 <= k <= prefixes.len(),
            out@ == mid + prefix_lines(strings_view(prefixes@).take(k as int)),
        decreases prefixes.len() - k,
    {
        extend_chars(&mut out, &chars_of(prefixes[k].as_str()));
        out.push('\n');
        proof {
            let t = strings_view(prefixes@).take(k + 1);
            assert(t.drop_last() =~= strings_view(prefixes@).take(k as int));
            assert(t.last() == prefixes@[k as int]@);
            assert(out@ =~= mid + prefix_lines(t));
        }
        k = k + 1;
    }
    assert(strings_view(prefixes@).take(prefixes.len() as int) =~= strings_view(prefixes@));
    assert(out@ =~= provider_file(provider@, asns@, strings_view(prefixes@)));
    string_of(&out)
}

/// Strictly ascending texts (hence distinct).
pub open spec fn strictly_sorted(s: Seq<Seq<char>>) -> bool {
    forall|i: int, j: int| 0 <= i < j < s.len() ==> seq_lt(#[trigger] s[i], #[trigger] s[j])
}

/// `p` is one of the texts of the batches and parses as a network.
pub open spec fn valid_prefix_in(batches: Seq<Seq<Seq<char>>>, p: Seq<char>) -> bool {
    &&& network_of_text(p) is Some
    &&& exists|b: int, i: int|
        0 <= b < batches.len() && 0 <= i < batches[b].len() && #[trigger] batches[b][i] == p
}

/// Characters of each text of each batch.
pub open spec fn batches_view(batches: Seq<Vec<String>>) -> Seq<Seq<Seq<char>>> {
    batches.map_values(|b: Vec<String>| strings_view(b@))
}

proof fn lemma_insert_unique(s: Seq<Seq<char>>, x: Seq<char>, j: int)
    requires
        strictly_sorted(s),
        0 <= j <= s.len(),
        forall|i: int| 0 <= i < j ==> seq_lt(#[trigger] s[i], x),
        j == s.len() || !seq_lt(s[j], x),
        j == s.len() || s[j] != x,
    ensures
        strictly_sorted(s.insert(j, x)),
        forall|y: Seq<char>| #[trigger] s.insert(j, x).contains(y) <==> s.contains(y) || y == x,
{
    let r = s.insert(j, x);
    if j < s.len() {
        lemma_seq_lt_total(s[j], x);
    }
    assert forall|a: int, b: int| 0 <= a < b < r.len() implies seq_lt(
        #[trigger] r[a],
        #[trigger] r[b],
    ) by {
        if b < j {
            assert(seq_lt(s[a], s[b]));
        } else if b == j {
            assert(r[a] == s[a]);
        } else if a < j {
            assert(r[b] == s[b - 1]);
            if b - 1 > j {
                assert(seq_lt(s[j], s[b - 1]));
                lemma_seq_lt_transitive(x, s[j], s[b - 1]);
            }
            lemma_seq_lt_transitive(s[a], x, s[b - 1]);
        } else if a == j {
            assert(r[b] == s[b - 1]);
            if b - 1 > j {
                assert(seq_lt(s[j], s[b - 1]));
                lemma_seq_lt_transitive(x, s[j], s[b - 1]);
            }
        } else {
            assert(r[a] == s[a - 1]);
            assert(r[b] == s[b - 1]);
            assert(seq_lt(s[a - 1], s[b - 1]));
        }
    }
    assert forall|y: Seq<char>| #[trigger] r.contains(y) <==> s.contains(y) || y == x by {
        if r.contains(y) {
            let k = choose|k: int| 0 <= k < r.len() && r[k] == y;
            if k < j {
                assert(s[k] == y);
            } else if k > j {
                assert(s[k - 1] == y);
            }
        }
        if s.contains(y) {
            let k = choose|k: int| 0 <= k < s.len() && s[k] == y;
            if k < j {
                assert(r[k] == y);
            } else {
                assert(r[k + 1] == y);
            }
        }
        if y == x {
            assert(r[j] == x);
        }
    }
}

/// Adds `x` to a strictly sorted list unless it is there.
fn insert_unique(out: &mut Vec<String>, x: String)
    requires
        strictly_sorted(strings_view(old(out)@)),
    ensures
        strictly_sorted(strings_view(final(out)@)),
        forall|y: Seq<char>| #[trigger] strings_view(final(out)@).contains(y) <==> strings_view(
            old(out)@,
        ).contains(y) || y == x@,
{
    let ghost s = strings_view(out@);
    let xc = chars_of(x.as_str());
    let mut j: usize = 0;
    while j < out.len() && chars_lt(&chars_of(out[j].as_str()), &xc)
        invariant
            0 <= j <= out@.len(),
            s == strings_view(out@),
            s.len() == out@.len(),
            xc@ == x@,
            forall|i: int| 0 <= i < j ==> seq_lt(#[trigger] s[i], x@),
        decreases out.len() - j,
    {
        j = j + 1;
    }
    if j < out.len() && chars_eq(&chars_of(out[j].as_str()), &xc) {
        assert(s[j as int] == x@);
        assert forall|y: Seq<char>| #[trigger] s.contains(y) <==> s.contains(y) || y == x@ by {
            if y == x@ {
                assert(s[j as int] == y);
            }
        }
        return ;
    }
    proof {
        lemma_insert_unique(s, x@, j as int);
    }
    out.insert(j, x);
    assert(strings_view(out@) =~= s.insert(j as int, x@));
}

/// The texts of the batches that parse as networks, sorted ascending and
/// without repeats (the result of `sort` followed by `dedup`).
pub fn collect_prefixes(batches: &Vec<Vec<String>>) -> (r: Vec<String>)
    ensures
        strictly_sorted(strings_view(r@)),
        forall|p: Seq<char>| #[trigger]
            strings_view(r@).contains(p) <==> valid_prefix_in(batches_view(batches@), p),
{
    let ghost bv = batches_view(batches@);
    let mut out: Vec<String> = Vec::new();
    let mut b: usize = 0;
    while b < batches.len()
        invariant
            0 <= b <= batches@.len(),
            bv == batches_view(batches@),
            strictly_sorted(strings_view(out@)),
            forall|p: Seq<char>| #[trigger]
                strings_view(out@).contains(p) <==> (network_of_text(p) is Some && exists|
                    x: int,
                    y: int,
                | 0 <= x < b && 0 <= y < bv[x].len() && #[trigger] bv[x][y] == p),
        decreases batches.len() - b,
    {
        let batch = &batches[b];
        assert(bv[b as int] == strings_view(batch@));
        let mut i: usize = 0;
        while i < batch.len()
            invariant
                0 <= i <= batch@.len(),
                bv == batches_view(batches@),
                b < batches@.len(),
                bv[b as int] == strings_view(batch@),
                strictly_sorted(strings_view(out@)),
                forall|p: Seq<char>| #[trigger]
                    strings_view(out@).contains(p) <==> (network_of_text(p) is Some && ((exists|
                        x: int,
                        y: int,
                    | 0 <= x < b && 0 <= y < bv[x].len() && #[trigger] bv[x][y] == p) || exists|
                        y: int,
                    | 0 <= y < i && #[trigger] bv[b as int][y] == p)),
            decreases batch.len() - i,
        {
            let item = &batch[i];
            assert(bv[b as int][i as int] == item@);
            let ghost before = strings_view(out@);
            if parse_network(item.as_str()).is_some() {
                insert_unique(&mut out, item.clone());
            }
            assert forall|p: Seq<char>| #[trigger]
                strings_view(out@).contains(p) <==> (network_of_text(p) is Some && ((exists|
                    x: int,
                    y: int,
                | 0 <= x < b && 0 <= y < bv[x].len() && #[trigger] bv[x][y] == p) || exists|
                    y: int,
                | 0 <= y < i + 1 && #[trigger] bv[b as int][y] == p)) by {
                if exists|y: int| 0 <= y < i + 1 && #[trigger] bv[b as int][y] == p {
                    let y = choose|y: int| 0 <= y < i + 1 && #[trigger] bv[b as int][y] == p;
                    if y < i {
                        assert(exists|y2: int| 0 <= y2 < i && #[trigger] bv[b as int][y2] == p);
                    }
                }
                if exists|y: int| 0 <= y < i && #[trigger] bv[b as int][y] == p {
                    let y = choose|y: int| 0 <= y < i && #[trigger] bv[b as int][y] == p;
                    assert(0 <= y < i + 1);
                }
            }
            i = i + 1;
        }
        assert forall|p: Seq<char>| #[trigger]
            strings_view(out@).contains(p) <==> (network_of_text(p) is Some && exists|
                x: int,
                y: int,
            | 0 <= x < b + 1 && 0 <= y < bv[x].len() && #[trigger] bv[x][y] == p) by {
            if exists|x: int, y: int| 0 <= x < b + 1 && 0 <= y < bv[x].len() && #[trigger] bv[x][y]
                == p {
                let (x, y) = choose|x: int, y: int|
                    0 <= x < b + 1 && 0 <= y < bv[x].len() && #[trigger] bv[x][y] == p;
                if x == b {
                    assert(exists|y2: int| 0 <= y2 < batch@.len() && #[trigger] bv[b as int][y2] == p);
                } else {
                    assert(exists|x2: int, y2: int|
                        0 <= x2 < b && 0 <= y2 < bv[x2].len() && #[trigger] bv[x2][y2] == p);
                }
            }
        }
        b = b + 1;
    }
    out
}

/// A rendered range file reads back as the networks of its prefixes: the
/// header lines are comments and each prefix is one line. Holds for a
/// provider name without a newline and prefixes that hold no newline and
/// neither start nor end with white space.
pub proof fn lemma_provider_file_reads_back(
    provider: Seq<char>,
    asns: Seq<u32>,
    prefixes: Seq<Seq<char>>,
)
    requires
        !provider.contains('\n'),
        forall|i: int|
            0 <= i < prefixes.len() ==> !(#[trigger] prefixes[i]).contains('\n') && trim(
                prefixes[i],
            ) == prefixes[i],
    ensures
        parse_networks_spec(provider_file(provider, asns, prefixes)) == networks_of(prefixes),
{
    reveal_strlit("# Диапазоны ");
    reveal_strlit(". ASN: ");
    reveal_strlit(".\n# Обновление: hiddify-parser update-cidr\n");
    reveal_strlit("# Обновление: hiddify-parser update-cidr");
    let lead = "# Диапазоны "@;
    let mid = ". ASN: "@;
    let h1 = lead + provider + mid + asn_list(asns) + seq!['.'];
    let h2 = "# Обновление: hiddify-parser update-cidr"@;
    let body = prefix_lines(prefixes);
    assert(".\n# Обновление: hiddify-parser update-cidr\n"@ =~= seq!['.', '\n'] + h2 + seq!['\n']);
    assert(provider_file(provider, asns, prefixes) =~= h1 + seq!['\n'] + (h2 + seq!['\n'] + body));
    assert(!lead.contains('\n')) by {
        if lead.contains('\n') {
            let k = choose|k: int| 0 <= k < lead.len() && lead[k] == '\n';
        }
    }
    assert(!mid.contains('\n')) by {
        if mid.contains('\n') {
            let k = choose|k: int| 0 <= k < mid.len() && mid[k] == '\n';
        }
    }
    assert(!h2.contains('\n')) by {
        if h2.contains('\n') {
            let k = choose|k: int| 0 <= k < h2.len() && h2[k] == '\n';
        }
    }
    lemma_asn_list_lacks_newline(asns);
    lemma_concat_lacks(lead, provider, '\n');
    lemma_concat_lacks(lead + provider, mid, '\n');
    lemma_concat_lacks(lead + provider + mid, asn_list(asns), '\n');
    assert(!seq!['.'].contains('\n')) by {
        if seq!['.'].contains('\n') {
            let k = choose|k: int| 0 <= k < 1 && seq!['.'][k] == '\n';
        }
    }
    lemma_concat_lacks(lead + provider + mid + asn_list(asns), seq!['.'], '\n');
    lemma_split_concat(h1, h2 + seq!['\n'] + body, '\n');
    lemma_split_concat(h2, body, '\n');
    lemma_split_single(h1, '\n');
    lemma_split_single(h2, '\n');
    assert(body + Seq::<char>::empty() =~= body);
    lemma_split_prefix_lines(prefixes, Seq::<char>::empty());
    let e = Seq::<char>::empty();
    crate::text::lemma_index_of_none(e, '\n');
    assert(split(e, '\n') == seq![e]);
    let lines = split(provider_file(provider, asns, prefixes), '\n');
    assert(lines =~= seq![h1] + seq![h2] + prefixes + seq![e]);
    assert(h1[0] == '#');
    assert(h1.last() == '.');
    lemma_trim_noop(h1);
    lemma_trim_noop(h2);
    lemma_source_lines_concat(seq![h1] + seq![h2] + prefixes, seq![e]);
    lemma_source_lines_concat(seq![h1] + seq![h2], prefixes);
    lemma_source_lines_concat(seq![h1], seq![h2]);
    assert(seq![h1].drop_last() =~= Seq::<Seq<char>>::empty());
    assert(seq![h2].drop_last() =~= Seq::<Seq<char>>::empty());
    assert(seq![e].drop_last() =~= Seq::<Seq<char>>::empty());
    lemma_networks_of_source_lines(prefixes);
    assert(h2[0] == '#');
    assert(source_lines(Seq::<Seq<char>>::empty()) =~= Seq::<Seq<char>>::empty());
    assert(seq![h1].last() == h1);
    assert(seq![h2].last() == h2);
    assert(seq![e].last() == e);
    assert(trim(h1)[0] == '#');
    assert(trim(h2)[0] == '#');
    assert(source_lines(seq![h1]) =~= Seq::<Seq<char>>::empty());
    assert(source_lines(seq![h2]) =~= Seq::<Seq<char>>::empty());
    assert(trim(e) =~= e);
    assert(source_lines(seq![e]) =~= Seq::<Seq<char>>::empty());
    assert(source_lines(lines) =~= source_lines(prefixes));
}

/// Names of the providers and their autonomous systems, in the order the
/// range files are refreshed.
pub open spec fn provider_asn_table() -> Seq<(Seq<char>, Seq<u32>)> {
    seq![
        ("vk"@, seq![47764u32, 47541, 47542, 28709]),
        ("yandex"@, seq![13238u32, 200350]),
        ("mts"@, seq![8359u32, 25513]),
        ("beeline"@, seq![3216u32, 8402, 16345]),
        ("megafon"@, seq![31133u32, 25159, 31163]),
        ("rostelecom"@, seq![12389u32, 42610, 8997]),
        ("tele2"@, seq![48092u32, 41330]),
        ("ertelecom"@, seq![9049u32, 50543, 39435]),
        ("ttk"@, seq![20485u32]),
    ]
}

/// Plain value of an ASN table.
pub open spec fn asn_table_view(t: Seq<(String, Vec<u32>)>) -> Seq<(Seq<char>, Seq<u32>)> {
    t.map_values(|e: (String, Vec<u32>)| (e.0@, e.1@))
}

/// ASNs of each provider, used by `update-cidr` to fetch prefixes from RIPEstat.
pub fn provider_asns() -> (r: Vec<(String, Vec<u32>)>)
    ensures
        asn_table_view(r@) == provider_asn_table(),
{
    let r = vec![
        ("vk".to_owned(), vec![47764u32, 47541, 47542, 28709]),
        ("yandex".to_owned(), vec![13238u32, 200350]),
        ("mts".to_owned(), vec![8359u32, 25513]),
        ("beeline".to_owned(), vec![3216u32, 8402, 16345]),
        ("megafon".to_owned(), vec![31133u32, 25159, 31163]),
        ("rostelecom".to_owned(), vec![12389u32, 42610, 8997]),
        ("tele2".to_owned(), vec![48092u32, 41330]),
        ("ertelecom".to_owned(), vec![9049u32, 50543, 39435]),
        ("ttk".to_owned(), vec![20485u32]),
    ];
    let ghost t = provider_asn_table();
    assert forall|i: int| 0 <= i < 9 implies #[trigger] asn_table_view(r@)[i] == t[i] by {
        assert(r@[i].1@ =~= t[i].1);
    }
    assert(asn_table_view(r@) =~= t);
    r
}

} // verus!
