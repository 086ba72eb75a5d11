//! The 32-bit FNV-1a checksum that closes the handshake header.

use vstd::arithmetic::div_mod::*;
use vstd::prelude::*;

verus! {

/// The value the hash starts from.
pub const FNV_OFFSET_BASIS: u32 = 0x811c_9dc5;

/// The multiplier of each round.
pub const FNV_PRIME: u32 = 0x0100_0193;

/// One round: the byte is xored into the low bits, then the state is
/// multiplied by the prime, modulo 2^32.
pub open spec fn fnv1a32_round(h: u32, b: u8) -> u32 {
    (((h ^ (b as u32)) * FNV_PRIME) % 0x1_0000_0000) as u32
}

/// FNV-1a over `data`: the rounds applied from the first byte to the last.
pub open spec fn fnv1a32(data: Seq<u8>) -> u32
    decreases data.len(),
{
    if data.len() == 0 {
        FNV_OFFSET_BASIS
    } else {
        fnv1a32_round(fnv1a32(data.drop_last()), data.last())
    }
}

/// The four bytes of `v`, most significant first.
pub open spec fn be32(v: u32) -> Seq<u8> {
    seq![
        (v / 0x100_0000) as u8,
        (v / 0x1_0000 % 0x100) as u8,
        (v / 0x100 % 0x100) as u8,
        (v % 0x100) as u8,
    ]
}

/// The value that four big-endian bytes stand for.
pub open spec fn be32_value(b: Seq<u8>) -> int
    recommends
        b.len() == 4,
{
    b[0] * 0x100_0000 + b[1] * 0x1_0000 + b[2] * 0x100 + b[3]
}

proof fn lemma_round_matches_wrapping_mul(h: u32, b: u8)
    ensures
        (h ^ (b as u32)).wrapping_mul(FNV_PRIME) == fnv1a32_round(h, b),
{
    let x: u32 = h ^ (b as u32);
    let m: u32 = x.wrapping_mul(FNV_PRIME);
    assert(m as int == (x as int * FNV_PRIME as int) % 0x1_0000_0000) by {
        if x as int * FNV_PRIME as int > u32::MAX as int {
        } else {
            lemma_small_mod((x as int * FNV_PRIME as int) as nat, 0x1_0000_0000);
        }
    }
}

/// Computes the FNV-1a 32-bit hash of `data`.
pub fn fnv1a32_hash(data: &[u8]) -> (h: u32)
    ensures
        h == fnv1a32(data@),
{
    let mut h: u32 = FNV_OFFSET_BASIS;
    let mut i: usize = 0;
    while i < data.len()
        invariant
            i <= data.len(),
            h == fnv1a32(data@.take(i as int)),
        decreases data.len() - i,
    {
        proof {
            lemma_round_matches_wrapping_mul(h, data[i as int]);
            assert(data@.take(i + 1).drop_last() == data@.take(i as int));
        }
        h = (h ^ (data[i] as u32)).wrapping_mul(FNV_PRIME);
        i += 1;
    }
    proof {
        assert(data@.take(i as int) == data@);
    }
    h
}

/// Writes `v` as four bytes, most significant first.
pub fn be32_bytes(v: u32) -> (b: [u8; 4])
    ensures
        b@ == be32(v),
        be32_value(b@) == v,
{
    let b: [u8; 4] = [
        (v / 0x100_0000) as u8,
        (v / 0x1_0000 % 0x100) as u8,
        (v / 0x100 % 0x100) as u8,
        (v % 0x100) as u8,
    ];
    proof {
        assert(b@ =~= be32(v));
    }
    b
}

proof fn lemma_xor_byte_injective(h: u32, a: u8, b: u8)
    requires
        a != b,
    ensures
        h ^ (a as u32) != h ^ (b as u32),
{
    assert(a != b ==> h ^ (a as u32) != h ^ (b as u32)) by (bit_vector);
}

proof fn lemma_xor_state_injective(g: u32, h: u32, b: u8)
    requires
        g != h,
    ensures
        g ^ (b as u32) != h ^ (b as u32),
{
    assert(g != h ==> g ^ (b as u32) != h ^ (b as u32)) by (bit_vector);
}

/// Multiplying by the prime modulo 2^32 loses nothing: the prime is odd, and
/// 899433627 undoes it.
proof fn lemma_prime_product_injective(x: int, y: int)
    requires
        0 <= x < 0x1_0000_0000,
        0 <= y < 0x1_0000_0000,
        (x * 16777619) % 0x1_0000_0000 == (y * 16777619) % 0x1_0000_0000,
    ensures
        x == y,
{
    lemma_prime_product_undone(x);
    lemma_prime_product_undone(y);
}

proof fn lemma_prime_product_undone(x: int)
    requires
        0 <= x < 0x1_0000_0000,
    ensures
        ((x * 16777619) % 0x1_0000_0000 * 899433627) % 0x1_0000_0000 == x,
{
    let m: int = 0x1_0000_0000;
    lemma_mul_mod_noop_left(x * 16777619, 899433627, m);
    assert(x * 16777619 * 899433627 == x * 15090354709594113) by (nonlinear_arith);
    assert(x * 15090354709594113 == 0x1_0000_0000 * (x * 3513497) + x) by (nonlinear_arith);
    lemma_mod_multiples_vanish(x * 3513497, x, m);
    lemma_small_mod(x as nat, m as nat);
}

proof fn lemma_round_injective_in_byte(h: u32, a: u8, b: u8)
    requires
        a != b,
    ensures
        fnv1a32_round(h, a) != fnv1a32_round(h, b),
{
    lemma_xor_byte_injective(h, a, b);
    if fnv1a32_round(h, a) == fnv1a32_round(h, b) {
        lemma_prime_product_injective((h ^ (a as u32)) as int, (h ^ (b as u32)) as int);
    }
}

proof fn lemma_round_injective_in_state(g: u32, h: u32, b: u8)
    requires
        g != h,
    ensures
        fnv1a32_round(g, b) != fnv1a32_round(h, b),
{
    lemma_xor_state_injective(g, h, b);
    if fnv1a32_round(g, b) == fnv1a32_round(h, b) {
        lemma_prime_product_injective((g ^ (b as u32)) as int, (h ^ (b as u32)) as int);
    }
}

/// Changing any one byte of the input changes the checksum.
pub proof fn lemma_checksum_detects_byte_change(data: Seq<u8>, i: int, b: u8)
    requires
        0 <= i < data.len(),
        b != data[i],
    ensures
        fnv1a32(data.update(i, b)) != fnv1a32(data),
    decreases data.len(),
{
    let changed = data.update(i, b);
    if i == data.len() - 1 {
        assert(changed.drop_last() == data.drop_last());
        lemma_round_injective_in_byte(fnv1a32(data.drop_last()), b, data[i]);
    } else {
        assert(changed.drop_last() == data.drop_last().update(i, b));
        lemma_checksum_detects_byte_change(data.drop_last(), i, b);
        lemma_round_injective_in_state(
            fnv1a32(changed.drop_last()),
            fnv1a32(data.drop_last()),
            data.last(),
        );
    }
}

} // verus!
