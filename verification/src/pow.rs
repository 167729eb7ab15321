//! The proof of work: a nonce is a solution when the SHA-256 digest of the
//! challenge prefix followed by the nonce ends in enough zero bits.
use sha2::{Digest, Sha256};
use vstd::arithmetic::div_mod::{
    lemma_div_denominator, lemma_fundamental_div_mod, lemma_mod_multiples_basic,
    lemma_mod_multiples_vanish, lemma_small_mod, lemma_truncate_middle,
};
use vstd::arithmetic::mul::{lemma_mul_is_associative, lemma_mul_is_commutative};
use vstd::arithmetic::power::{lemma_pow_positive, pow};
use vstd::arithmetic::power2::{
    lemma2_to64, lemma_pow2_adds, lemma_pow2_pos, lemma_pow2_strictly_increases, pow2,
};
use vstd::bits::lemma_u16_shl_is_mul;
use vstd::prelude::*;
use vstd::std_specs::bits::{axiom_u8_trailing_zeros, u8_trailing_zeros};

verus! {

/// The number of zero bits at the end of `bytes`, the first byte being the most significant one.
pub open spec fn zero_tail(bytes: Seq<u8>) -> nat
    decreases bytes.len(),
{
    if bytes.len() == 0 {
        0
    } else if bytes.last() == 0 {
        8 + zero_tail(bytes.drop_last())
    } else {
        u8_trailing_zeros(bytes.last()) as nat
    }
}

/// `bytes` read as one big-endian number.
pub open spec fn big_endian(bytes: Seq<u8>) -> nat
    decreases bytes.len(),
{
    if bytes.len() == 0 {
        0
    } else {
        big_endian(bytes.drop_last()) * 256 + bytes.last() as nat
    }
}

/// The `width` low bytes of `n`, the least significant one first.
pub open spec fn le_bytes(n: nat, width: nat) -> Seq<u8>
    decreases width,
{
    if width == 0 {
        Seq::empty()
    } else {
        seq![(n % 256) as u8] + le_bytes(n / 256, (width - 1) as nat)
    }
}

/// The digest that SHA-256 gives for `data`.
pub uninterp spec fn sha256_digest(data: Seq<u8>) -> Seq<u8>;

/// The number of bytes from which on the bit length of a message does not fit in 64 bits.
pub const MESSAGE_LIMIT: u64 = 0x2000_0000_0000_0000;

/// How many bits a digest has.
pub const DIGEST_BITS: u32 = 256;

/// The message that is hashed for `nonce`: the challenge prefix, then the nonce in eight
/// little-endian bytes.
pub open spec fn message(prefix: Seq<u8>, nonce: u64) -> Seq<u8> {
    prefix + le_bytes(nonce as nat, 8)
}

/// A message made of a prefix of `prefix_len` bytes and a nonce can be held and hashed.
pub open spec fn message_fits(prefix_len: nat) -> bool {
    prefix_len + 8 <= usize::MAX && prefix_len + 8 < MESSAGE_LIMIT
}

/// `nonce` solves the challenge: the digest of its message ends in at least `difficulty` zero bits.
pub open spec fn solves(prefix: Seq<u8>, difficulty: u32, nonce: u64) -> bool {
    zero_tail(sha256_digest(message(prefix, nonce))) >= difficulty
}

/// Calls `sha2::Sha256::digest`. The result is taken to be a function of the bytes of `data`
/// alone and 32 bytes long. The length limit keeps the 64-bit count of message bits, which the
/// hasher computes, from overflowing. What the 32 bytes are is not stated.
#[verifier::external_body]
fn sha256(data: &[u8]) -> (digest: [u8; 32])
    requires
        data@.len() < MESSAGE_LIMIT,
    ensures
        digest@ == sha256_digest(data@),
        digest@.len() == 32,
{
    Sha256::digest(data).into()
}

/// Counts the zero bits at the end of `hash`.
pub fn trailing_zero_bits(hash: &[u8]) -> (count: u32)
    requires
        zero_tail(hash@) <= u32::MAX,
    ensures
        count == zero_tail(hash@),
{
    let mut count: u32 = 0;
    let mut i: usize = hash.len();
    assert(hash@.take(i as int) =~= hash@);
    while i > 0
        invariant
            i <= hash.len(),
            zero_tail(hash@) <= u32::MAX,
            count + zero_tail(hash@.take(i as int)) == zero_tail(hash@),
        decreases i,
    {
        let byte = hash[i - 1];
        assert(hash@.take(i as int).drop_last() =~= hash@.take(i - 1));
        assert(hash@.take(i as int).last() == byte);
        if byte == 0 {
            count = count + 8;
        } else {
            return count + byte.trailing_zeros();
        }
        i = i - 1;
    }
    count
}

/// A tail of zero bits is no longer than the bytes themselves.
pub proof fn lemma_zero_tail_bound(bytes: Seq<u8>)
    ensures
        zero_tail(bytes) <= 8 * bytes.len(),
    decreases bytes.len(),
{
    if bytes.len() > 0 {
        axiom_u8_trailing_zeros(bytes.last());
        lemma_zero_tail_bound(bytes.drop_last());
    }
}

proof fn lemma_le_bytes_len(n: nat, width: nat)
    ensures
        le_bytes(n, width).len() == width,
    decreases width,
{
    if width > 0 {
        lemma_le_bytes_len(n / 256, (width - 1) as nat);
    }
}

/// Puts the little-endian bytes of `nonce` into the last eight places of `buf`.
pub fn write_nonce(buf: &mut Vec<u8>, nonce: u64)
    requires
        old(buf)@.len() >= 8,
    ensures
        final(buf)@ == message(old(buf)@.take(old(buf)@.len() - 8), nonce),
        final(buf)@.len() == old(buf)@.len(),
        forall|i: int| 0 <= i < old(buf)@.len() - 8 ==> #[trigger] final(buf)@[i] == old(buf)@[i],
        forall|e: nat|
            e < 8 ==> final(buf)@[old(buf)@.len() - 8 + e] == (nonce as int / #[trigger] pow(256, e))
                % 256,
{
    let len = buf.len();
    let ghost prefix = buf@.take(len - 8);
    let mut rest: u64 = nonce;
    let mut j: usize = 0;
    while j < 8
        invariant
            j <= 8,
            len >= 8,
            buf@.len() == len,
            prefix.len() == len - 8,
            prefix + le_bytes(nonce as nat, 8) == buf@.take(len - 8 + j) + le_bytes(
                rest as nat,
                (8 - j) as nat,
            ),
        decreases 8 - j,
    {
        let ghost before = buf@;
        let byte: u8 = (rest % 256) as u8;
        buf.set(len - 8 + j, byte);
        assert(buf@.take(len - 8 + j + 1) =~= before.take(len - 8 + j).push(byte));
        proof {
            reveal_with_fuel(le_bytes, 2);
            assert(before.take(len - 8 + j) + le_bytes(rest as nat, (8 - j) as nat)
                =~= buf@.take(len - 8 + j + 1) + le_bytes(rest as nat / 256, (8 - j - 1) as nat));
        }
        rest = rest / 256;
        j = j + 1;
    }
    assert(buf@.take(len as int) =~= buf@);
    assert(buf@ + le_bytes(rest as nat, 0) =~= buf@);
    proof {
        law_message_bytes(prefix, nonce);
    }
}

/// Hashes the message in `buf` and tells whether its digest ends in at least `difficulty` zero
/// bits. No digest ends in more of them than it has bits.
pub fn message_solves(buf: &[u8], difficulty: u32) -> (solved: bool)
    requires
        buf@.len() < MESSAGE_LIMIT,
    ensures
        solved == (zero_tail(sha256_digest(buf@)) >= difficulty),
        solved ==> difficulty <= DIGEST_BITS,
{
    let digest = sha256(buf);
    proof {
        lemma_zero_tail_bound(digest@);
    }
    digest_solves(&digest, difficulty)
}

/// Tells whether `digest` ends in at least `difficulty` zero bits.
pub fn digest_solves(digest: &[u8], difficulty: u32) -> (solved: bool)
    requires
        zero_tail(digest@) <= u32::MAX,
    ensures
        solved == (zero_tail(digest@) >= difficulty),
{
    trailing_zero_bits(digest) >= difficulty
}

/// Each byte of a message by its place: the prefix comes first, as it is, and the eight bytes after
/// it are the digits of the nonce in base 256, the lowest one first.
pub proof fn law_message_bytes(prefix: Seq<u8>, nonce: u64)
    ensures
        message(prefix, nonce).len() == prefix.len() + 8,
        forall|i: int| 0 <= i < prefix.len() ==> #[trigger] message(prefix, nonce)[i] == prefix[i],
        forall|e: nat|
            e < 8 ==> message(prefix, nonce)[prefix.len() as int + e] == (nonce as int / #[trigger] pow(
                256,
                e,
            )) % 256,
{
    lemma_le_bytes_len(nonce as nat, 8);
    assert forall|e: nat| e < 8 implies message(prefix, nonce)[prefix.len() as int + e] == (nonce as int
        / #[trigger] pow(256, e)) % 256 by {
        lemma_le_byte_at(nonce as nat, 8, e);
    }
}

proof fn lemma_le_byte_at(n: nat, width: nat, e: nat)
    requires
        e < width,
    ensures
        le_bytes(n, width).len() == width,
        le_bytes(n, width)[e as int] == (n as int / pow(256, e)) % 256,
    decreases width,
{
    reveal(pow);
    lemma_le_bytes_len(n, width);
    if e > 0 {
        let w = (width - 1) as nat;
        let d = (e - 1) as nat;
        lemma_le_byte_at(n / 256, w, d);
        lemma_pow_positive(256, d);
        lemma_div_denominator(n as int, 256, pow(256, d));
        assert(le_bytes(n, width)[e as int] == le_bytes(n / 256, w)[d as int]);
    }
}

/// The tail of zero bits, bit by bit: it is at least `d` bits long exactly when there are that many
/// bits and the last `d` of them are zero. The last byte holds the last eight bits, and in each byte
/// the lowest bit comes last.
pub proof fn law_zero_tail_counts_bits(bytes: Seq<u8>, d: nat)
    ensures
        zero_tail(bytes) >= d <==> d <= 8 * bytes.len() && forall|i: int, j: u8|
            0 <= i < bytes.len() && j < 8 && 8 * (bytes.len() - 1 - i) + j < d ==> (#[trigger] (
            bytes[i] >> j)) & 1u8 == 0u8,
    decreases bytes.len(),
{
    lemma_zero_tail_bound(bytes);
    if bytes.len() > 0 {
        let b = bytes.last();
        let fewer = bytes.drop_last();
        assert(bytes[bytes.len() - 1] == b);
        axiom_u8_trailing_zeros(b);
        if b == 0 {
            assert forall|j: u8| j < 8 implies (#[trigger] (b >> j)) & 1u8 == 0u8 by {
                assert((0u8 >> j) & 1u8 == 0u8) by (bit_vector)
                    requires
                        j < 8,
                ;
            }
            if d > 8 {
                let e = (d - 8) as nat;
                law_zero_tail_counts_bits(fewer, e);
                if zero_tail(bytes) >= d {
                    assert forall|i: int, j: u8|
                        0 <= i < bytes.len() && j < 8 && 8 * (bytes.len() - 1 - i) + j < d implies (
                    #[trigger] (bytes[i] >> j)) & 1u8 == 0u8 by {
                        if i < fewer.len() {
                            assert((fewer[i] >> j) & 1u8 == 0u8);
                        }
                    }
                } else if d <= 8 * bytes.len() {
                    let (i, j): (int, u8) = choose|i: int, j: u8|
                        0 <= i < fewer.len() && j < 8 && 8 * (fewer.len() - 1 - i) + j < e && (
                        #[trigger] (fewer[i] >> j)) & 1u8 != 0u8;
                    assert((bytes[i] >> j) & 1u8 != 0u8);
                }
            }
        } else {
            let z = u8_trailing_zeros(b) as u8;
            if d > z {
                assert((bytes[bytes.len() - 1] >> z) & 1u8 == 1u8);
            }
        }
    }
}

/// What a solution is, bit by bit: the last `difficulty` bits of the digest of the nonce's message
/// are zero.
pub proof fn law_solution_ends_in_zero_bits(prefix: Seq<u8>, difficulty: u32, nonce: u64)
    ensures
        ({
            let digest = sha256_digest(message(prefix, nonce));
            solves(prefix, difficulty, nonce) <==> difficulty <= 8 * digest.len() && forall|
                i: int,
                j: u8,
            |
                0 <= i < digest.len() && j < 8 && 8 * (digest.len() - 1 - i) + j < difficulty ==> (
                #[trigger] (digest[i] >> j)) & 1u8 == 0u8
        }),
{
    law_zero_tail_counts_bits(sha256_digest(message(prefix, nonce)), difficulty as nat);
}

/// Different nonces never share a message.
pub proof fn law_messages_distinct(prefix: Seq<u8>, a: u64, b: u64)
    ensures
        message(prefix, a) == message(prefix, b) <==> a == b,
{
    if message(prefix, a) == message(prefix, b) {
        lemma_le_bytes_len(a as nat, 8);
        lemma_le_bytes_len(b as nat, 8);
        assert(message(prefix, a).skip(prefix.len() as int) =~= le_bytes(a as nat, 8));
        assert(message(prefix, b).skip(prefix.len() as int) =~= le_bytes(b as nat, 8));
        assert(pow(256, 8) == 0x1_0000_0000_0000_0000) by {
            reveal_with_fuel(pow, 9);
        }
        lemma_le_bytes_injective(a as nat, b as nat, 8);
    }
}

/// A solution at one difficulty is a solution at every lower one.
pub proof fn law_solution_solves_easier_challenges(
    prefix: Seq<u8>,
    difficulty: u32,
    easier: u32,
    nonce: u64,
)
    requires
        solves(prefix, difficulty, nonce),
        easier <= difficulty,
    ensures
        solves(prefix, easier, nonce),
{
}

proof fn lemma_le_bytes_injective(a: nat, b: nat, width: nat)
    requires
        le_bytes(a, width) == le_bytes(b, width),
        a < pow(256, width),
        b < pow(256, width),
    ensures
        a == b,
    decreases width,
{
    reveal(pow);
    if width > 0 {
        let w = (width - 1) as nat;
        let p = pow(256, w);
        lemma_le_bytes_len(a, width);
        assert(le_bytes(a, width).first() == (a % 256) as u8);
        assert(le_bytes(b, width).first() == (b % 256) as u8);
        assert(le_bytes(a, width).drop_first() =~= le_bytes(a / 256, w));
        assert(le_bytes(b, width).drop_first() =~= le_bytes(b / 256, w));
        assert(a < 256 * p && b < 256 * p);
        lemma_le_bytes_injective(a / 256, b / 256, w);
    }
}

/// A number divisible by a power of two is divisible by every smaller one.
proof fn lemma_divides_smaller(x: nat, d: nat, e: nat)
    requires
        d <= e,
        x % pow2(e) == 0,
    ensures
        x % pow2(d) == 0,
{
    lemma_pow2_adds(d, (e - d) as nat);
    lemma_pow2_pos(d);
    lemma_pow2_pos(e);
    lemma_fundamental_div_mod(x as int, pow2(e) as int);
    let q = (x / pow2(e)) as int;
    lemma_mul_is_associative(pow2(d) as int, pow2((e - d) as nat) as int, q);
    lemma_mul_is_commutative(pow2(d) as int, pow2((e - d) as nat) as int * q);
    lemma_mod_multiples_basic(pow2((e - d) as nat) as int * q, pow2(d) as int);
}

/// The trailing zeros of a non-zero byte, as divisibility.
proof fn lemma_byte_zeros(b: u8)
    requires
        b != 0,
    ensures
        u8_trailing_zeros(b) < 8,
        (b as nat) % pow2(u8_trailing_zeros(b) as nat) == 0,
        (b as nat) % pow2((u8_trailing_zeros(b) + 1) as nat) != 0,
{
    axiom_u8_trailing_zeros(b);
    let z = u8_trailing_zeros(b) as u8;
    let w = b as u16;
    let wz = z as u16;
    assert(w % (1u16 << wz) == 0 && w % (1u16 << ((wz + 1) as u16)) != 0) by (bit_vector)
        requires
            z < 8,
            w == b as u16,
            wz == z as u16,
            (b >> z) & 1u8 == 1u8,
            b << ((8 - z) as u8) == 0,
    ;
    lemma2_to64();
    lemma_u16_shl_is_mul(1, wz);
    lemma_u16_shl_is_mul(1, (wz + 1) as u16);
}

/// `bytes` ends in at least `d` zero bits exactly when the big-endian number that it spells is
/// divisible by two to the power `d`. (Zero is divisible by every power of two, but no more zero
/// bits are counted than there are.)
pub proof fn law_zero_tail_is_divisibility(bytes: Seq<u8>, d: nat)
    requires
        d <= 8 * bytes.len() || big_endian(bytes) != 0,
    ensures
        zero_tail(bytes) >= d <==> big_endian(bytes) % pow2(d) == 0,
{
    if d <= 8 * bytes.len() {
        lemma_zero_tail_within(bytes, d);
    } else {
        lemma_zero_tail_bound(bytes);
        lemma_big_endian_bound(bytes);
        lemma_pow2_strictly_increases(8 * bytes.len(), d);
        lemma_small_mod(big_endian(bytes), pow2(d));
    }
}

proof fn lemma_big_endian_bound(bytes: Seq<u8>)
    ensures
        big_endian(bytes) < pow2(8 * bytes.len()),
    decreases bytes.len(),
{
    lemma2_to64();
    if bytes.len() > 0 {
        lemma_big_endian_bound(bytes.drop_last());
        lemma_pow2_adds(8, 8 * bytes.drop_last().len());
    }
}

/// `law_zero_tail_is_divisibility` for no more bits than there are.
proof fn lemma_zero_tail_within(bytes: Seq<u8>, d: nat)
    requires
        d <= 8 * bytes.len(),
    ensures
        zero_tail(bytes) >= d <==> big_endian(bytes) % pow2(d) == 0,
    decreases bytes.len(),
{
    lemma2_to64();
    lemma_pow2_pos(d);
    if bytes.len() > 0 {
        let high = big_endian(bytes.drop_last());
        let b = bytes.last();
        if b == 0 {
            if d <= 8 {
                lemma_mod_multiples_basic(high as int, 256);
                lemma_divides_smaller(high * 256, d, 8);
            } else {
                let e = (d - 8) as nat;
                lemma_zero_tail_within(bytes.drop_last(), e);
                lemma_pow2_adds(8, e);
                lemma_scaled_divisibility(high, e);
            }
        } else {
            lemma_byte_zeros(b);
            let z = u8_trailing_zeros(b) as nat;
            if d <= z {
                lemma_sum_divisibility(high, b, z);
                lemma_divides_smaller(high * 256 + b as nat, d, z);
            } else if (high * 256 + b as nat) % pow2(d) == 0 {
                lemma_divides_smaller(high * 256 + b as nat, z + 1, d);
                lemma_sum_divisibility(high, b, z + 1);
            }
        }
    } else {
        assert(0nat % pow2(d) == 0);
    }
}

/// Scaling by 256 adds eight to the power of two that divides a number.
proof fn lemma_scaled_divisibility(x: nat, e: nat)
    ensures
        (x * 256) % pow2(8 + e) == 0 <==> x % pow2(e) == 0,
{
    lemma2_to64();
    lemma_pow2_pos(e);
    lemma_pow2_adds(8, e);
    lemma_truncate_middle(x as int, 256, pow2(e) as int);
    assert(256 * (x as int % pow2(e) as int) == 0 <==> x % pow2(e) == 0);
    assert((256 * x as int) % (256 * pow2(e) as int) == 256 * (x as int % pow2(e) as int));
}

/// A multiple of 256 does not change divisibility by a power of two up to 256.
proof fn lemma_sum_divisibility(high: nat, b: u8, e: nat)
    requires
        e <= 8,
    ensures
        (high * 256 + b as nat) % pow2(e) == 0 <==> (b as nat) % pow2(e) == 0,
{
    lemma2_to64();
    lemma_pow2_pos(e);
    lemma_pow2_adds(e, (8 - e) as nat);
    let f = pow2((8 - e) as nat) as int;
    lemma_mul_is_associative(high as int, f, pow2(e) as int);
    lemma_mul_is_commutative(f, pow2(e) as int);
    lemma_mul_is_commutative(high as int * f, pow2(e) as int);
    lemma_mod_multiples_vanish(high as int * f, b as int, pow2(e) as int);
}

} // verus!
