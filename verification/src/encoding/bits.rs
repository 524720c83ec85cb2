//! The bit-level model that the bit stream's contracts are stated in: bits of
//! integers and of byte sequences, most significant bit first.
use vstd::prelude::*;
use vstd::arithmetic::power2::*;
use vstd::bits::*;

verus! {

/// Bit `i` of `x`, counted from the least significant bit.
pub open spec fn bit64(x: u64, i: u64) -> bool {
    (x >> i) & 1 == 1
}

/// The `n` low bits of `x`, most significant first.
pub open spec fn u64_bits(x: u64, n: nat) -> Seq<bool> {
    Seq::new(n, |k: int| bit64(x, (n - 1 - k) as u64))
}

/// The eight bits of a byte, most significant first.
pub open spec fn byte_bits(b: u8) -> Seq<bool> {
    u64_bits(b as u64, 8)
}

/// The bits of a byte sequence: each byte's bits, most significant first.
pub open spec fn stream_bits(s: Seq<u8>) -> Seq<bool> {
    Seq::new(8 * s.len(), |k: int| bit64(s[k / 8] as u64, (7 - k % 8) as u64))
}

/// The number that a sequence of bits spells, most significant bit first.
pub open spec fn bits_value(bs: Seq<bool>) -> nat
    decreases bs.len(),
{
    if bs.len() == 0 {
        0
    } else {
        2 * bits_value(bs.drop_last()) + if bs.last() {
            1nat
        } else {
            0nat
        }
    }
}

/// A sequence of `n` zero bits.
pub open spec fn zero_bits(n: nat) -> Seq<bool> {
    Seq::new(n, |k: int| false)
}

/// The bits that result from OR-ing `new` into `old` at position `p`,
/// over `total` positions, where positions past `old` start out as zero.
pub open spec fn or_into(old: Seq<bool>, p: int, new: Seq<bool>, total: nat) -> Seq<bool> {
    Seq::new(
        total,
        |i: int| (i < old.len() && old[i]) || (p <= i < p + new.len() && new[i - p]),
    )
}

/// A left shift, one bit at a time.
pub broadcast proof fn lemma_bit64_shl(x: u64, s: u64, i: u64)
    by (bit_vector)
    requires
        i < 64,
        s < 64,
    ensures
        #[trigger] bit64(x << s, i) == (i >= s && bit64(x, (i - s) as u64)),
{
}

/// A right shift, one bit at a time.
pub broadcast proof fn lemma_bit64_shr(x: u64, s: u64, i: u64)
    by (bit_vector)
    requires
        i < 64,
        s < 64,
    ensures
        #[trigger] bit64(x >> s, i) == (i + s < 64 && bit64(x, (i + s) as u64)),
{
}

/// Bitwise or, one bit at a time.
pub broadcast proof fn lemma_bit64_or(x: u64, y: u64, i: u64)
    by (bit_vector)
    requires
        i < 64,
    ensures
        #[trigger] bit64(x | y, i) == (bit64(x, i) || bit64(y, i)),
{
}

/// Bitwise and, one bit at a time.
pub broadcast proof fn lemma_bit64_and(x: u64, y: u64, i: u64)
    by (bit_vector)
    requires
        i < 64,
    ensures
        #[trigger] bit64(x & y, i) == (bit64(x, i) && bit64(y, i)),
{
}

/// Bitwise exclusive or, one bit at a time.
pub broadcast proof fn lemma_bit64_xor(x: u64, y: u64, i: u64)
    by (bit_vector)
    requires
        i < 64,
    ensures
        #[trigger] bit64(x ^ y, i) == (bit64(x, i) != bit64(y, i)),
{
}

/// The bits of a mask of `n` low ones.
pub broadcast proof fn lemma_bit64_mask(n: u64, i: u64)
    by (bit_vector)
    requires
        i < 64,
        n < 64,
    ensures
        #[trigger] bit64(((1u64 << n) - 1) as u64, i) == (i < n),
{
}

/// Widening a byte to `u64` leaves the bits from 8 up clear.
pub broadcast proof fn lemma_byte_widen(a: u8, i: u64)
    by (bit_vector)
    requires
        8 <= i < 64,
    ensures
        !#[trigger] bit64(a as u64, i),
{
}

/// Bitwise or of bytes, one bit at a time.
pub broadcast proof fn lemma_byte_or(a: u8, b: u8, i: u64)
    by (bit_vector)
    requires
        i < 64,
    ensures
        #[trigger] bit64((a | b) as u64, i) == (bit64(a as u64, i) || bit64(b as u64, i)),
{
}

/// A right shift of a byte, one bit at a time.
pub broadcast proof fn lemma_byte_shr(a: u8, s: u8, i: u64)
    by (bit_vector)
    requires
        s < 8,
        i < 64,
    ensures
        #[trigger] bit64((a >> s) as u64, i) == (i + s < 8 && bit64(a as u64, (i + s) as u64)),
{
}

/// A left shift of a byte, one bit at a time.
pub broadcast proof fn lemma_byte_shl(a: u8, s: u8, i: u64)
    by (bit_vector)
    requires
        s < 8,
        i < 64,
    ensures
        #[trigger] bit64((a << s) as u64, i) == (s <= i < 8 && bit64(a as u64, (i - s) as u64)),
{
}

/// Narrowing a `u64` to a byte keeps its low eight bits.
pub broadcast proof fn lemma_u64_to_byte(x: u64, i: u64)
    by (bit_vector)
    requires
        i < 64,
    ensures
        #[trigger] bit64((x as u8) as u64, i) == (i < 8 && bit64(x, i)),
{
}

pub broadcast group group_bit_ops {
    lemma_bit64_shl,
    lemma_bit64_shr,
    lemma_bit64_or,
    lemma_bit64_and,
    lemma_bit64_xor,
    lemma_bit64_mask,
    lemma_byte_widen,
    lemma_byte_or,
    lemma_byte_shr,
    lemma_byte_shl,
    lemma_u64_to_byte,
}

/// The top byte of `u` is spelled by its first eight bits.
pub proof fn lemma_top_byte(u: u64)
    ensures
        byte_bits((u >> 56u64) as u8) =~= u64_bits(u, 64).take(8),
{
    assert forall|j: int| 0 <= j < 8 implies #[trigger] byte_bits((u >> 56u64) as u8)[j]
        == u64_bits(u, 64).take(8)[j] by {
        lemma_u64_to_byte(u >> 56u64, (7 - j) as u64);
        lemma_bit64_shr(u, 56, (7 - j) as u64);
    }
}

/// The `n + 8` low bits of `u` are the byte just above its `n` low bits,
/// then those `n` bits.
pub proof fn lemma_u64_bits_split(u: u64, n: nat)
    requires
        n + 8 <= 64,
    ensures
        u64_bits(u, n + 8) =~= byte_bits((u >> (n as u64)) as u8) + u64_bits(u, n),
{
    assert forall|k: int| 0 <= k < 8 implies #[trigger] u64_bits(u, n + 8)[k] == byte_bits(
        (u >> (n as u64)) as u8,
    )[k] by {
        lemma_u64_to_byte(u >> (n as u64), (7 - k) as u64);
        lemma_bit64_shr(u, n as u64, (7 - k) as u64);
    }
}

/// Shifting left by `s` drops the first `s` of the 64 bits.
pub proof fn lemma_shl_bits(u: u64, s: u64, m: int)
    requires
        s < 64,
        0 <= m,
        s + m <= 64,
    ensures
        u64_bits(u << s, 64).take(m) =~= u64_bits(u, 64).subrange(s as int, s + m),
{
    assert forall|j: int| 0 <= j < m implies #[trigger] u64_bits(u << s, 64).take(m)[j]
        == u64_bits(u, 64).subrange(s as int, s + m)[j] by {
        lemma_bit64_shl(u, s, (63 - j) as u64);
    }
}

/// The lowest bit and the remaining bits of `x`.
proof fn lemma_low_bit(x: u64)
    ensures
        bit64(x, 0) == (x % 2 == 1),
        x >> 1u64 == x / 2,
{
    assert(bit64(x, 0) == (x % 2 == 1)) by (bit_vector);
    assert(x >> 1u64 == x / 2) by (bit_vector);
}

/// The `n` low bits of `x` spell `x` modulo `2^n`.
pub proof fn lemma_u64_bits_value(x: u64, n: nat)
    requires
        n <= 64,
    ensures
        bits_value(u64_bits(x, n)) == x as nat % pow2(n),
    decreases n,
{
    broadcast use group_bit_ops;
    if n == 0 {
        lemma2_to64();
        assert(x as nat % 1 == 0) by (nonlinear_arith);
    } else {
        lemma_pow2_unfold(n);
        let y = x >> 1u64;
        lemma_low_bit(x);
        assert forall|k: int| 0 <= k < n - 1 implies #[trigger] u64_bits(x, n)[k] == u64_bits(
            y,
            (n - 1) as nat,
        )[k] by {
            assert(bit64(x >> 1u64, (n - 2 - k) as u64) == bit64(x, (n - 1 - k) as u64));
        }
        lemma_u64_bits_value(y, (n - 1) as nat);
        assert(u64_bits(x, n).drop_last() =~= u64_bits(y, (n - 1) as nat));
        assert(u64_bits(x, n).last() == bit64(x, 0));
        lemma_pow2_pos((n - 1) as nat);
        let q = pow2((n - 1) as nat);
        assert(x as nat % (2 * q) == 2 * ((x as nat / 2) % q) + x as nat % 2) by {
            vstd::arithmetic::div_mod::lemma_mod_breakdown(x as int, 2, q as int);
        }
    }
}

/// A `u64` below `2^n` is spelled by its `n` low bits.
pub proof fn lemma_u64_bits_value_small(x: u64, n: nat)
    requires
        n <= 64,
        x < pow2(n),
    ensures
        bits_value(u64_bits(x, n)) == x,
{
    lemma_u64_bits_value(x, n);
    vstd::arithmetic::div_mod::lemma_small_mod(x as nat, pow2(n));
}

/// Two `u64`s with the same 64 bits are equal.
pub proof fn lemma_bit64_ext(x: u64, y: u64)
    requires
        forall|i: u64| i < 64 ==> bit64(x, i) == bit64(y, i),
    ensures
        x == y,
{
    assert(u64_bits(x, 64) =~= u64_bits(y, 64));
    lemma2_to64();
    lemma2_to64_rest();
    lemma_u64_bits_value_small(x, 64);
    lemma_u64_bits_value_small(y, 64);
}

/// The value of `n` bits is below `2^n`.
pub proof fn lemma_bits_value_bound(bs: Seq<bool>)
    ensures
        bits_value(bs) < pow2(bs.len()),
    decreases bs.len(),
{
    if bs.len() == 0 {
        lemma2_to64();
    } else {
        lemma_bits_value_bound(bs.drop_last());
        lemma_pow2_unfold(bs.len());
    }
}

/// The value of bits that are all zero is zero.
pub proof fn lemma_bits_value_zero(bs: Seq<bool>)
    requires
        forall|i: int| 0 <= i < bs.len() ==> !bs[i],
    ensures
        bits_value(bs) == 0,
    decreases bs.len(),
{
    if bs.len() > 0 {
        lemma_bits_value_zero(bs.drop_last());
    }
}

/// The bits of a byte sequence that grew by one byte.
pub proof fn lemma_stream_bits_push(s: Seq<u8>, b: u8)
    ensures
        stream_bits(s.push(b)) =~= stream_bits(s) + byte_bits(b),
{
    assert forall|k: int| 0 <= k < 8 * s.len() + 8 implies #[trigger] stream_bits(s.push(b))[k]
        == (stream_bits(s) + byte_bits(b))[k] by {
        if k >= 8 * s.len() {
            assert(k / 8 == s.len());
            assert((k - 8 * s.len()) == k % 8);
        }
    }
}

/// The bits of a byte sequence whose byte `j` was replaced.
pub proof fn lemma_stream_bits_update(s: Seq<u8>, j: int, b: u8)
    requires
        0 <= j < s.len(),
    ensures
        stream_bits(s.update(j, b)) =~= Seq::new(
            8 * s.len(),
            |k: int|
                if k / 8 == j {
                    byte_bits(b)[k % 8]
                } else {
                    stream_bits(s)[k]
                },
        ),
{
}

/// Byte `j` of a sequence is spelled by the bits at `8 * j`.
pub proof fn lemma_stream_bits_byte(s: Seq<u8>, j: int)
    requires
        0 <= j < s.len(),
    ensures
        stream_bits(s).subrange(8 * j, 8 * j + 8) =~= byte_bits(s[j]),
{
    assert forall|k: int| 0 <= k < 8 implies #[trigger] stream_bits(s).subrange(
        8 * j,
        8 * j + 8,
    )[k] == byte_bits(s[j])[k] by {
        assert((8 * j + k) / 8 == j);
        assert((8 * j + k) % 8 == k);
    }
}

/// The bits of the bytes after the first `j`.
pub proof fn lemma_stream_bits_skip(s: Seq<u8>, j: int)
    requires
        0 <= j <= s.len(),
    ensures
        stream_bits(s.skip(j)) =~= stream_bits(s).skip(8 * j),
{
    assert forall|k: int| 0 <= k < 8 * (s.len() - j) implies #[trigger] stream_bits(s.skip(j))[k]
        == stream_bits(s).skip(8 * j)[k] by {
        assert((8 * j + k) / 8 == j + k / 8);
        assert((8 * j + k) % 8 == k % 8);
    }
}

/// Writing `x` then `y` at the end is writing `x + y`.
pub proof fn lemma_or_into_compose(
    a: Seq<bool>,
    pa: int,
    x: Seq<bool>,
    b_total: nat,
    y: Seq<bool>,
    c_total: nat,
)
    requires
        0 <= pa <= a.len(),
        a.len() <= b_total,
        pa + x.len() <= b_total <= c_total,
    ensures
        or_into(or_into(a, pa, x, b_total), pa + x.len(), y, c_total) =~= or_into(
            a,
            pa,
            x + y,
            c_total,
        ),
{
}

/// Writing into a stream whose bits from `p` on are zero appends.
pub proof fn lemma_or_into_clean(old: Seq<bool>, p: int, new: Seq<bool>, total: nat)
    requires
        0 <= p <= old.len(),
        p + new.len() <= total,
        old.len() <= total,
        forall|i: int| p <= i < old.len() ==> !old[i],
    ensures
        or_into(old, p, new, total).take(p + new.len()) =~= old.take(p) + new,
        forall|i: int|
            p + new.len() <= i < total ==> !#[trigger] or_into(old, p, new, total)[i],
{
}

} // verus!
