//! Variable-length integers as Go's `encoding/binary` writes them:
//! `uvarint` is LEB128 (7-bit groups, low group first, high bit set on every
//! byte but the last), `varint` is the zigzag mapping followed by `uvarint`.
use vstd::prelude::*;
use vstd::arithmetic::power2::*;
use vstd::bits::*;

use crate::encoding::ReadError;

verus! {

/// Maximum number of bytes a uvarint-encoded `u64` can occupy.
pub const MAX_VARINT_LEN64: usize = 10;

/// The LEB128 bytes of `x`: low 7-bit group first, continuation bit on all
/// bytes but the last.
pub open spec fn uvarint_bytes(x: nat) -> Seq<u8>
    decreases x,
{
    if x < 128 {
        seq![x as u8]
    } else {
        seq![(x % 128 + 128) as u8] + uvarint_bytes(x / 128)
    }
}

/// The zigzag mapping `0, -1, 1, -2, 2, ... -> 0, 1, 2, 3, 4, ...`.
pub open spec fn zigzag(x: i64) -> u64 {
    if x >= 0 {
        (2 * x) as u64
    } else {
        (-2 * x - 1) as u64
    }
}

/// The inverse of [`zigzag`].
pub open spec fn unzigzag(u: u64) -> i64 {
    if u % 2 == 0 {
        (u / 2) as i64
    } else {
        (-(u / 2) - 1) as i64
    }
}

/// The number of bytes up to and including the first byte without the
/// continuation bit, if there is one.
pub open spec fn uvarint_len(s: Seq<u8>) -> Option<nat>
    decreases s.len(),
{
    if s.len() == 0 {
        None
    } else if s[0] < 128 {
        Some(1)
    } else {
        match uvarint_len(s.drop_first()) {
            Some(n) => Some(n + 1),
            None => None,
        }
    }
}

/// The value of the low 7 bits of each byte of `s`, read as a little-endian
/// base-128 number.
pub open spec fn base128_value(s: Seq<u8>) -> nat
    decreases s.len(),
{
    if s.len() == 0 {
        0
    } else {
        (s[0] % 128) as nat + 128 * base128_value(s.drop_first())
    }
}

/// What decoding a uvarint from the start of `s` gives: the value and the
/// number of bytes it took, or the error.
pub open spec fn decode_uvarint(s: Seq<u8>) -> Result<(u64, usize), ReadError> {
    if s.len() == 0 {
        Err(ReadError::EndOfStream)
    } else {
        match uvarint_len(s) {
            Some(n) => if n > 10 || (n == 10 && s[9] > 1) {
                Err(ReadError::VarintOverflow)
            } else {
                Ok((base128_value(s.take(n as int)) as u64, n as usize))
            },
            None => if s.len() > 10 {
                Err(ReadError::VarintOverflow)
            } else {
                Err(ReadError::UnexpectedEnd)
            },
        }
    }
}

/// What decoding a zigzag varint from the start of `s` gives.
pub open spec fn decode_varint(s: Seq<u8>) -> Result<(i64, usize), ReadError> {
    match decode_uvarint(s) {
        Ok((u, n)) => Ok((unzigzag(u), n)),
        Err(e) => Err(e),
    }
}

proof fn lemma_pow2_7(i: nat)
    ensures
        pow2(7 * (i + 1)) == 128 * pow2(7 * i),
        pow2(7 * i) > 0,
{
    lemma_pow2_adds(7 * i, 7);
    lemma2_to64();
    lemma_pow2_pos(7 * i);
}

/// `uvarint_len` skips a prefix of continuation bytes.
pub proof fn lemma_uvarint_len_skip(s: Seq<u8>, k: nat)
    requires
        k <= s.len(),
        forall|j: int| 0 <= j < k ==> s[j] >= 128,
    ensures
        uvarint_len(s) == (match uvarint_len(s.skip(k as int)) {
            Some(n) => Some(n + k),
            None => None::<nat>,
        }),
    decreases k,
{
    if k > 0 {
        lemma_uvarint_len_skip(s.drop_first(), (k - 1) as nat);
        assert(s.drop_first().skip(k - 1) =~= s.skip(k as int));
    } else {
        assert(s.skip(0) =~= s);
    }
}

/// Adding one more byte to the prefix adds its 7 bits at the next group.
proof fn lemma_base128_take(s: Seq<u8>, i: nat)
    requires
        i < s.len(),
    ensures
        base128_value(s.take(i as int + 1)) == base128_value(s.take(i as int)) + (s[i as int]
            % 128) as nat * pow2(7 * i),
    decreases i,
{
    lemma_pow2_7(0);
    lemma2_to64();
    if i == 0 {
        assert(s.take(1).drop_first() =~= Seq::<u8>::empty());
        assert(s.take(0) =~= Seq::<u8>::empty());
    } else {
        let t = s.drop_first();
        lemma_base128_take(t, (i - 1) as nat);
        assert(s.take(i as int + 1).drop_first() =~= t.take(i as int));
        assert(s.take(i as int).drop_first() =~= t.take(i - 1));
        lemma_pow2_7((i - 1) as nat);
        assert(128 * ((t[i - 1] % 128) as nat * pow2(7 * (i - 1) as nat)) == (s[i as int]
            % 128) as nat * pow2(7 * i)) by (nonlinear_arith)
            requires
                t[i - 1] == s[i as int],
                pow2(7 * i) == 128 * pow2(7 * (i - 1) as nat),
        ;
    }
}

/// The encoding of `x` is as long as the number of 7-bit groups of `x`.
proof fn lemma_uvarint_bytes_len(x: nat, k: nat)
    requires
        x < pow2(7 * k),
        k >= 1,
    ensures
        uvarint_bytes(x).len() <= k,
        uvarint_bytes(x).len() >= 1,
    decreases x,
{
    if x >= 128 {
        lemma_pow2_7((k - 1) as nat);
        if k == 1 {
            lemma2_to64();
        } else {
            assert(x / 128 < pow2(7 * (k - 1) as nat)) by (nonlinear_arith)
                requires
                    x < pow2(7 * k),
                    pow2(7 * k) == 128 * pow2(7 * (k - 1) as nat),
            ;
            lemma_uvarint_bytes_len(x / 128, (k - 1) as nat);
        }
    }
}

/// A `u64` takes at most 10 bytes, and a 10-byte encoding ends in 0 or 1.
pub proof fn lemma_uvarint_bytes_bound(x: u64)
    ensures
        1 <= uvarint_bytes(x as nat).len() <= MAX_VARINT_LEN64,
        uvarint_bytes(x as nat).len() == MAX_VARINT_LEN64 ==> uvarint_bytes(x as nat)[9] <= 1,
{
    lemma2_to64();
    lemma2_to64_rest();
    lemma_pow2_adds(64, 6);
    lemma_uvarint_bytes_len(x as nat, 10);
    if uvarint_bytes(x as nat).len() == 10 {
        lemma_tenth_byte(x as nat, 0);
    }
}

proof fn lemma_tenth_byte(x: nat, i: nat)
    requires
        i <= 9,
        uvarint_bytes(x).len() == 10 - i,
        x < pow2((64 - 7 * i) as nat),
    ensures
        uvarint_bytes(x)[9 - i] <= 1,
    decreases 9 - i,
{
    if i < 9 {
        if x < 128 {
        } else {
            lemma_pow2_adds((57 - 7 * i) as nat, 7);
            lemma2_to64();
            assert(x / 128 < pow2((64 - 7 * (i + 1)) as nat)) by (nonlinear_arith)
                requires
                    x < pow2((64 - 7 * i) as nat),
                    pow2((64 - 7 * i) as nat) == pow2((57 - 7 * i) as nat) * 128,
            ;
            lemma_tenth_byte(x / 128, i + 1);
        }
    } else {
        lemma2_to64();
    }
}

/// Decoding reads back exactly the bytes of an encoding, whatever follows.
pub proof fn lemma_uvarint_bytes_parse(x: nat, rest: Seq<u8>)
    ensures
        uvarint_len(uvarint_bytes(x) + rest) == Some(uvarint_bytes(x).len()),
        base128_value(uvarint_bytes(x)) == x,
    decreases x,
{
    let e = uvarint_bytes(x);
    if x < 128 {
        assert((x as u8) as nat == x);
        assert((e + rest)[0] == x as u8);
        assert(e.drop_first() =~= Seq::<u8>::empty());
        assert(base128_value(e.drop_first()) == 0);
    } else {
        let tail = uvarint_bytes(x / 128);
        lemma_uvarint_bytes_parse(x / 128, rest);
        assert(((x % 128 + 128) as u8) as nat == x % 128 + 128);
        assert(e[0] % 128 == x % 128);
        assert((e + rest).drop_first() =~= tail + rest);
        assert(e.drop_first() =~= tail);
        assert(base128_value(e) == (e[0] % 128) as nat + 128 * base128_value(tail));
        assert(x == x % 128 + 128 * (x / 128));
    }
}

/// Every byte of an encoding but the last carries the continuation bit, the
/// last does not, and only a one-byte encoding ends in a zero byte.
proof fn lemma_uvarint_bytes_form(x: nat)
    ensures
        uvarint_bytes(x).len() >= 1,
        forall|i: int| 0 <= i < uvarint_bytes(x).len() - 1 ==> uvarint_bytes(x)[i] >= 0x80,
        uvarint_bytes(x)[uvarint_bytes(x).len() - 1] < 0x80,
        uvarint_bytes(x).len() == 1 || uvarint_bytes(x)[uvarint_bytes(x).len() - 1] != 0,
    decreases x,
{
    if x >= 128 {
        lemma_uvarint_bytes_form(x / 128);
        let tail = uvarint_bytes(x / 128);
        let e = uvarint_bytes(x);
        assert(((x % 128 + 128) as u8) as nat == x % 128 + 128);
        assert forall|i: int| 0 <= i < e.len() - 1 implies e[i] >= 0x80 by {
            if i > 0 {
                assert(e[i] == tail[i - 1]);
            }
        }
        assert(e[e.len() - 1] == tail[tail.len() - 1]);
        if tail.len() == 1 {
            assert(x / 128 >= 1);
            assert(tail[0] == (x / 128) as u8);
        }
    }
}

/// Law: what `put_uvarint` writes is the shortest LEB128 encoding of `x`:
/// one to ten bytes, the continuation bit on all but the last, the 7-bit
/// groups spelling `x` low group first, and no zero last byte after the
/// first.
pub proof fn lemma_uvarint_bytes_shape(x: u64)
    ensures
        1 <= uvarint_bytes(x as nat).len() <= MAX_VARINT_LEN64,
        forall|i: int|
            0 <= i < uvarint_bytes(x as nat).len() - 1 ==> uvarint_bytes(x as nat)[i] >= 0x80,
        uvarint_bytes(x as nat)[uvarint_bytes(x as nat).len() - 1] < 0x80,
        base128_value(uvarint_bytes(x as nat)) == x,
        uvarint_bytes(x as nat).len() == 1 || uvarint_bytes(x as nat)[uvarint_bytes(
            x as nat,
        ).len() - 1] != 0,
{
    lemma_uvarint_bytes_bound(x);
    lemma_uvarint_bytes_form(x as nat);
    lemma_uvarint_bytes_parse(x as nat, Seq::empty());
}

/// Law: a zigzag varint takes one byte exactly for `-64 ..= 63`.
pub proof fn lemma_varint_one_byte(x: i64)
    ensures
        (uvarint_bytes(zigzag(x) as nat).len() == 1) == (-64 <= x <= 63),
{
    if zigzag(x) >= 128 {
        lemma_uvarint_bytes_form((zigzag(x) / 128) as nat);
    }
}

/// Law: `read_uvarint` gives back what `put_uvarint` wrote, and reports how
/// many bytes that took, whatever bytes follow.
pub proof fn lemma_uvarint_roundtrip(x: u64, rest: Seq<u8>)
    ensures
        decode_uvarint(uvarint_bytes(x as nat) + rest) == Ok::<(u64, usize), ReadError>(
            (x, uvarint_bytes(x as nat).len() as usize),
        ),
{
    let e = uvarint_bytes(x as nat);
    lemma_uvarint_bytes_bound(x);
    lemma_uvarint_bytes_parse(x as nat, rest);
    assert((e + rest).take(e.len() as int) =~= e);
    assert((e + rest)[0] == e[0]);
    if e.len() == 10 {
        assert((e + rest)[9] == e[9]);
    }
}

/// Law: the zigzag mapping and its inverse undo each other.
pub proof fn lemma_zigzag_inverse(x: i64, u: u64)
    ensures
        unzigzag(zigzag(x)) == x,
        zigzag(unzigzag(u)) == u,
{
}

/// Law: `read_varint` gives back what `put_varint` wrote.
pub proof fn lemma_varint_roundtrip(x: i64, rest: Seq<u8>)
    ensures
        decode_varint(uvarint_bytes(zigzag(x) as nat) + rest) == Ok::<(i64, usize), ReadError>(
            (x, uvarint_bytes(zigzag(x) as nat).len() as usize),
        ),
{
    lemma_uvarint_roundtrip(zigzag(x), rest);
}

/// The byte-level steps of LEB128 in terms of division by 128.
proof fn lemma_leb128_byte(x: u64)
    by (bit_vector)
    ensures
        x >= 0x80 ==> (x as u8) | 0x80 == (x % 128 + 128) as u8,
        x < 0x80 ==> x as u8 == x,
        x >> 7 == x / 128,
{
}

/// The low seven bits of a byte.
pub proof fn lemma_low7(b: u8)
    by (bit_vector)
    ensures
        b & 0x7f == b % 128,
{
}

/// A group placed above a smaller accumulator is added to it.
proof fn lemma_group_bits(x: u64, c: u64, sh: u64)
    by (bit_vector)
    requires
        (sh <= 56 && c < 128) || (sh == 63 && c <= 1),
        x < (1u64 << sh),
    ensures
        x | (c << sh) == x + (c << sh),
{
}

/// One step of decoding: OR-ing group `i` (the low 7 bits of byte `i`) in at
/// bit `7 * i` extends the value of the first `i` bytes to `i + 1` bytes.
pub proof fn lemma_uvarint_step(s: Seq<u8>, i: nat, x: u64)
    requires
        i < s.len(),
        i <= 9,
        i == 9 ==> s[9] % 128 <= 1,
        x == base128_value(s.take(i as int)),
        x < pow2(7 * i),
    ensures
        x | (((s[i as int] % 128) as u64) << (7 * i) as u64) == base128_value(
            s.take(i as int + 1),
        ),
        base128_value(s.take(i as int + 1)) < pow2(7 * (i + 1)),
{
    let c = (s[i as int] % 128) as u64;
    let sh = (7 * i) as u64;
    lemma_base128_take(s, i);
    lemma_pow2_7(i);
    lemma2_to64();
    lemma2_to64_rest();
    if i < 8 {
        lemma_pow2_strictly_increases(7 * i, 56);
    }
    lemma_u64_shl_is_mul(1, sh);
    lemma_group_bits(x, c, sh);
    assert(c * pow2(7 * i) <= 127 * pow2(7 * i)) by (nonlinear_arith)
        requires
            c < 128,
    ;
    if i < 9 {
        assert(c * pow2(7 * i) <= 127 * pow2(56)) by (nonlinear_arith)
            requires
                c < 128,
                pow2(7 * i) <= pow2(56),
        ;
    } else {
        assert(7 * i == 63);
        assert(c * pow2(63) <= pow2(63)) by (nonlinear_arith)
            requires
                c <= 1,
        ;
    }
    lemma_u64_shl_is_mul(c, sh);
}

/// Zigzag decoding in terms of division by two.
pub proof fn lemma_unzigzag_bits(ux: u64)
    by (bit_vector)
    ensures
        ux >> 1 == ux / 2,
        ux & 1 == ux % 2,
        ux >> 1 <= 0x7fffffffffffffffu64,
        !((ux >> 1) as i64) == -((ux >> 1) as i64) - 1,
{
}

/// Encodes `x` into the start of `buf` and returns the number of bytes
/// written; the rest of `buf` is left as it was.
pub fn put_uvarint(buf: &mut [u8], x: u64) -> (n: usize)
    requires
        old(buf)@.len() >= MAX_VARINT_LEN64,
    ensures
        n == uvarint_bytes(x as nat).len(),
        final(buf)@ == uvarint_bytes(x as nat) + old(buf)@.skip(n as int),
{
    let ghost x0 = x;
    let mut x = x;
    let mut i: usize = 0;
    proof {
        lemma_uvarint_bytes_bound(x0);
    }
    while x >= 0x80
        invariant
            old(buf)@.len() >= MAX_VARINT_LEN64,
            buf@.len() == old(buf)@.len(),
            i + uvarint_bytes(x as nat).len() == uvarint_bytes(x0 as nat).len(),
            uvarint_bytes(x0 as nat).len() <= MAX_VARINT_LEN64,
            uvarint_bytes(x0 as nat) == buf@.take(i as int) + uvarint_bytes(x as nat),
            buf@.skip(i as int) == old(buf)@.skip(i as int),
        decreases x,
    {
        proof {
            lemma_leb128_byte(x);
        }
        let ghost before = buf@;
        buf[i] = (x as u8) | 0x80;
        assert(buf@.take(i + 1) =~= before.take(i as int).push((x % 128 + 128) as u8));
        assert(buf@.skip(i + 1) =~= before.skip(i + 1));
        assert(before.skip(i + 1) =~= old(buf)@.skip(i + 1)) by {
            assert(before.skip(i + 1) =~= before.skip(i as int).skip(1));
            assert(old(buf)@.skip(i + 1) =~= old(buf)@.skip(i as int).skip(1));
        }
        assert(uvarint_bytes(x as nat) =~= seq![(x % 128 + 128) as u8] + uvarint_bytes(
            x as nat / 128,
        ));
        x >>= 7;
        i += 1;
        assert(uvarint_bytes(x0 as nat) =~= buf@.take(i as int) + uvarint_bytes(x as nat));
    }
    proof {
        lemma_leb128_byte(x);
    }
    let ghost before = buf@;
    buf[i] = x as u8;
    assert(buf@.take(i + 1) =~= uvarint_bytes(x0 as nat));
    assert(buf@ =~= buf@.take(i + 1) + old(buf)@.skip(i + 1)) by {
        assert(before.skip(i + 1) =~= before.skip(i as int).skip(1));
        assert(old(buf)@.skip(i + 1) =~= old(buf)@.skip(i as int).skip(1));
    }
    i + 1
}

/// Zigzag encoding with shifts and exclusive or.
proof fn lemma_zigzag_bits(x: i64)
    by (bit_vector)
    ensures
        x >= 0 ==> ((x as u64) << 1) ^ ((x >> 63) as u64) == (2 * x) as u64,
        x < 0 ==> ((x as u64) << 1) ^ ((x >> 63) as u64) == (-2 * x - 1) as u64,
{
}

/// Encodes `x` (zigzag, then uvarint) into the start of `buf` and returns the
/// number of bytes written.
pub fn put_varint(buf: &mut [u8], x: i64) -> (n: usize)
    requires
        old(buf)@.len() >= MAX_VARINT_LEN64,
    ensures
        n == uvarint_bytes(zigzag(x) as nat).len(),
        final(buf)@ == uvarint_bytes(zigzag(x) as nat) + old(buf)@.skip(n as int),
{
    let ux = ((x as u64) << 1) ^ ((x >> 63) as u64);
    proof {
        lemma_zigzag_bits(x);
    }
    put_uvarint(buf, ux)
}

/// Decodes a uvarint from the start of `buf`: the value and the number of
/// bytes consumed.
pub fn read_uvarint(buf: &[u8]) -> (r: Result<(u64, usize), ReadError>)
    ensures
        r == decode_uvarint(buf@),
{
    if buf.len() == 0 {
        return Err(ReadError::EndOfStream);
    }
    let mut x: u64 = 0;
    let mut s: u64 = 0;
    let mut i: usize = 0;
    proof {
        assert(buf@.take(0) =~= Seq::<u8>::empty());
        lemma2_to64();
        lemma_uvarint_len_skip(buf@, 0);
    }
    while i < buf.len()
        invariant
            buf@.len() > 0,
            i <= buf@.len(),
            i <= MAX_VARINT_LEN64,
            s == 7 * i,
            forall|j: int| 0 <= j < i ==> buf@[j] >= 128,
            i < MAX_VARINT_LEN64 ==> x == base128_value(buf@.take(i as int)),
            i < MAX_VARINT_LEN64 ==> x < pow2(7 * i as nat),
        decreases buf@.len() - i,
    {
        if i == MAX_VARINT_LEN64 {
            proof {
                lemma_uvarint_len_skip(buf@, 10);
            }
            return Err(ReadError::VarintOverflow);
        }
        let b = buf[i];
        proof {
            lemma_uvarint_len_skip(buf@, i as nat);
            assert(buf@.skip(i as int)[0] == b);
            if b >= 0x80 {
                lemma_uvarint_len_skip(buf@.skip(i as int), 1);
                assert(buf@.skip(i as int).skip(1) =~= buf@.skip(i + 1));
            }
        }
        if b < 0x80 {
            if i == MAX_VARINT_LEN64 - 1 && b > 1 {
                return Err(ReadError::VarintOverflow);
            }
            proof {
                lemma_uvarint_step(buf@, i as nat, x);
            }
            return Ok((x | ((b as u64) << s), i + 1));
        }
        proof {
            lemma_low7(b);
            if i < 9 {
                lemma_uvarint_step(buf@, i as nat, x);
            }
        }
        x |= ((b & 0x7f) as u64) << s;
        s += 7;
        i += 1;
    }
    proof {
        lemma_uvarint_len_skip(buf@, i as nat);
        assert(buf@.skip(i as int).len() == 0);
    }
    Err(ReadError::UnexpectedEnd)
}

/// Decodes a zigzag varint from the start of `buf`: the value and the number
/// of bytes consumed.
pub fn read_varint(buf: &[u8]) -> (r: Result<(i64, usize), ReadError>)
    ensures
        r == decode_varint(buf@),
{
    let (ux, n) = match read_uvarint(buf) {
        Ok(p) => p,
        Err(e) => return Err(e),
    };
    let mut x = (ux >> 1) as i64;
    if ux & 1 != 0 {
        x = !x;
    }
    proof {
        lemma_unzigzag_bits(ux);
    }
    Ok((x, n))
}

} // verus!
