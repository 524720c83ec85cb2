//! MSB-first bit stream writer and reader, laid out as Prometheus's
//! `bstream`: bytes grow left to right and each byte is filled from its most
//! significant bit down.
use vstd::prelude::*;

use vstd::arithmetic::power2::pow2;

use crate::encoding::varint::{
    base128_value, lemma_low7, lemma_uvarint_bytes_bound, lemma_uvarint_bytes_parse,
    lemma_zigzag_inverse, uvarint_bytes, zigzag, lemma_unzigzag_bits, lemma_uvarint_len_skip, lemma_uvarint_step,
    unzigzag, uvarint_len, MAX_VARINT_LEN64,
};
use crate::encoding::ReadError;
use crate::encoding::bits::{
    bit64, bits_value, lemma_bit64_and, lemma_bit64_mask, lemma_bit64_or, lemma_bit64_shl,
    lemma_bit64_shr, lemma_bits_value_bound, lemma_bits_value_zero, lemma_byte_widen,
    lemma_u64_bits_value, lemma_stream_bits_byte, zero_bits, byte_bits, group_bit_ops, lemma_or_into_clean, lemma_or_into_compose,
    lemma_stream_bits_push, lemma_stream_bits_update, lemma_top_byte, lemma_u64_bits_split, lemma_shl_bits, or_into, stream_bits, u64_bits,
};

verus! {

broadcast use group_bit_ops;

/// Bit zero and bit one as numbers.
proof fn lemma_bit64_consts(i: u64)
    by (bit_vector)
    requires
        i < 64,
    ensures
        !bit64(0, i),
        bit64(1, i) == (i == 0),
{
}

/// MSB-first bit stream writer.
#[derive(Debug, Clone)]
pub struct BitWriter {
    stream: Vec<u8>,
    count: u8,
}

impl BitWriter {
    /// The bytes of the stream.
    pub closed spec fn stream_view(&self) -> Seq<u8> {
        self.stream@
    }

    /// How many low bits of the last byte are still free to write.
    pub closed spec fn free_bits(&self) -> nat {
        self.count as nat
    }

    /// Fewer than eight bits are free, and only when there is a last byte.
    pub open spec fn wf(&self) -> bool {
        &&& self.free_bits() < 8
        &&& self.free_bits() > 0 ==> self.stream_view().len() > 0
    }

    /// How many bits have been written.
    pub open spec fn bit_len(&self) -> nat {
        (8 * self.stream_view().len() - self.free_bits()) as nat
    }

    /// The bits written so far, in order.
    pub open spec fn bits(&self) -> Seq<bool> {
        stream_bits(self.stream_view()).take(self.bit_len() as int)
    }

    /// The free bits of the last byte are all zero, so that the bytes are the
    /// written bits followed by zero padding.
    pub open spec fn clean(&self) -> bool {
        forall|i: int|
            self.bit_len() <= i < 8 * self.stream_view().len() ==> !#[trigger] stream_bits(
                self.stream_view(),
            )[i]
    }

    /// `self` is `old` after the bits `new` were written at its end: the
    /// stream grew by just the bytes the new bits need, and each new bit was
    /// OR-ed into its place (places past the old bytes start as zero).
    pub open spec fn wrote(&self, old: BitWriter, new: Seq<bool>) -> bool {
        &&& self.wf()
        &&& self.bit_len() == old.bit_len() + new.len()
        &&& stream_bits(self.stream_view()) == or_into(
            stream_bits(old.stream_view()),
            old.bit_len() as int,
            new,
            8 * self.stream_view().len(),
        )
    }

    /// Writing onto a clean stream appends the new bits and stays clean.
    pub proof fn lemma_wrote_clean(&self, old: BitWriter, new: Seq<bool>)
        requires
            old.wf(),
            self.wrote(old, new),
        ensures
            old.clean() ==> self.clean() && self.bits() == old.bits() + new,
    {
        if old.clean() {
            let ob = stream_bits(old.stream_view());
            let total = 8 * self.stream_view().len();
            assert(self.stream_view().len() >= old.stream_view().len()) by {
                assert(8 * self.stream_view().len() >= self.bit_len());
            }
            lemma_or_into_clean(ob, old.bit_len() as int, new, total);
            assert(ob.take(old.bit_len() as int) == old.bits());
        }
    }

    /// Two writes in a row are one write of both bit sequences.
    pub proof fn lemma_wrote_compose(
        &self,
        mid: BitWriter,
        old: BitWriter,
        x: Seq<bool>,
        y: Seq<bool>,
    )
        requires
            old.wf(),
            mid.wrote(old, x),
            self.wrote(mid, y),
        ensures
            self.wrote(old, x + y),
    {
        assert(8 * mid.stream_view().len() >= mid.bit_len());
        assert(8 * self.stream_view().len() >= self.bit_len());
        assert(mid.stream_view().len() >= old.stream_view().len());
        assert(self.stream_view().len() >= mid.stream_view().len());
        lemma_or_into_compose(
            stream_bits(old.stream_view()),
            old.bit_len() as int,
            x,
            8 * mid.stream_view().len(),
            y,
            8 * self.stream_view().len(),
        );
    }

    /// Writing nothing leaves the writer as it was.
    pub proof fn lemma_wrote_nothing(&self)
        requires
            self.wf(),
        ensures
            self.wrote(*self, Seq::<bool>::empty()),
    {
        assert(stream_bits(self.stream_view()) =~= or_into(
            stream_bits(self.stream_view()),
            self.bit_len() as int,
            Seq::<bool>::empty(),
            8 * self.stream_view().len(),
        ));
    }

    /// Law: what a write leaves is fixed by the writer it started from and
    /// the bits written.
    pub proof fn lemma_wrote_unique(&self, other: BitWriter, old: BitWriter, new: Seq<bool>)
        requires
            self.wrote(old, new),
            other.wrote(old, new),
        ensures
            self.stream_view() == other.stream_view(),
            self.free_bits() == other.free_bits(),
    {
        assert(self.stream_view().len() == other.stream_view().len());
        lemma_stream_bits_injective(self.stream_view(), other.stream_view());
    }

    /// An empty writer.
    pub fn new() -> (w: Self)
        ensures
            w.wf(),
            w.stream_view() == Seq::<u8>::empty(),
            w.free_bits() == 0,
    {
        BitWriter { stream: Vec::new(), count: 0 }
    }

    /// Adopts an existing byte buffer. The next write begins on a fresh byte.
    pub fn from_bytes(stream: Vec<u8>) -> (w: Self)
        ensures
            w.wf(),
            w.stream_view() == stream@,
            w.free_bits() == 0,
    {
        BitWriter { stream, count: 0 }
    }

    /// Writes one bit.
    pub fn write_bit(&mut self, bit: bool)
        requires
            old(self).wf(),
        ensures
            final(self).wrote(*old(self), seq![bit]),
            old(self).clean() ==> final(self).clean() && final(self).bits() == old(self).bits().push(
                bit,
            ),
    {
        let ghost s0 = self.stream@;
        let ghost c0 = self.count;
        if self.count == 0 {
            self.stream.push(0);
            self.count = 8;
            proof {
                lemma_stream_bits_push(s0, 0);
            }
        }
        let ghost s1 = self.stream@;
        let n = self.stream.len();
        let c = self.count - 1;
        if bit {
            let b = self.stream[n - 1];
            self.stream.set(n - 1, b | (1u8 << c));
            proof {
                lemma_stream_bits_update(s1, n - 1, b | (1u8 << c));
            }
        }
        self.count -= 1;
        proof {
            let ob = stream_bits(s0);
            let p = 8 * s0.len() - c0;
            let target = or_into(ob, p, seq![bit], 8 * self.stream@.len());
            assert forall|k: int| 0 <= k < 8 * self.stream@.len() implies #[trigger] stream_bits(
                self.stream@,
            )[k] == target[k] by {
                lemma_bit64_consts((7 - k % 8) as u64);
                if k / 8 == n - 1 && 7 - k % 8 >= c {
                    lemma_bit64_consts((7 - k % 8 - c) as u64);
                }
            }
            assert(stream_bits(self.stream@) =~= target);
            self.lemma_wrote_clean(*old(self), seq![bit]);
        }
    }

    /// Writes the eight bits of `byt` at the current bit position, which may
    /// lie inside the last byte.
    pub fn write_byte(&mut self, byt: u8)
        requires
            old(self).wf(),
        ensures
            final(self).wrote(*old(self), byte_bits(byt)),
            old(self).clean() ==> final(self).clean() && final(self).bits() == old(self).bits()
                + byte_bits(byt),
    {
        let ghost s0 = self.stream@;
        if self.count == 0 {
            self.stream.push(byt);
            proof {
                lemma_stream_bits_push(s0, byt);
                let target = or_into(stream_bits(s0), (8 * s0.len()) as int, byte_bits(byt), 8 * self.stream@.len());
                assert(stream_bits(self.stream@) =~= target);
                self.lemma_wrote_clean(*old(self), byte_bits(byt));
            }
            return;
        }
        let n = self.stream.len();
        let c = self.count;
        let b = self.stream[n - 1];
        self.stream.set(n - 1, b | (byt >> (8 - c)));
        let ghost s1 = self.stream@;
        self.stream.push(byt << c);
        proof {
            lemma_stream_bits_update(s0, n - 1, b | (byt >> (8 - c)));
            lemma_stream_bits_push(s1, byt << c);
            let p = 8 * s0.len() - c;
            let target = or_into(stream_bits(s0), p, byte_bits(byt), 8 * self.stream@.len());
            assert forall|k: int| 0 <= k < 8 * self.stream@.len() implies #[trigger] stream_bits(
                self.stream@,
            )[k] == target[k] by {
                if k >= 8 * s1.len() {
                    assert(stream_bits(self.stream@)[k] == byte_bits(byt << c)[k - 8 * s1.len()]);
                }
            }
            assert(stream_bits(self.stream@) =~= target);
            self.lemma_wrote_clean(*old(self), byte_bits(byt));
        }
    }

    /// Writes the `nbits` right-most bits of `u`, most significant first.
    pub fn write_bits(&mut self, u: u64, nbits: u32)
        requires
            old(self).wf(),
            nbits <= 64,
        ensures
            final(self).wrote(*old(self), u64_bits(u, nbits as nat)),
            old(self).clean() ==> final(self).clean() && final(self).bits() == old(self).bits()
                + u64_bits(u, nbits as nat),
    {
        let ghost target = u64_bits(u, nbits as nat);
        let ghost total = nbits as int;
        if nbits == 0 {
            proof {
                self.lemma_wrote_nothing();
                assert(target =~= Seq::<bool>::empty());
                self.lemma_wrote_clean(*old(self), target);
            }
            return;
        }
        let mut u = u << ((64 - nbits) as u64);
        let mut nbits = nbits;
        proof {
            self.lemma_wrote_nothing();
            assert(target.take(0) =~= Seq::<bool>::empty());
            assert(u64_bits(u, 64).take(nbits as int) =~= target.skip(0));
        }
        while nbits >= 8
            invariant
                old(self).wf(),
                total <= 64,
                nbits <= total,
                total == target.len(),
                self.wrote(*old(self), target.take(total - nbits)),
                u64_bits(u, 64).take(nbits as int) == target.skip(total - nbits),
            decreases nbits,
        {
            let ghost mid = *self;
            let ghost done = total - nbits;
            let byt = (u >> 56u64) as u8;
            self.write_byte(byt);
            proof {
                lemma_top_byte(u);
                assert(u64_bits(u, 64).take(8) =~= u64_bits(u, 64).take(nbits as int).take(8));
                assert(byte_bits(byt) =~= target.subrange(done, done + 8));
                self.lemma_wrote_compose(mid, *old(self), target.take(done), byte_bits(byt));
                assert(target.take(done) + target.subrange(done, done + 8) =~= target.take(
                    done + 8,
                ));
            }
            let ghost u_old = u;
            u = u << 8u64;
            nbits = nbits - 8;
            proof {
                lemma_shl_bits(u_old, 8, nbits as int);
                assert(u64_bits(u_old, 64).subrange(8, 8 + nbits) =~= u64_bits(u_old, 64).take(
                    nbits + 8,
                ).skip(8));
                assert(target.skip(total - nbits - 8).skip(8) =~= target.skip(total - nbits));
            }
        }
        while nbits > 0
            invariant
                old(self).wf(),
                total <= 64,
                nbits < 8,
                nbits <= total,
                total == target.len(),
                self.wrote(*old(self), target.take(total - nbits)),
                u64_bits(u, 64).take(nbits as int) == target.skip(total - nbits),
            decreases nbits,
        {
            let ghost mid = *self;
            let ghost done = total - nbits;
            let bit = (u >> 63u64) != 0;
            self.write_bit(bit);
            proof {
                assert(bit == target[done]) by {
                    assert(u64_bits(u, 64).take(nbits as int)[0] == target.skip(done)[0]);
                    assert(((u >> 63u64) != 0) == bit64(u, 63)) by (bit_vector);
                }
                self.lemma_wrote_compose(mid, *old(self), target.take(done), seq![bit]);
                assert(target.take(done) + seq![bit] =~= target.take(done + 1));
            }
            let ghost u_old = u;
            u = u << 1u64;
            nbits = nbits - 1;
            proof {
                lemma_shl_bits(u_old, 1, nbits as int);
                assert(u64_bits(u_old, 64).subrange(1, 1 + nbits) =~= u64_bits(u_old, 64).take(
                    nbits + 1,
                ).skip(1));
                assert(target.skip(total - nbits - 1).skip(1) =~= target.skip(total - nbits));
            }
        }
        proof {
            assert(target.take(total) =~= target);
            self.lemma_wrote_clean(*old(self), target);
        }
    }

    /// The bytes written so far.
    pub fn bytes(&self) -> (r: &[u8])
        ensures
            r@ == self.stream_view(),
    {
        self.stream.as_slice()
    }

    /// The bytes written so far, for rewriting in place. The writer's bytes
    /// afterwards are whatever the caller left in the slice.
    pub fn bytes_mut(&mut self) -> (r: &mut [u8])
        ensures
            r@ == old(self).stream_view(),
            final(self).stream_view() == final(r)@,
            final(self).free_bits() == old(self).free_bits(),
    {
        self.stream.as_mut_slice()
    }

    /// The number of bytes the stream can hold without reallocating.
    #[verifier::external_body]
    pub(crate) fn capacity(&self) -> (r: usize)
        ensures
            r >= self.stream_view().len(),
    {
        self.stream.capacity()
    }

    /// Empties the stream.
    pub fn reset(&mut self)
        ensures
            final(self).wf(),
            final(self).stream_view() == Seq::<u8>::empty(),
            final(self).free_bits() == 0,
    {
        self.stream.clear();
        self.count = 0;
    }

    /// Hands over the bytes written so far.
    pub fn into_bytes(self) -> (r: Vec<u8>)
        ensures
            r@ == self.stream_view(),
    {
        self.stream
    }
}

impl Default for BitWriter {
    fn default() -> (w: Self)
        ensures
            w.wf(),
            w.stream_view() == Seq::<u8>::empty(),
            w.free_bits() == 0,
    {
        BitWriter::new()
    }
}

/// What reading `n` bits at bit position `pos` gives: their value and the
/// position after them, or, when fewer than `n` bits are left,
/// `EndOfStream` with the position at the end.
pub open spec fn read_bits_spec(bits: Seq<bool>, pos: nat, n: nat) -> (Result<u64, ReadError>, nat) {
    if pos + n <= bits.len() {
        (Ok(bits_value(bits.subrange(pos as int, (pos + n) as int)) as u64), pos + n)
    } else {
        (Err(ReadError::EndOfStream), bits.len())
    }
}

/// What reading one bit at `pos` gives.
pub open spec fn read_bit_spec(bits: Seq<bool>, pos: nat) -> (Result<bool, ReadError>, nat) {
    if pos < bits.len() {
        (Ok(bits[pos as int]), pos + 1)
    } else {
        (Err(ReadError::EndOfStream), bits.len())
    }
}

/// The byte spelled by the eight bits at `p`.
pub open spec fn byte_at(bits: Seq<bool>, p: int) -> u8 {
    bits_value(bits.subrange(p, p + 8)) as u8
}

/// The whole bytes that can still be read from bit position `pos`.
pub open spec fn bytes_from(bits: Seq<bool>, pos: nat) -> Seq<u8> {
    Seq::new(((bits.len() - pos) / 8) as nat, |k: int| byte_at(bits, pos + 8 * k))
}

/// What reading a uvarint byte by byte at `pos` gives: at most ten bytes are
/// read; running out of bytes before the first one is `EndOfStream`, after it
/// `UnexpectedEnd` (both leave the position at the end); ten bytes with the
/// continuation bit, or a tenth byte above 1, are `VarintOverflow`.
pub open spec fn read_uvarint_spec(bits: Seq<bool>, pos: nat) -> (Result<u64, ReadError>, nat) {
    let b = bytes_from(bits, pos);
    let first = if b.len() <= 10 {
        b
    } else {
        b.take(10)
    };
    match uvarint_len(first) {
        Some(n) => if n == 10 && b[9] > 1 {
            (Err(ReadError::VarintOverflow), pos + 80)
        } else {
            (Ok(base128_value(b.take(n as int)) as u64), pos + 8 * n)
        },
        None => if b.len() >= 10 {
            (Err(ReadError::VarintOverflow), pos + 80)
        } else if b.len() == 0 {
            (Err(ReadError::EndOfStream), bits.len())
        } else {
            (Err(ReadError::UnexpectedEnd), bits.len())
        },
    }
}

/// What reading a zigzag varint at `pos` gives.
pub open spec fn read_varint_spec(bits: Seq<bool>, pos: nat) -> (Result<i64, ReadError>, nat) {
    let (r, p) = read_uvarint_spec(bits, pos);
    match r {
        Ok(u) => (Ok(unzigzag(u)), p),
        Err(e) => (Err(e), p),
    }
}

/// A `u64` whose bits from `n` up are clear is spelled by its `n` low bits.
proof fn lemma_value_of_low_bits(x: u64, n: nat)
    requires
        n <= 64,
        forall|i: u64| n <= i < 64 ==> !bit64(x, i),
    ensures
        bits_value(u64_bits(x, n)) == x,
        x < pow2(n),
{
    lemma_u64_bits_value(x, n);
    lemma_u64_bits_value(x, 64);
    vstd::arithmetic::power2::lemma2_to64();
    vstd::arithmetic::power2::lemma2_to64_rest();
    vstd::arithmetic::div_mod::lemma_small_mod(x as nat, pow2(64));
    let z = zero_bits((64 - n) as nat);
    assert(u64_bits(x, 64) =~= z + u64_bits(x, n));
    lemma_bits_value_prefix_zero(z, u64_bits(x, n));
    vstd::arithmetic::power2::lemma_pow2_pos(n);
    vstd::arithmetic::div_mod::lemma_mod_bound(x as int, pow2(n) as int);
}

/// Leading zero bits do not change the value.
proof fn lemma_bits_value_prefix_zero(z: Seq<bool>, bs: Seq<bool>)
    requires
        forall|i: int| 0 <= i < z.len() ==> !z[i],
    ensures
        bits_value(z + bs) == bits_value(bs),
    decreases bs.len(),
{
    if bs.len() == 0 {
        assert(z + bs =~= z);
        lemma_bits_value_zero(z);
    } else {
        assert((z + bs).drop_last() =~= z + bs.drop_last());
        lemma_bits_value_prefix_zero(z, bs.drop_last());
    }
}

/// A read of `n` bits gives a number below `2^n`.
pub proof fn lemma_read_bits_bound(bits: Seq<bool>, p: nat, n: nat)
    ensures
        read_bits_spec(bits, p, n).0 matches Ok(v) ==> v < pow2(n),
{
    if p + n <= bits.len() {
        lemma_bits_value_bound(bits.subrange(p as int, (p + n) as int));
        if n <= 64 {
            vstd::arithmetic::power2::lemma2_to64();
            vstd::arithmetic::power2::lemma2_to64_rest();
            if n < 64 {
                vstd::arithmetic::power2::lemma_pow2_strictly_increases(n, 64);
            }
        }
    }
}

/// A set bit tested with a one-bit mask.
proof fn lemma_bit_test(x: u64, i: u64)
    by (bit_vector)
    requires
        i < 64,
    ensures
        ((x & (1u64 << i)) != 0) == bit64(x, i),
        bit64(u64::MAX, i),
        1u64 << i >= 1,
{
}

/// Reading within the buffer: the `nbits` bits below the top `valid0`
/// buffered bits are the next bits of the stream.
proof fn lemma_read_fast(
    bits: Seq<bool>,
    buffer: u64,
    off: nat,
    valid0: nat,
    nbits: nat,
    mask: u64,
    v: u64,
)
    requires
        1 <= nbits <= valid0 <= 64,
        valid0 <= 8 * off <= bits.len(),
        forall|j: u64| j < valid0 ==> #[trigger] bit64(buffer, j) == bits[8 * off - 1 - j],
        nbits == 64 ==> mask == u64::MAX,
        nbits < 64 ==> mask == ((1u64 << (nbits as u64)) - 1) as u64,
        v == (buffer >> ((valid0 - nbits) as u64)) & mask,
    ensures
        v == bits_value(bits.subrange(8 * off - valid0, 8 * off - valid0 + nbits)),
{
    let sh = (valid0 - nbits) as u64;
    assert forall|i: u64| i < 64 implies #[trigger] bit64(v, i) == (i < nbits && bit64(
        buffer,
        (i + sh) as u64,
    )) by {
        lemma_bit64_and(buffer >> sh, mask, i);
        lemma_bit64_shr(buffer, sh, i);
        if nbits < 64 {
            lemma_bit64_mask(nbits as u64, i);
        } else {
            lemma_bit_test(0, i);
        }
    }
    lemma_value_of_low_bits(v, nbits);
    assert(u64_bits(v, nbits) =~= bits.subrange(8 * off - valid0, 8 * off - valid0 + nbits));
}

/// Reading across a refill: the low `valid1` bits of the old buffer,
/// followed by the top `nbits - valid1` of the `valid2` bits of the new one.
proof fn lemma_read_span(
    bits: Seq<bool>,
    b1: u64,
    off1: nat,
    valid1: nat,
    b2: u64,
    off2: nat,
    valid2: nat,
    nbits: nat,
    w: u64,
)
    requires
        1 <= valid1 < nbits <= 64,
        valid1 <= 8 * off1,
        8 * off2 <= bits.len(),
        8 * off2 - valid2 == 8 * off1,
        nbits - valid1 <= valid2 <= 64,
        forall|j: u64| j < valid1 ==> #[trigger] bit64(b1, j) == bits[8 * off1 - 1 - j],
        forall|j: u64| j < valid2 ==> #[trigger] bit64(b2, j) == bits[8 * off2 - 1 - j],
        w == ((b1 & ((1u64 << (valid1 as u64)) - 1) as u64) << ((nbits - valid1) as u64)) | ((
        b2 >> ((valid2 - (nbits - valid1)) as u64)) & ((1u64 << ((nbits - valid1) as u64))
            - 1) as u64),
    ensures
        w == bits_value(bits.subrange(8 * off1 - valid1, 8 * off1 - valid1 + nbits)),
{
    let rem = (nbits - valid1) as u64;
    let m1 = ((1u64 << (valid1 as u64)) - 1) as u64;
    let m2 = ((1u64 << rem) - 1) as u64;
    let sh = (valid2 - rem) as u64;
    let left = (b1 & m1) << rem;
    let right = (b2 >> sh) & m2;
    assert forall|i: u64| i < 64 implies #[trigger] bit64(w, i) == ((rem <= i < nbits && bit64(
        b1,
        (i - rem) as u64,
    )) || (i < rem && bit64(b2, (i + sh) as u64))) by {
        lemma_bit64_or(left, right, i);
        lemma_bit64_shl(b1 & m1, rem, i);
        if i >= rem {
            lemma_bit64_and(b1, m1, (i - rem) as u64);
            lemma_bit64_mask(valid1 as u64, (i - rem) as u64);
        }
        lemma_bit64_and(b2 >> sh, m2, i);
        lemma_bit64_shr(b2, sh, i);
        lemma_bit64_mask(rem, i);
    }
    lemma_value_of_low_bits(w, nbits);
    assert forall|k: int| 0 <= k < nbits implies #[trigger] u64_bits(w, nbits)[k] == bits.subrange(
        8 * off1 - valid1,
        8 * off1 - valid1 + nbits,
    )[k] by {
        let i = (nbits - 1 - k) as u64;
        if k < valid1 {
            assert(bit64(b1, (i - rem) as u64) == bits[8 * off1 - 1 - (i - rem)]);
        } else {
            assert(bit64(b2, (i + sh) as u64) == bits[8 * off2 - 1 - (i + sh)]);
        }
    }
    assert(u64_bits(w, nbits) =~= bits.subrange(8 * off1 - valid1, 8 * off1 - valid1 + nbits));
}

/// Law: the bytes of a clean writer are the bits written followed by zero
/// padding, so a reader over them meets the written bits first.
pub proof fn lemma_writer_bytes(w: BitWriter)
    requires
        w.wf(),
        w.clean(),
    ensures
        stream_bits(w.stream_view()) == w.bits() + zero_bits(w.free_bits()),
{
    assert(stream_bits(w.stream_view()) =~= w.bits() + zero_bits(w.free_bits()));
}

/// Law: reading `n` bits where `write_bits(u, n)` put them gives back the
/// `n` low bits of `u`.
pub proof fn lemma_read_back_bits(bits: Seq<bool>, p: nat, u: u64, n: nat)
    requires
        n <= 64,
        p + n <= bits.len(),
        bits.subrange(p as int, (p + n) as int) == u64_bits(u, n),
    ensures
        read_bits_spec(bits, p, n) == (Ok::<u64, ReadError>((u as nat % pow2(n)) as u64), p + n),
{
    lemma_u64_bits_value(u, n);
}

/// The byte read at `p` where the bits of `b` were written is `b`.
proof fn lemma_read_back_byte(bits: Seq<bool>, p: int, b: u8)
    requires
        0 <= p,
        p + 8 <= bits.len(),
        bits.subrange(p, p + 8) == byte_bits(b),
    ensures
        byte_at(bits, p) == b,
{
    vstd::arithmetic::power2::lemma2_to64();
    lemma_value_of_byte(b);
}

/// A byte is spelled by its eight bits.
pub proof fn lemma_value_of_byte(b: u8)
    ensures
        bits_value(byte_bits(b)) == b,
{
    assert forall|i: u64| 8 <= i < 64 implies !#[trigger] bit64(b as u64, i) by {
        lemma_byte_widen(b, i);
    }
    lemma_value_of_low_bits(b as u64, 8);
}

/// Byte sequences with the same bits are the same.
pub proof fn lemma_stream_bits_injective(s1: Seq<u8>, s2: Seq<u8>)
    requires
        stream_bits(s1) == stream_bits(s2),
    ensures
        s1 == s2,
{
    assert(8 * s1.len() == 8 * s2.len()) by {
        assert(stream_bits(s1).len() == 8 * s1.len());
        assert(stream_bits(s2).len() == 8 * s2.len());
    }
    assert forall|j: int| 0 <= j < s1.len() implies s1[j] == s2[j] by {
        lemma_stream_bits_byte(s1, j);
        lemma_stream_bits_byte(s2, j);
        lemma_value_of_byte(s1[j]);
        lemma_value_of_byte(s2[j]);
    }
    assert(s1 =~= s2);
}

/// Law: writing the `n + 8` low bits of `u` leaves the same bytes as writing
/// the byte just above its `n` low bits and then those `n` bits; so writing
/// 16 bits is writing their high byte, then their low byte.
pub proof fn lemma_write_bits_bytewise(
    w0: BitWriter,
    w1: BitWriter,
    w2: BitWriter,
    w3: BitWriter,
    u: u64,
    n: nat,
)
    requires
        w0.wf(),
        n + 8 <= 64,
        w1.wrote(w0, u64_bits(u, n + 8)),
        w2.wrote(w0, byte_bits((u >> (n as u64)) as u8)),
        w3.wrote(w2, u64_bits(u, n)),
    ensures
        w1.stream_view() == w3.stream_view(),
        w1.free_bits() == w3.free_bits(),
{
    lemma_u64_bits_split(u, n);
    w3.lemma_wrote_compose(w2, w0, byte_bits((u >> (n as u64)) as u8), u64_bits(u, n));
    w1.lemma_wrote_unique(w3, w0, u64_bits(u, n + 8));
}

/// Law: reading a uvarint where the bytes of its encoding were written gives
/// it back, and moves past exactly those bytes.
pub proof fn lemma_read_back_uvarint(bits: Seq<bool>, p: nat, x: u64)
    requires
        p + 8 * uvarint_bytes(x as nat).len() <= bits.len(),
        bits.subrange(p as int, (p + 8 * uvarint_bytes(x as nat).len()) as int) == stream_bits(
            uvarint_bytes(x as nat),
        ),
    ensures
        read_uvarint_spec(bits, p) == (Ok::<u64, ReadError>(x), p + 8 * uvarint_bytes(
            x as nat,
        ).len()),
{
    let e = uvarint_bytes(x as nat);
    let k = e.len();
    let b = bytes_from(bits, p);
    lemma_uvarint_bytes_bound(x);
    assert(b.take(k as int) =~= e) by {
        assert forall|j: int| 0 <= j < k implies #[trigger] b[j] == e[j] by {
            lemma_stream_bits_byte(e, j);
            assert(bits.subrange(p + 8 * j, p + 8 * j + 8) =~= stream_bits(e).subrange(
                8 * j,
                8 * j + 8,
            ));
            lemma_read_back_byte(bits, p + 8 * j, e[j]);
        }
    }
    let first = if b.len() <= 10 {
        b
    } else {
        b.take(10)
    };
    assert(first =~= e + first.skip(k as int));
    lemma_uvarint_bytes_parse(x as nat, first.skip(k as int));
    assert(b[9] == e[9] || k < 10);
}

/// Law: reading a zigzag varint where its encoding was written gives it back.
pub proof fn lemma_read_back_varint(bits: Seq<bool>, p: nat, x: i64)
    requires
        p + 8 * uvarint_bytes(zigzag(x) as nat).len() <= bits.len(),
        bits.subrange(p as int, (p + 8 * uvarint_bytes(zigzag(x) as nat).len()) as int) == stream_bits(
            uvarint_bytes(zigzag(x) as nat),
        ),
    ensures
        read_varint_spec(bits, p) == (Ok::<i64, ReadError>(x), p + 8 * uvarint_bytes(
            zigzag(x) as nat,
        ).len()),
{
    lemma_read_back_uvarint(bits, p, zigzag(x));
    lemma_zigzag_inverse(x, 0);
}

/// MSB-first bit stream reader with an 8-byte buffered fast path.
#[derive(Debug)]
pub struct BitReader<'a> {
    stream: &'a [u8],
    stream_offset: usize,
    buffer: u64,
    valid: u8,
    last: u8,
}

impl<'a> BitReader<'a> {
    /// The bytes being read.
    pub closed spec fn stream_view(&self) -> Seq<u8> {
        self.stream@
    }

    /// The bit position of the next read.
    pub closed spec fn pos(&self) -> nat {
        (8 * self.stream_offset - self.valid) as nat
    }

    /// The buffer holds, in its `valid` low bits, the bits just before the
    /// next byte to load, and `last` is the stream's last byte.
    pub closed spec fn wf(&self) -> bool {
        &&& self.stream_offset <= self.stream@.len()
        &&& self.stream@.len() <= usize::MAX
        &&& self.valid <= 64
        &&& self.valid <= 8 * self.stream_offset
        &&& self.last == (if self.stream@.len() > 0 {
            self.stream@.last()
        } else {
            0u8
        })
        &&& forall|j: u64|
            j < self.valid ==> #[trigger] bit64(self.buffer, j) == stream_bits(self.stream@)[8
                * self.stream_offset - 1 - j]
    }

    /// The bits of the stream.
    pub open spec fn bits(&self) -> Seq<bool> {
        stream_bits(self.stream_view())
    }

    /// A consistent reader never stands past the end of its bits.
    pub proof fn lemma_pos_bound(&self)
        requires
            self.wf(),
        ensures
            self.pos() <= self.bits().len(),
    {
    }

    /// A reader at the first bit of `stream`.
    pub fn new(stream: &'a [u8]) -> (r: Self)
        ensures
            r.wf(),
            r.stream_view() == stream@,
            r.pos() == 0,
    {
        let n = stream.len();
        let last = if n > 0 {
            stream[n - 1]
        } else {
            0
        };
        BitReader { stream, stream_offset: 0, buffer: 0, valid: 0, last }
    }

    /// Packs the `nbytes` bytes from the current offset into the low end of a
    /// `u64`, first byte highest, taking the final byte of the stream from
    /// `last`.
    fn load_bytes(&self, nbytes: usize) -> (buffer: u64)
        requires
            self.wf(),
            nbytes <= 8,
            self.stream_offset + nbytes <= self.stream@.len(),
        ensures
            forall|j: u64|
                j < 8 * nbytes ==> #[trigger] bit64(buffer, j) == stream_bits(self.stream@)[8 * (
                self.stream_offset + nbytes) - 1 - j],
    {
        let mut buffer: u64 = 0;
        let mut i: usize = 0;
        while i < nbytes
            invariant
                self.wf(),
                nbytes <= 8,
                i <= nbytes,
                self.stream_offset + nbytes <= self.stream@.len(),
                forall|j: u64|
                    j < 8 * i ==> #[trigger] bit64(buffer, j) == stream_bits(self.stream@)[8 * (
                    self.stream_offset + i) - 1 - j],
            decreases nbytes - i,
        {
            let idx = self.stream_offset + i;
            let b = if idx == self.stream.len() - 1 {
                self.last
            } else {
                self.stream[idx]
            };
            let ghost old_buf = buffer;
            buffer = (buffer << 8u64) | (b as u64);
            i += 1;
            proof {
                assert(b == self.stream@[idx as int]);
                assert forall|j: u64| j < 8 * i implies #[trigger] bit64(buffer, j) == stream_bits(
                    self.stream@,
                )[8 * (self.stream_offset + i) - 1 - j] by {
                    lemma_bit64_or(old_buf << 8u64, b as u64, j);
                    lemma_bit64_shl(old_buf, 8, j);
                    if j >= 8 {
                        lemma_byte_widen(b, j);
                        assert(bit64(old_buf, (j - 8) as u64) == stream_bits(self.stream@)[8 * (
                        self.stream_offset + i - 1) - 1 - (j - 8)]);
                    } else {
                        let k = 8 * (self.stream_offset + i) - 1 - j;
                        assert(k / 8 == idx);
                        assert(k % 8 == 7 - j);
                    }
                }
            }
        }
        buffer
    }

    /// Refills an empty buffer: eight bytes when more than eight remain,
    /// else just enough for `nbits_min` bits (at most what remains). False
    /// at the end of the stream.
    fn load_next_buffer(&mut self, nbits_min: u8) -> (r: bool)
        requires
            old(self).wf(),
            old(self).valid == 0,
            nbits_min <= 64,
        ensures
            final(self).wf(),
            final(self).stream_view() == old(self).stream_view(),
            final(self).pos() == old(self).pos(),
            r == (old(self).stream_offset < old(self).stream@.len()),
            !r ==> *final(self) == *old(self),
            r ==> final(self).stream == old(self).stream && final(self).last == old(self).last,
            r ==> final(self).stream_offset == old(self).stream_offset + (if old(self).stream@.len()
                - old(self).stream_offset > 8 {
                8
            } else if (nbits_min / 8 + 1) < old(self).stream@.len() - old(self).stream_offset {
                (nbits_min / 8 + 1) as int
            } else {
                old(self).stream@.len() - old(self).stream_offset
            }),
            r ==> final(self).valid == 8 * (final(self).stream_offset - old(self).stream_offset),
            r ==> final(self).valid > 0 && (final(self).valid >= nbits_min
                || final(self).stream_offset == final(self).stream@.len()),
    {
        if self.stream_offset >= self.stream.len() {
            return false;
        }
        if self.stream.len() - self.stream_offset > 8 {
            self.buffer = self.load_bytes(8);
            self.stream_offset += 8;
            self.valid = 64;
            return true;
        }
        let remaining = self.stream.len() - self.stream_offset;
        let want = (nbits_min as usize / 8) + 1;
        let nbytes = if want < remaining {
            want
        } else {
            remaining
        };
        self.buffer = self.load_bytes(nbytes);
        self.stream_offset += nbytes;
        self.valid = (nbytes * 8) as u8;
        true
    }

    /// Reads one bit.
    pub fn read_bit(&mut self) -> (r: Result<bool, ReadError>)
        requires
            old(self).wf(),
        ensures
            final(self).wf(),
            final(self).stream_view() == old(self).stream_view(),
            (r, final(self).pos()) == read_bit_spec(old(self).bits(), old(self).pos()),
    {
        if self.valid == 0 && !self.load_next_buffer(1) {
            return Err(ReadError::EndOfStream);
        }
        self.valid -= 1;
        let r = (self.buffer & (1u64 << (self.valid as u64))) != 0;
        proof {
            lemma_bit64_and(self.buffer, 1u64 << (self.valid as u64), self.valid as u64);
            lemma_bit64_shl(1, self.valid as u64, self.valid as u64);
            lemma_bit64_consts(0);
            assert(r == bit64(self.buffer, self.valid as u64)) by {
                lemma_bit_test(self.buffer, self.valid as u64);
            }
        }
        Ok(r)
    }

    /// Reads one byte.
    pub fn read_byte(&mut self) -> (r: Result<u8, ReadError>)
        requires
            old(self).wf(),
        ensures
            final(self).wf(),
            final(self).stream_view() == old(self).stream_view(),
            ({
                let (e, p) = read_bits_spec(old(self).bits(), old(self).pos(), 8);
                &&& final(self).pos() == p
                &&& r == (match e {
                    Ok(v) => Ok(v as u8),
                    Err(x) => Err(x),
                })
            }),
    {
        match self.read_bits(8) {
            Ok(v) => Ok(v as u8),
            Err(e) => Err(e),
        }
    }

    /// Reads the next `nbits` bits as a number, first bit most significant.
    pub fn read_bits(&mut self, nbits: u8) -> (r: Result<u64, ReadError>)
        requires
            old(self).wf(),
            nbits <= 64,
        ensures
            final(self).wf(),
            final(self).stream_view() == old(self).stream_view(),
            (r, final(self).pos()) == read_bits_spec(old(self).bits(), old(self).pos(), nbits as nat),
    {
        let ghost bits = self.bits();
        let ghost pos0 = self.pos();
        if nbits == 0 {
            proof {
                assert(bits.subrange(pos0 as int, pos0 as int) =~= Seq::<bool>::empty());
            }
            return Ok(0);
        }
        if self.valid == 0 && !self.load_next_buffer(nbits) {
            return Err(ReadError::EndOfStream);
        }
        if nbits <= self.valid {
            let mask = if nbits == 64 {
                u64::MAX
            } else {
                proof {
                    lemma_bit_test(0, nbits as u64);
                }
                (1u64 << (nbits as u64)) - 1
            };
            let ghost valid0 = self.valid;
            self.valid -= nbits;
            let v = (self.buffer >> (self.valid as u64)) & mask;
            proof {
                lemma_read_fast(
                    bits,
                    self.buffer,
                    self.stream_offset as nat,
                    valid0 as nat,
                    nbits as nat,
                    mask,
                    v,
                );
            }
            return Ok(v);
        }
        proof {
            lemma_bit_test(0, self.valid as u64);
        }
        let low_mask = (1u64 << (self.valid as u64)) - 1;
        let remaining = nbits - self.valid;
        let ghost first = *self;
        let v = (self.buffer & low_mask) << (remaining as u64);
        self.valid = 0;
        if !self.load_next_buffer(remaining) {
            return Err(ReadError::EndOfStream);
        }
        if remaining > self.valid {
            self.valid = 0;
            return Err(ReadError::EndOfStream);
        }
        proof {
            lemma_bit_test(0, remaining as u64);
        }
        let hi_mask = (1u64 << (remaining as u64)) - 1;
        let w = v | ((self.buffer >> ((self.valid - remaining) as u64)) & hi_mask);
        self.valid -= remaining;
        proof {
            lemma_read_span(
                bits,
                first.buffer,
                first.stream_offset as nat,
                first.valid as nat,
                self.buffer,
                self.stream_offset as nat,
                (self.valid + remaining) as nat,
                nbits as nat,
                w,
            );
        }
        Ok(w)
    }

    /// Reads a uvarint, byte by byte.
    pub fn read_uvarint(&mut self) -> (r: Result<u64, ReadError>)
        requires
            old(self).wf(),
        ensures
            final(self).wf(),
            final(self).stream_view() == old(self).stream_view(),
            (r, final(self).pos()) == read_uvarint_spec(old(self).bits(), old(self).pos()),
    {
        let ghost bits = self.bits();
        let ghost pos0 = self.pos();
        let ghost b = bytes_from(bits, pos0);
        let mut x: u64 = 0;
        let mut s: u64 = 0;
        let mut i: usize = 0;
        proof {
            vstd::arithmetic::power2::lemma2_to64();
            assert(b.take(0) =~= Seq::<u8>::empty());
        }
        while i < MAX_VARINT_LEN64
            invariant
                self.wf(),
                self.stream_view() == old(self).stream_view(),
                bits == self.bits(),
                bits == old(self).bits(),
                pos0 == old(self).pos(),
                b == bytes_from(bits, pos0),
                pos0 <= bits.len(),
                i <= MAX_VARINT_LEN64,
                i <= b.len(),
                self.pos() == pos0 + 8 * i,
                s == 7 * i,
                forall|j: int| 0 <= j < i ==> b[j] >= 128,
                i < MAX_VARINT_LEN64 ==> x == base128_value(b.take(i as int)),
                i < MAX_VARINT_LEN64 ==> x < pow2(7 * i as nat),
            decreases MAX_VARINT_LEN64 - i,
        {
            let ghost p = self.pos();
            let byt = match self.read_byte() {
                Ok(byt) => byt,
                Err(e) => {
                    proof {
                        assert(i == b.len());
                        lemma_uvarint_len_skip(b, i as nat);
                        assert(b.skip(i as int).len() == 0);
                    }
                    if i > 0 && e == ReadError::EndOfStream {
                        return Err(ReadError::UnexpectedEnd);
                    }
                    return Err(e);
                },
            };
            proof {
                lemma_bits_value_bound(bits.subrange(p as int, (p + 8) as int));
                vstd::arithmetic::power2::lemma2_to64();
                assert(i < b.len());
                assert(byt == b[i as int]);
                let first = if b.len() <= 10 {
                    b
                } else {
                    b.take(10)
                };
                lemma_uvarint_len_skip(first, i as nat);
                assert(first.skip(i as int)[0] == byt);
                if byt >= 0x80 {
                    lemma_uvarint_len_skip(first.skip(i as int), 1);
                    assert(first.skip(i as int).skip(1) =~= first.skip(i + 1));
                }
            }
            if byt < 0x80 {
                proof {
                    let first = if b.len() <= 10 {
                        b
                    } else {
                        b.take(10)
                    };
                    assert(uvarint_len(first) == Some((i + 1) as nat));
                    assert(b[i as int] == byt);
                }
                if i == MAX_VARINT_LEN64 - 1 && byt > 1 {
                    return Err(ReadError::VarintOverflow);
                }
                proof {
                    lemma_uvarint_step(b, i as nat, x);
                    assert(byt % 128 == byt);
                    assert(b.take(i + 1) == b.take(((i + 1) as nat) as int));
                }
                return Ok(x | ((byt as u64) << s));
            }
            proof {
                lemma_low7(byt);
                if i < 9 {
                    lemma_uvarint_step(b, i as nat, x);
                }
            }
            x |= ((byt & 0x7f) as u64) << s;
            s += 7;
            i += 1;
        }
        proof {
            let first = if b.len() <= 10 {
                b
            } else {
                b.take(10)
            };
            assert(first =~= b.take(10));
            assert forall|j: int| 0 <= j < 10 implies first[j] >= 128 by {
                assert(b[j] >= 128);
            }
            lemma_uvarint_len_skip(first, 10);
            assert(first.skip(10).len() == 0);
        }
        Err(ReadError::VarintOverflow)
    }

    /// Reads a zigzag varint, byte by byte.
    pub fn read_varint(&mut self) -> (r: Result<i64, ReadError>)
        requires
            old(self).wf(),
        ensures
            final(self).wf(),
            final(self).stream_view() == old(self).stream_view(),
            (r, final(self).pos()) == read_varint_spec(old(self).bits(), old(self).pos()),
    {
        let ux = match self.read_uvarint() {
            Ok(ux) => ux,
            Err(e) => return Err(e),
        };
        let mut x = (ux >> 1) as i64;
        if ux & 1 != 0 {
            x = !x;
        }
        proof {
            lemma_unzigzag_bits(ux);
        }
        Ok(x)
    }

    /// Whether every bit has been read.
    pub fn at_end(&self) -> (r: bool)
        requires
            self.wf(),
        ensures
            r == (self.pos() == self.bits().len()),
    {
        self.valid == 0 && self.stream_offset >= self.stream.len()
    }
}

} // verus!
