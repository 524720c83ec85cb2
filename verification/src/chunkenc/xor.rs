//! XOR / Gorilla chunk of `(timestamp, value)` samples, where a value is the
//! IEEE 754 bit pattern of a float.
//!
//! Layout: a two-byte big-endian sample count, then a bit stream. The first
//! sample is a zigzag varint timestamp and the 64 value bits; the second a
//! uvarint timestamp delta; later ones a prefix-coded delta of deltas. Each
//! value after the first is the XOR with the previous value, written as a
//! window of significant bits.
use vstd::prelude::*;
use vstd::arithmetic::power2::pow2;
use vstd::std_specs::bits::{u64_leading_zeros, u64_trailing_zeros};
use vstd::wrapping::{i64_specs, u8_specs};

use crate::encoding::bits::{bit64, byte_bits, lemma_stream_bits_push, lemma_stream_bits_update, or_into, stream_bits, u64_bits};
use crate::encoding::bstream::{
    lemma_read_bits_bound, read_bit_spec, read_bits_spec, read_uvarint_spec, read_varint_spec, BitReader, BitWriter,
};
use crate::encoding::varint::{put_uvarint, put_varint, uvarint_bytes, zigzag, MAX_VARINT_LEN64};
use crate::encoding::ReadError;

verus! {

const CHUNK_HEADER_SIZE: usize = 2;

const CHUNK_ALLOCATION_SIZE: usize = 128;

const CHUNK_COMPACT_CAPACITY_THRESHOLD: usize = 32;

const LEADING_SENTINEL: u8 = 0xff;

/// Maximum byte size used by Prometheus for XOR chunks.
pub const MAX_BYTES_PER_XOR_CHUNK: usize = 1024;

/// Errors returned by XOR chunk append/replay operations.
#[derive(Debug, Clone, Copy, PartialEq, Eq, Structural)]
pub enum XorError {
    /// The encoded chunk could not be read while reconstructing appender state.
    Read(ReadError),
    /// The two-byte sample counter is already at its maximum.
    ChunkFull,
    /// Timestamps in an XOR chunk must be monotonically non-decreasing.
    TimestampOutOfOrder,
}

impl From<ReadError> for XorError {
    fn from(e: ReadError) -> (r: XorError) {
        XorError::Read(e)
    }
}

impl vstd::std_specs::convert::FromSpecImpl<ReadError> for XorError {
    open spec fn obeys_from_spec() -> bool {
        true
    }

    open spec fn from_spec(e: ReadError) -> XorError {
        XorError::Read(e)
    }
}

/// What the encoder and the decoder carry from one sample to the next: the
/// last timestamp and value, the last timestamp delta, and the current
/// window of significant value bits.
pub struct XorState {
    pub t: i64,
    pub v: u64,
    pub t_delta: u64,
    pub leading: u8,
    pub trailing: u8,
}

/// The encoder's state before the first sample (`leading` 0xff means no
/// window yet).
pub open spec fn initial_encoder() -> XorState {
    XorState { t: i64::MIN, v: 0, t_delta: 0, leading: 0xff, trailing: 0 }
}

/// The decoder's state before the first sample.
pub open spec fn initial_decoder() -> XorState {
    XorState { t: i64::MIN, v: 0, t_delta: 0, leading: 0, trailing: 0 }
}

/// The sample count held by the two header bytes (big-endian).
pub open spec fn header_of(s: Seq<u8>) -> u16 {
    (s[0] as int * 256 + s[1] as int) as u16
}

/// `-(2^(n-1) - 1) <= x <= 2^(n-1)`: the (asymmetric) range of
/// delta-of-deltas that an `n`-bit field holds.
pub open spec fn in_bit_range(x: i64, n: nat) -> bool {
    -(pow2((n - 1) as nat) - 1) <= x <= pow2((n - 1) as nat)
}

/// The prefix code of a delta of timestamp deltas.
pub open spec fn dod_bits(dod: i64) -> Seq<bool> {
    if dod == 0 {
        seq![false]
    } else if in_bit_range(dod, 14) {
        u64_bits(0b10, 2) + u64_bits(dod as u64, 14)
    } else if in_bit_range(dod, 17) {
        u64_bits(0b110, 3) + u64_bits(dod as u64, 17)
    } else if in_bit_range(dod, 20) {
        u64_bits(0b1110, 4) + u64_bits(dod as u64, 20)
    } else {
        u64_bits(0b1111, 4) + u64_bits(dod as u64, 64)
    }
}

/// Leading zeros of a non-zero XOR, capped at 31 to fit a 5-bit field.
pub open spec fn leading_of(delta: u64) -> u8 {
    if u64_leading_zeros(delta) >= 32 {
        31
    } else {
        u64_leading_zeros(delta) as u8
    }
}

/// Trailing zeros of a non-zero XOR.
pub open spec fn trailing_of(delta: u64) -> u8 {
    u64_trailing_zeros(delta) as u8
}

/// The bits that encode a value's XOR `delta` with the previous value, given
/// the current window, and the window afterwards: one `0` for an unchanged
/// value; `1 0` and the bits inside the current window when they fit in it;
/// else `1 1`, the new leading-zero count (5 bits), the number of significant
/// bits (6 bits, 64 written as 0) and those bits.
pub open spec fn value_bits(delta: u64, leading: u8, trailing: u8) -> (Seq<bool>, u8, u8) {
    if delta == 0 {
        (seq![false], leading, trailing)
    } else {
        let nl = leading_of(delta);
        let nt = trailing_of(delta);
        if leading != 0xff && nl >= leading && nt >= trailing {
            (
                seq![true, false] + u64_bits(
                    delta >> (trailing as u64),
                    (64 - leading - trailing) as nat,
                ),
                leading,
                trailing,
            )
        } else {
            let sig = (64 - nl - nt) as nat;
            (
                seq![true, true] + u64_bits(nl as u64, 5) + u64_bits(sig as u64, 6) + u64_bits(
                    delta >> (nt as u64),
                    sig,
                ),
                nl,
                nt,
            )
        }
    }
}

/// Whether appending a sample with timestamp `t` to a chunk of `num` samples
/// whose last timestamp is `st.t` is accepted.
pub open spec fn append_check(num: u16, st: XorState, t: i64) -> Result<(), XorError> {
    if num == 0 {
        Ok(())
    } else if num == u16::MAX {
        Err(XorError::ChunkFull)
    } else if t < st.t {
        Err(XorError::TimestampOutOfOrder)
    } else {
        Ok(())
    }
}

/// The bits that encode sample number `num` with timestamp `t` and value `v`
/// after state `st`, and the state afterwards.
pub open spec fn sample_bits(num: u16, st: XorState, t: i64, v: u64) -> (Seq<bool>, XorState) {
    if num == 0 {
        (
            stream_bits(uvarint_bytes(zigzag(t) as nat)) + u64_bits(v, 64),
            XorState { t, v, t_delta: 0, leading: st.leading, trailing: st.trailing },
        )
    } else {
        let td = (t - st.t) as u64;
        let tb = if num == 1 {
            stream_bits(uvarint_bytes(td as nat))
        } else {
            dod_bits(i64_specs::wrapping_sub(td as i64, st.t_delta as i64))
        };
        let (vb, l, tr) = value_bits(v ^ st.v, st.leading, st.trailing);
        (tb + vb, XorState { t, v, t_delta: td, leading: l, trailing: tr })
    }
}

/// Encoding `samples` one after another into an empty chunk: the payload
/// bits and the encoder's state, or the error of the first refused sample.
pub open spec fn encode_samples(samples: Seq<(i64, u64)>) -> Result<(Seq<bool>, XorState), XorError>
    decreases samples.len(),
{
    if samples.len() == 0 {
        Ok((Seq::empty(), initial_encoder()))
    } else {
        match encode_samples(samples.drop_last()) {
            Err(e) => Err(e),
            Ok((bits, st)) => {
                let num = (samples.len() - 1) as u16;
                let (t, v) = samples.last();
                match append_check(num, st, t) {
                    Err(e) => Err(e),
                    Ok(_) => {
                        let (sb, st2) = sample_bits(num, st, t, v);
                        Ok((bits + sb, st2))
                    },
                }
            },
        }
    }
}

/// A writer that holds a clean chunk of `num` samples whose bit stream after
/// the header is `payload`.
pub open spec fn holds(w: BitWriter, num: u16, payload: Seq<bool>) -> bool {
    &&& w.wf()
    &&& w.clean()
    &&& w.stream_view().len() >= 2
    &&& w.bit_len() >= 16
    &&& header_of(w.stream_view()) == num
    &&& w.bits().skip(16) == payload
}

/// The first steps of reading a delta-of-delta prefix: up to four bits, one
/// at a time, stopping after the first `0`; `d` collects them.
pub open spec fn dod_prefix_spec(bits: Seq<bool>, pos: nat, i: nat, d: u8) -> (Result<u8, ReadError>, nat)
    decreases 4 - i,
{
    if i >= 4 {
        (Ok(d), pos)
    } else {
        let (r, p) = read_bit_spec(bits, pos);
        match r {
            Err(e) => (Err(e), p),
            Ok(false) => (Ok((2 * d) as u8), p),
            Ok(true) => dod_prefix_spec(bits, p, i + 1, (2 * d + 1) as u8),
        }
    }
}

/// `b`, an `sz`-bit two's complement field, as a signed number, where the
/// values up to `2^(sz-1)` count as positive.
pub open spec fn sign_extend(b: u64, sz: nat) -> i64 {
    if b > pow2((sz - 1) as nat) {
        (b - pow2(sz)) as i64
    } else {
        b as i64
    }
}

/// What reading a delta of deltas at `pos` gives.
pub open spec fn read_dod_spec(bits: Seq<bool>, pos: nat) -> (Result<i64, ReadError>, nat) {
    let (r, p) = dod_prefix_spec(bits, pos, 0, 0);
    match r {
        Err(e) => (Err(e), p),
        Ok(d) => if d == 0 {
            (Ok(0), p)
        } else if d == 0b10 || d == 0b110 || d == 0b1110 {
            let sz: nat = if d == 0b10 {
                14
            } else if d == 0b110 {
                17
            } else {
                20
            };
            let (r2, p2) = read_bits_spec(bits, p, sz);
            match r2 {
                Err(e) => (Err(e), p2),
                Ok(b) => (Ok(sign_extend(b, sz)), p2),
            }
        } else {
            let (r2, p2) = read_bits_spec(bits, p, 64);
            match r2 {
                Err(e) => (Err(e), p2),
                Ok(b) => (Ok(b as i64), p2),
            }
        },
    }
}

/// The width of the significant-bits window `leading`/`trailing` describe,
/// in wrapping byte arithmetic.
pub open spec fn window_width(leading: u8, trailing: u8) -> u8 {
    u8_specs::wrapping_sub(u8_specs::wrapping_sub(64, leading), trailing)
}

/// `b << s`, or zero when `s` is 64 or more.
pub open spec fn shl_or_zero(b: u64, s: u8) -> u64 {
    if s < 64 {
        b << (s as u64)
    } else {
        0
    }
}

/// Reading `mbits` significant bits and XOR-ing them, shifted left by
/// `shift`, into the value.
pub open spec fn read_window_spec(bits: Seq<bool>, p: nat, st: XorState, mbits: u8, shift: u8) -> (
    Result<(), ReadError>,
    nat,
    XorState,
) {
    let (r, q) = read_bits_spec(bits, p, mbits as nat);
    match r {
        Err(e) => (Err(e), q, st),
        Ok(b) => (Ok(()), q, XorState { v: st.v ^ shl_or_zero(b, shift), ..st }),
    }
}

/// What reading an XOR-coded value at `pos` after state `st` gives.
pub open spec fn read_value_spec(bits: Seq<bool>, pos: nat, st: XorState) -> (
    Result<(), ReadError>,
    nat,
    XorState,
) {
    let (r1, p1) = read_bit_spec(bits, pos);
    match r1 {
        Err(e) => (Err(e), p1, st),
        Ok(false) => (Ok(()), p1, st),
        Ok(true) => {
            let (r2, p2) = read_bit_spec(bits, p1);
            match r2 {
                Err(e) => (Err(e), p2, st),
                Ok(false) => read_window_spec(
                    bits,
                    p2,
                    st,
                    window_width(st.leading, st.trailing),
                    st.trailing,
                ),
                Ok(true) => {
                    let (r3, p3) = read_bits_spec(bits, p2, 5);
                    match r3 {
                        Err(e) => (Err(e), p3, st),
                        Ok(l) => {
                            let (r4, p4) = read_bits_spec(bits, p3, 6);
                            match r4 {
                                Err(e) => (Err(e), p4, st),
                                Ok(m) => {
                                    let mbits: u8 = if m == 0 {
                                        64
                                    } else {
                                        m as u8
                                    };
                                    let nt = u8_specs::wrapping_sub(
                                        u8_specs::wrapping_sub(64, l as u8),
                                        mbits,
                                    );
                                    read_window_spec(
                                        bits,
                                        p4,
                                        XorState { leading: l as u8, trailing: nt, ..st },
                                        mbits,
                                        nt,
                                    )
                                },
                            }
                        },
                    }
                },
            }
        },
    }
}

/// Reading the value that follows a timestamp, then counting the sample.
pub open spec fn value_step(bits: Seq<bool>, p: nat, num_read: u16, st: XorState) -> (
    Result<Option<(i64, u64)>, ReadError>,
    nat,
    u16,
    XorState,
) {
    let (r, q, st2) = read_value_spec(bits, p, st);
    match r {
        Err(e) => (Err(e), q, num_read, st2),
        Ok(_) => (Ok(Some((st2.t, st2.v))), q, (num_read + 1) as u16, st2),
    }
}

/// What one step of iteration gives at bit position `pos`, with `num_read`
/// of `total` samples read and state `st`: the sample (or `None` when all
/// were read) or the error, and the position, count and state afterwards.
pub open spec fn iter_next_spec(
    bits: Seq<bool>,
    pos: nat,
    total: u16,
    num_read: u16,
    st: XorState,
) -> (Result<Option<(i64, u64)>, ReadError>, nat, u16, XorState) {
    if num_read == total {
        (Ok(None), pos, num_read, st)
    } else if num_read == 0 {
        let (r1, p1) = read_varint_spec(bits, pos);
        match r1 {
            Err(e) => (Err(e), p1, num_read, st),
            Ok(t) => {
                let st1 = XorState { t, ..st };
                let (r2, p2) = read_bits_spec(bits, p1, 64);
                match r2 {
                    Err(e) => (Err(e), p2, num_read, st1),
                    Ok(v) => (Ok(Some((t, v))), p2, 1, XorState { v, ..st1 }),
                }
            },
        }
    } else if num_read == 1 {
        let (r1, p1) = read_uvarint_spec(bits, pos);
        match r1 {
            Err(e) => (Err(e), p1, num_read, st),
            Ok(td) => value_step(
                bits,
                p1,
                num_read,
                XorState { t: i64_specs::wrapping_add(st.t, td as i64), t_delta: td, ..st },
            ),
        }
    } else {
        let (r1, p1) = read_dod_spec(bits, pos);
        match r1 {
            Err(e) => (Err(e), p1, num_read, st),
            Ok(dod) => {
                let td = i64_specs::wrapping_add(st.t_delta as i64, dod) as u64;
                value_step(
                    bits,
                    p1,
                    num_read,
                    XorState { t: i64_specs::wrapping_add(st.t, td as i64), t_delta: td, ..st },
                )
            },
        }
    }
}

/// The samples that `k` more steps of iteration read, stopping early at the
/// end of the samples, or the first error.
pub open spec fn decode_steps(
    bits: Seq<bool>,
    pos: nat,
    total: u16,
    num_read: u16,
    st: XorState,
    k: nat,
) -> Result<Seq<(i64, u64)>, ReadError>
    decreases k,
{
    if k == 0 {
        Ok(Seq::empty())
    } else {
        let (r, p, n, st2) = iter_next_spec(bits, pos, total, num_read, st);
        match r {
            Err(e) => Err(e),
            Ok(None) => Ok(Seq::empty()),
            Ok(Some(x)) => match decode_steps(bits, p, total, n, st2, (k - 1) as nat) {
                Err(e) => Err(e),
                Ok(rest) => Ok(seq![x] + rest),
            },
        }
    }
}

/// The samples a chunk with bytes `s` holds, as iteration reads them.
pub open spec fn decode_chunk(s: Seq<u8>) -> Result<Seq<(i64, u64)>, ReadError> {
    decode_steps(
        stream_bits(s.skip(2)),
        0,
        header_of(s),
        0,
        initial_decoder(),
        header_of(s) as nat,
    )
}

/// Conversions between the signed and unsigned 64-bit views of a number.
pub(crate) proof fn lemma_i64_u64(x: i64, y: u64)
    by (bit_vector)
    ensures
        (x as u64) as i64 == x,
        (y as i64) as u64 == y,
        x < 0 ==> (x as u64) as int == x as int + 0x1_0000_0000_0000_0000int,
        x >= 0 ==> (x as u64) as int == x as int,
        y < 0x8000_0000_0000_0000u64 ==> (y as i64) as int == y as int,
        y >= 0x8000_0000_0000_0000u64 ==> (y as i64) as int == y as int
            - 0x1_0000_0000_0000_0000int,
{
}

/// A power of two as a signed shift.
proof fn lemma_i64_shl(k: u64)
    by (bit_vector)
    requires
        k <= 62,
    ensures
        (1i64 << k) == ((1u64 << k) as i64),
        (1u64 << k) < 0x8000_0000_0000_0000u64,
{
}

/// The two header bytes and the count they hold.
proof fn lemma_header_bytes(n: u16, a: u8, b: u8)
    by (bit_vector)
    ensures
        ((n >> 8u16) as u8) as u16 == n / 256,
        (n as u8) as u16 == n % 256,
        ((a as u16) << 8u16) | (b as u16) == (a as u16) * 256 + (b as u16),
{
}

/// The leading and trailing zeros of a non-zero `u64` leave room for its
/// top and bottom set bits.
pub(crate) proof fn lemma_lz_tz(delta: u64)
    requires
        delta != 0,
    ensures
        u64_leading_zeros(delta) + u64_trailing_zeros(delta) <= 63,
        u64_trailing_zeros(delta) < 64,
{
    vstd::std_specs::bits::axiom_u64_leading_zeros(delta);
    vstd::std_specs::bits::axiom_u64_trailing_zeros(delta);
    let tz = u64_trailing_zeros(delta) as u64;
    if u64_leading_zeros(delta) + tz > 63 {
        assert((delta >> tz) & 1u64 == 0u64);
    }
}

/// The 14-bit delta-of-delta case, written as two bytes: `1 0` and the top
/// six bits, then the low eight bits.
proof fn lemma_dod14_bytes(dod: i64)
    ensures
        byte_bits((0b10u8 << 6u8) | (((dod >> 8u64) as u8) & 0x3fu8)) + byte_bits(dod as u8)
            =~= u64_bits(0b10, 2) + u64_bits(dod as u64, 14),
{
    let x = dod as u64;
    let hi = (0b10u8 << 6u8) | (((dod >> 8u64) as u8) & 0x3fu8);
    let lo = dod as u8;
    lemma_dod14_bits(dod);
    let target = u64_bits(0b10, 2) + u64_bits(x, 14);
    assert(byte_bits(hi) =~= target.take(8)) by {
        assert forall|j: int| 0 <= j < 8 implies #[trigger] byte_bits(hi)[j] == target.take(8)[j] by {
            lemma_bit_of_hi(x, (7 - j) as u64);
            lemma_bit_of_lo(x, 0);
            if j == 0 {
                assert(target[0] == bit64(2, 1));
            } else if j == 1 {
                assert(target[1] == bit64(2, 0));
            } else {
                assert(target[j] == bit64(x, (15 - j) as u64));
            }
        }
    }
    assert(byte_bits(lo) =~= target.skip(8)) by {
        assert forall|j: int| 0 <= j < 8 implies #[trigger] byte_bits(lo)[j] == target.skip(8)[j] by {
            lemma_bit_of_lo(x, (7 - j) as u64);
        }
    }
    assert(target =~= target.take(8) + target.skip(8));
}

/// The two bytes of the 14-bit case in terms of the unsigned view.
proof fn lemma_dod14_bits(dod: i64)
    by (bit_vector)
    ensures
        (0b10u8 << 6u8) | (((dod >> 8u64) as u8) & 0x3fu8) == (((((dod as u64) >> 8u64) & 0x3f)
            | 0x80) as u8),
        (dod as u8) == ((dod as u64) as u8),
{
}

/// Bit `i` of the first byte of the 14-bit case.
proof fn lemma_bit_of_hi(x: u64, i: u64)
    by (bit_vector)
    requires
        i < 8,
    ensures
        ((((((x >> 8u64) & 0x3f) | 0x80) as u8) as u64 >> i) & 1 == 1) == (if i >= 6 {
            i == 7
        } else {
            (x >> (i + 8)) & 1 == 1
        }),
{
}

/// Bit `i` of the second byte of the 14-bit case.
proof fn lemma_bit_of_lo(x: u64, i: u64)
    by (bit_vector)
    requires
        i < 8,
    ensures
        ((((x as u8) as u64) >> i) & 1 == 1) == ((x >> i) & 1 == 1),
        (2u64 >> 1u64) & 1 == 1,
        (2u64 >> 0u64) & 1 == 0,
{
}

/// Rewriting the two header bytes leaves the bits after them alone.
proof fn lemma_header_update(s: Seq<u8>, a: u8, b: u8)
    requires
        s.len() >= 2,
    ensures
        stream_bits(s.update(0, a).update(1, b)).skip(16) =~= stream_bits(s).skip(16),
        header_of(s.update(0, a).update(1, b)) == (a as int * 256 + b as int) as u16,
{
    lemma_stream_bits_update(s, 0, a);
    lemma_stream_bits_update(s.update(0, a), 1, b);
}

/// The writer after an append: the bits written after the header, and the
/// new count in the header.
proof fn lemma_holds_after_append(w0: BitWriter, w1: BitWriter, w2: BitWriter, num: u16, sb: Seq<bool>)
    requires
        w0.wf(),
        w0.stream_view().len() >= 2,
        w1.wrote(w0, sb),
        w2.free_bits() == w1.free_bits(),
        w2.stream_view().len() == w1.stream_view().len(),
        stream_bits(w2.stream_view()).skip(16) == stream_bits(w1.stream_view()).skip(16),
    ensures
        w2.wf(),
        w2.bit_len() == w0.bit_len() + sb.len(),
        w2.stream_view().len() >= 2,
        stream_bits(w2.stream_view()).skip(16) == or_into(
            stream_bits(w0.stream_view()),
            w0.bit_len() as int,
            sb,
            8 * w2.stream_view().len(),
        ).skip(16),
        forall|p: Seq<bool>|
            holds(w0, num, p) && header_of(w2.stream_view()) == (num + 1) as u16 ==> holds(
                w2,
                (num + 1) as u16,
                p + sb,
            ),
{
    assert(8 * w1.stream_view().len() >= w1.bit_len());
    assert(w1.stream_view().len() >= w0.stream_view().len());
    w1.lemma_wrote_clean(w0, sb);
    assert forall|p: Seq<bool>|
        holds(w0, num, p) && header_of(w2.stream_view()) == (num + 1) as u16 implies holds(
        w2,
        (num + 1) as u16,
        p + sb,
    ) by {
        assert(w1.clean());
        assert(w2.bit_len() == w1.bit_len());
        assert(w2.bit_len() >= 16);
        assert forall|i: int| w2.bit_len() <= i < 8 * w2.stream_view().len() implies !#[trigger] stream_bits(
            w2.stream_view(),
        )[i] by {
            assert(stream_bits(w2.stream_view())[i] == stream_bits(w2.stream_view()).skip(16)[i - 16]);
            assert(stream_bits(w1.stream_view())[i] == stream_bits(w1.stream_view()).skip(16)[i - 16]);
            assert(!stream_bits(w1.stream_view())[i]);
        }
        let bl = w2.bit_len() as int;
        assert(w2.bits().skip(16) =~= stream_bits(w2.stream_view()).skip(16).take(bl - 16));
        assert(w1.bits().skip(16) =~= stream_bits(w1.stream_view()).skip(16).take(bl - 16));
        assert(w1.bits().skip(16) =~= w0.bits().skip(16) + sb);
    }
}

/// A step of iteration that yields a sample counts it.
proof fn lemma_next_counts(bits: Seq<bool>, pos: nat, total: u16, num_read: u16, st: XorState)
    requires
        num_read <= total,
    ensures
        iter_next_spec(bits, pos, total, num_read, st).0 matches Ok(Some(_)) ==> num_read < total
            && iter_next_spec(bits, pos, total, num_read, st).2 == num_read + 1,
        iter_next_spec(bits, pos, total, num_read, st).0 matches Ok(None) ==> num_read == total,
{
}

/// Iterating to the end reads exactly the announced number of samples.
proof fn lemma_decode_steps_len(
    bits: Seq<bool>,
    pos: nat,
    total: u16,
    num_read: u16,
    st: XorState,
)
    requires
        num_read <= total,
    ensures
        decode_steps(bits, pos, total, num_read, st, (total - num_read) as nat) matches Ok(s)
            ==> s.len() == total - num_read,
    decreases total - num_read,
{
    if num_read < total {
        lemma_next_counts(bits, pos, total, num_read, st);
        let (r, p, n, st2) = iter_next_spec(bits, pos, total, num_read, st);
        if let Ok(Some(x)) = r {
            lemma_decode_steps_len(bits, p, total, n, st2);
        }
    }
}

/// Law: iterating a chunk to the end, when it succeeds, reads exactly as many
/// samples as its header announces.
pub proof fn lemma_decode_len(s: Seq<u8>)
    ensures
        decode_chunk(s) matches Ok(v) ==> v.len() == header_of(s),
{
    lemma_decode_steps_len(stream_bits(s.skip(2)), 0, header_of(s), 0, initial_decoder());
}

/// When appending the sample at index `i - 1` fails, encoding any sequence
/// that starts with those `i` samples fails with the same error.
proof fn lemma_encode_prefix_error(ss: Seq<(i64, u64)>, i: nat)
    requires
        1 <= i <= ss.len(),
        encode_samples(ss.take(i as int)) is Err,
    ensures
        encode_samples(ss) == encode_samples(ss.take(i as int)),
    decreases ss.len() - i,
{
    if i < ss.len() {
        assert(ss.take(i as int + 1).drop_last() =~= ss.take(i as int));
        lemma_encode_prefix_error(ss, i + 1);
    } else {
        assert(ss.take(i as int) =~= ss);
    }
}

/// Doubling a small count, and setting its low bit.
proof fn lemma_small_shift(d: u8)
    by (bit_vector)
    ensures
        d < 128 ==> d << 1u8 == 2 * d,
        d < 128 ==> (2 * d) as u8 | 1 == 2 * d + 1,
{
}

/// The sample count held by the chunk header.
fn read_header(bs: &[u8]) -> (n: u16)
    requires
        bs@.len() >= 2,
    ensures
        n == header_of(bs@),
{
    proof {
        lemma_header_bytes(0, bs[0], bs[1]);
    }
    ((bs[0] as u16) << 8u16) | (bs[1] as u16)
}

/// Rejects a timestamp older than the previous one; otherwise the delta.
fn timestamp_delta(t: i64, prev: i64) -> (r: Result<u64, XorError>)
    ensures
        r == (if t < prev {
            Err(XorError::TimestampOutOfOrder)
        } else {
            Ok::<u64, XorError>((t - prev) as u64)
        }),
{
    if t < prev {
        return Err(XorError::TimestampOutOfOrder);
    }
    let d = t.wrapping_sub(prev);
    proof {
        lemma_i64_u64(d, 0);
    }
    Ok(d as u64)
}

/// Whether `x` fits the asymmetric `nbits`-bit range
/// `-(2^(nbits-1) - 1) ..= 2^(nbits-1)`.
fn bit_range(x: i64, nbits: u8) -> (r: bool)
    requires
        1 <= nbits <= 63,
    ensures
        r == in_bit_range(x, nbits as nat),
{
    let k = (nbits - 1) as u64;
    proof {
        lemma_i64_shl(k);
        vstd::arithmetic::power2::lemma2_to64();
        vstd::arithmetic::power2::lemma2_to64_rest();
        vstd::arithmetic::power2::lemma_pow2_pos(k as nat);
        if k < 62 {
            vstd::arithmetic::power2::lemma_pow2_strictly_increases(k as nat, 62);
        }
        vstd::bits::lemma_u64_shl_is_mul(1, k);
        lemma_i64_u64(0, 1u64 << k);
    }
    -((1i64 << k) - 1) <= x && x <= (1i64 << k)
}

/// Writes the XOR of `new_value` with `current_value`, reusing the window
/// `leading`/`trailing` when the significant bits fit in it, else opening a
/// new one.
fn xor_write(
    b: &mut BitWriter,
    new_value: u64,
    current_value: u64,
    leading: &mut u8,
    trailing: &mut u8,
)
    requires
        old(b).wf(),
    ensures
        ({
            let (bits, l, tr) = value_bits(new_value ^ current_value, *old(leading), *old(trailing));
            &&& final(b).wrote(*old(b), bits)
            &&& *final(leading) == l
            &&& *final(trailing) == tr
            &&& old(b).clean() ==> final(b).clean() && final(b).bits() == old(b).bits() + bits
        }),
{
    let ghost w0 = *b;
    let delta = new_value ^ current_value;
    if delta == 0 {
        b.write_bit(false);
        return;
    }
    b.write_bit(true);
    let ghost w1 = *b;
    let mut new_leading = delta.leading_zeros() as u8;
    let new_trailing = delta.trailing_zeros() as u8;
    proof {
        lemma_lz_tz(delta);
    }
    if new_leading >= 32 {
        new_leading = 31;
    }
    if *leading != LEADING_SENTINEL && new_leading >= *leading && new_trailing >= *trailing {
        b.write_bit(false);
        let ghost w2 = *b;
        let width = (64 - *leading - *trailing) as u32;
        b.write_bits(delta >> (*trailing as u64), width);
        proof {
            let x = u64_bits(delta >> (*trailing as u64), width as nat);
            w2.lemma_wrote_compose(w1, w0, seq![true], seq![false]);
            b.lemma_wrote_compose(w2, w0, seq![true] + seq![false], x);
            assert(seq![true] + seq![false] =~= seq![true, false]);
            b.lemma_wrote_clean(w0, seq![true, false] + x);
        }
        return;
    }
    *leading = new_leading;
    *trailing = new_trailing;
    b.write_bit(true);
    let ghost w2 = *b;
    b.write_bits(new_leading as u64, 5);
    let ghost w3 = *b;
    let sigbits = 64 - new_leading - new_trailing;
    b.write_bits(sigbits as u64, 6);
    let ghost w4 = *b;
    b.write_bits(delta >> (new_trailing as u64), sigbits as u32);
    proof {
        let a = u64_bits(new_leading as u64, 5);
        let c = u64_bits(sigbits as u64, 6);
        let d = u64_bits(delta >> (new_trailing as u64), sigbits as nat);
        w2.lemma_wrote_compose(w1, w0, seq![true], seq![true]);
        assert(seq![true] + seq![true] =~= seq![true, true]);
        w3.lemma_wrote_compose(w2, w0, seq![true, true], a);
        w4.lemma_wrote_compose(w3, w0, seq![true, true] + a, c);
        b.lemma_wrote_compose(w4, w0, seq![true, true] + a + c, d);
        b.lemma_wrote_clean(w0, seq![true, true] + a + c + d);
    }
}

/// Writes the first `n` bytes of `buf`, one byte at a time.
fn write_bytes(b: &mut BitWriter, buf: &[u8], n: usize)
    requires
        old(b).wf(),
        n <= buf@.len(),
    ensures
        final(b).wrote(*old(b), stream_bits(buf@.take(n as int))),
{
    let ghost w0 = *b;
    let ghost e = buf@.take(n as int);
    let mut i: usize = 0;
    proof {
        w0.lemma_wrote_nothing();
        assert(e.take(0) =~= Seq::<u8>::empty());
        assert(stream_bits(e.take(0)) =~= Seq::<bool>::empty());
    }
    while i < n
        invariant
            w0 == *old(b),
            w0.wf(),
            n <= buf@.len(),
            e == buf@.take(n as int),
            i <= n,
            b.wrote(w0, stream_bits(e.take(i as int))),
        decreases n - i,
    {
        let ghost mid = *b;
        b.write_byte(buf[i]);
        proof {
            b.lemma_wrote_compose(mid, w0, stream_bits(e.take(i as int)), byte_bits(e[i as int]));
            lemma_stream_bits_push(e.take(i as int), e[i as int]);
            assert(e.take(i as int).push(e[i as int]) =~= e.take(i + 1));
        }
        i += 1;
    }
    proof {
        assert(e.take(n as int) =~= e);
    }
}

/// XOR-encoded chunk of `(timestamp, value bits)` samples.
#[derive(Debug)]
pub struct XorChunk {
    b: BitWriter,
}

/// State machine for appending samples to an [`XorChunk`]: the chunk's
/// writer and the encoder's state.
#[derive(Debug)]
pub struct XorAppender<'a> {
    pub b: &'a mut BitWriter,
    pub t: i64,
    pub v: u64,
    pub t_delta: u64,
    pub leading: u8,
    pub trailing: u8,
}

impl<'a> XorAppender<'a> {
    /// The encoder's state.
    pub open spec fn state(&self) -> XorState {
        XorState {
            t: self.t,
            v: self.v,
            t_delta: self.t_delta,
            leading: self.leading,
            trailing: self.trailing,
        }
    }

    /// Appends the sample `(t, v)`: checks it, writes its bits, and counts it
    /// in the header.
    pub fn append(&mut self, t: i64, v: u64) -> (r: Result<(), XorError>)
        requires
            old(self).b.wf(),
            old(self).b.stream_view().len() >= 2,
        ensures
            r == append_check(header_of(old(self).b.stream_view()), old(self).state(), t),
            header_of(old(self).b.stream_view()) == 0 ==> r is Ok,
            1 <= header_of(old(self).b.stream_view()) < 65535 ==> (r is Ok <==> old(self).t <= t),
            1 <= header_of(old(self).b.stream_view()) < 65535 && t < old(self).t ==> r == Err::<
                (),
                XorError,
            >(XorError::TimestampOutOfOrder),
            header_of(old(self).b.stream_view()) == 65535 ==> r == Err::<(), XorError>(
                XorError::ChunkFull,
            ),
            *final(final(self).b) == *final(old(self).b),
            r is Err ==> *final(self).b == *old(self).b && final(self).state() == old(self).state(),
            r is Ok ==> ({
                let num = header_of(old(self).b.stream_view());
                let (sb, st2) = sample_bits(num, old(self).state(), t, v);
                &&& final(self).state() == st2
                &&& final(self).b.wf()
                &&& final(self).b.bit_len() == old(self).b.bit_len() + sb.len()
                &&& final(self).b.stream_view().len() >= 2
                &&& header_of(final(self).b.stream_view()) == (num + 1) as u16
                &&& stream_bits(final(self).b.stream_view()).skip(16) == or_into(
                    stream_bits(old(self).b.stream_view()),
                    old(self).b.bit_len() as int,
                    sb,
                    8 * final(self).b.stream_view().len(),
                ).skip(16)
                &&& forall|p: Seq<bool>|
                    #[trigger] holds(*old(self).b, num, p) ==> holds(
                        *final(self).b,
                        (num + 1) as u16,
                        p + sb,
                    )
            }),
    {
        let num = read_header(self.b.bytes());
        let ghost w0 = *self.b;
        let ghost st0 = self.state();
        let mut t_delta: u64 = 0;
        if num == 0 {
            let mut buf = [0u8; 10];
            let n = put_varint(&mut buf, t);
            let ghost e = uvarint_bytes(zigzag(t) as nat);
            write_bytes(self.b, &buf, n);
            proof {
                assert(buf@.take(n as int) =~= e);
            }
            let ghost mid = *self.b;
            self.b.write_bits(v, 64);
            proof {
                self.b.lemma_wrote_compose(mid, w0, stream_bits(e), u64_bits(v, 64));
            }
        } else if num == 1 {
            t_delta = match timestamp_delta(t, self.t) {
                Ok(d) => d,
                Err(e) => return Err(e),
            };
            let mut buf = [0u8; 10];
            let n = put_uvarint(&mut buf, t_delta);
            let ghost e = uvarint_bytes(t_delta as nat);
            write_bytes(self.b, &buf, n);
            proof {
                assert(buf@.take(n as int) =~= e);
            }
            let ghost mid = *self.b;
            xor_write(self.b, v, self.v, &mut self.leading, &mut self.trailing);
            proof {
                let vb = value_bits(v ^ st0.v, st0.leading, st0.trailing).0;
                self.b.lemma_wrote_compose(mid, w0, stream_bits(e), vb);
            }
        } else if num == u16::MAX {
            return Err(XorError::ChunkFull);
        } else {
            t_delta = match timestamp_delta(t, self.t) {
                Ok(d) => d,
                Err(e) => return Err(e),
            };
            let dod = (t_delta as i64).wrapping_sub(self.t_delta as i64);
            let ghost db = dod_bits(dod);
            if dod == 0 {
                self.b.write_bit(false);
            } else if bit_range(dod, 14) {
                let hi = (0b10u8 << 6u8) | (((dod >> 8u64) as u8) & 0x3fu8);
                self.b.write_byte(hi);
                let ghost mid = *self.b;
                self.b.write_byte(dod as u8);
                proof {
                    self.b.lemma_wrote_compose(mid, w0, byte_bits(hi), byte_bits(dod as u8));
                    lemma_dod14_bytes(dod);
                }
            } else if bit_range(dod, 17) {
                self.b.write_bits(0b110, 3);
                let ghost mid = *self.b;
                self.b.write_bits(dod as u64, 17);
                proof {
                    self.b.lemma_wrote_compose(mid, w0, u64_bits(0b110, 3), u64_bits(dod as u64, 17));
                }
            } else if bit_range(dod, 20) {
                self.b.write_bits(0b1110, 4);
                let ghost mid = *self.b;
                self.b.write_bits(dod as u64, 20);
                proof {
                    self.b.lemma_wrote_compose(mid, w0, u64_bits(0b1110, 4), u64_bits(dod as u64, 20));
                }
            } else {
                self.b.write_bits(0b1111, 4);
                let ghost mid = *self.b;
                self.b.write_bits(dod as u64, 64);
                proof {
                    self.b.lemma_wrote_compose(mid, w0, u64_bits(0b1111, 4), u64_bits(dod as u64, 64));
                }
            }
            let ghost mid = *self.b;
            xor_write(self.b, v, self.v, &mut self.leading, &mut self.trailing);
            proof {
                let vb = value_bits(v ^ st0.v, st0.leading, st0.trailing).0;
                self.b.lemma_wrote_compose(mid, w0, db, vb);
            }
        }
        self.t = t;
        self.v = v;
        self.t_delta = t_delta;
        let ghost w1 = *self.b;
        let next = num + 1;
        let bs = self.b.bytes_mut();
        bs[0] = (next >> 8u16) as u8;
        bs[1] = next as u8;
        proof {
            let (sb, st2) = sample_bits(num, st0, t, v);
            lemma_header_bytes(next, 0, 0);
            lemma_header_update(w1.stream_view(), (next >> 8u16) as u8, next as u8);
            assert(self.b.stream_view() == w1.stream_view().update(0, (next >> 8u16) as u8).update(1, next as u8));
            lemma_holds_after_append(w0, w1, *self.b, num, sb);
            assert(header_of(self.b.stream_view()) == (num + 1) as u16);
        }
        Ok(())
    }
}

/// Reads an XOR-coded value into `value`, updating the window
/// `leading`/`trailing` when the stream opens a new one.
fn xor_read(br: &mut BitReader<'_>, value: &mut u64, leading: &mut u8, trailing: &mut u8) -> (r:
    Result<(), ReadError>)
    requires
        old(br).wf(),
        window_width(*old(leading), *old(trailing)) <= 64,
    ensures
        final(br).wf(),
        final(br).stream_view() == old(br).stream_view(),
        ({
            let st = XorState { t: 0, v: *old(value), t_delta: 0, leading: *old(leading), trailing: *old(trailing) };
            let (e, p, st2) = read_value_spec(old(br).bits(), old(br).pos(), st);
            &&& r == e
            &&& final(br).pos() == p
            &&& *final(value) == st2.v
            &&& *final(leading) == st2.leading
            &&& *final(trailing) == st2.trailing
        }),
        window_width(*final(leading), *final(trailing)) <= 64,
{
    match br.read_bit() {
        Err(e) => return Err(e),
        Ok(false) => return Ok(()),
        Ok(true) => {},
    }
    let ghost p1 = br.pos();
    let fresh = match br.read_bit() {
        Err(e) => return Err(e),
        Ok(b) => b,
    };
    let new_trailing;
    let mbits;
    if fresh {
        proof {
            lemma_read_bits_bound(br.bits(), br.pos(), 5);
            vstd::arithmetic::power2::lemma2_to64();
        }
        let new_leading = match br.read_bits(5) {
            Err(e) => return Err(e),
            Ok(l) => l as u8,
        };
        proof {
            lemma_read_bits_bound(br.bits(), br.pos(), 6);
        }
        let mut m = match br.read_bits(6) {
            Err(e) => return Err(e),
            Ok(m) => m as u8,
        };
        if m == 0 {
            m = 64;
        }
        mbits = m;
        new_trailing = 64u8.wrapping_sub(new_leading).wrapping_sub(mbits);
        proof {
            assert(window_width(new_leading, new_trailing) == mbits);
        }
        *leading = new_leading;
        *trailing = new_trailing;
    } else {
        new_trailing = *trailing;
        mbits = 64u8.wrapping_sub(*leading).wrapping_sub(*trailing);
    }
    let bits = match br.read_bits(mbits) {
        Err(e) => return Err(e),
        Ok(b) => b,
    };
    let shifted = if new_trailing < 64 {
        bits << (new_trailing as u64)
    } else {
        0
    };
    *value = *value ^ shifted;
    Ok(())
}

/// Forward-only iterator over the samples of an [`XorChunk`].
#[derive(Debug)]
pub struct XorIterator<'a> {
    br: BitReader<'a>,
    num_total: u16,
    num_read: u16,
    t: i64,
    value: u64,
    t_delta: u64,
    leading: u8,
    trailing: u8,
}

impl<'a> XorIterator<'a> {
    /// The decoder's state.
    pub closed spec fn state(&self) -> XorState {
        XorState {
            t: self.t,
            v: self.value,
            t_delta: self.t_delta,
            leading: self.leading,
            trailing: self.trailing,
        }
    }

    /// The bits after the chunk header.
    pub closed spec fn bits(&self) -> Seq<bool> {
        self.br.bits()
    }

    /// The bit position of the next read.
    pub closed spec fn pos(&self) -> nat {
        self.br.pos()
    }

    /// How many samples the chunk header announces.
    pub closed spec fn num_total(&self) -> u16 {
        self.num_total
    }

    /// How many samples were read so far.
    pub closed spec fn num_read(&self) -> u16 {
        self.num_read
    }

    /// The reader is consistent, at most the announced samples were read,
    /// and the window describes at most 64 bits.
    pub closed spec fn wf(&self) -> bool {
        &&& self.br.wf()
        &&& self.num_read <= self.num_total
        &&& window_width(self.leading, self.trailing) <= 64
    }

    /// Reads the next sample: `None` once all announced samples were read.
    pub fn next(&mut self) -> (r: Result<Option<(i64, u64)>, ReadError>)
        requires
            old(self).wf(),
        ensures
            final(self).wf(),
            final(self).bits() == old(self).bits(),
            final(self).num_total() == old(self).num_total(),
            (r, final(self).pos(), final(self).num_read(), final(self).state()) == iter_next_spec(
                old(self).bits(),
                old(self).pos(),
                old(self).num_total(),
                old(self).num_read(),
                old(self).state(),
            ),
    {
        if self.num_read == self.num_total {
            return Ok(None);
        }
        if self.num_read == 0 {
            self.t = match self.br.read_varint() {
                Err(e) => return Err(e),
                Ok(t) => t,
            };
            let v = match self.br.read_bits(64) {
                Err(e) => return Err(e),
                Ok(v) => v,
            };
            self.value = v;
            self.num_read = self.num_read + 1;
            return Ok(Some((self.t, self.value)));
        }
        if self.num_read == 1 {
            self.t_delta = match self.br.read_uvarint() {
                Err(e) => return Err(e),
                Ok(d) => d,
            };
            self.t = self.t.wrapping_add(self.t_delta as i64);
            return self.read_value();
        }
        let dod = match self.read_delta_of_delta() {
            Err(e) => return Err(e),
            Ok(d) => d,
        };
        self.t_delta = (self.t_delta as i64).wrapping_add(dod) as u64;
        self.t = self.t.wrapping_add(self.t_delta as i64);
        self.read_value()
    }

    /// Reads the value of the current sample and counts it.
    fn read_value(&mut self) -> (r: Result<Option<(i64, u64)>, ReadError>)
        requires
            old(self).wf(),
            old(self).num_read < old(self).num_total,
        ensures
            final(self).wf(),
            final(self).bits() == old(self).bits(),
            final(self).num_total() == old(self).num_total(),
            (r, final(self).pos(), final(self).num_read(), final(self).state()) == value_step(
                old(self).bits(),
                old(self).pos(),
                old(self).num_read(),
                old(self).state(),
            ),
    {
        match xor_read(&mut self.br, &mut self.value, &mut self.leading, &mut self.trailing) {
            Err(e) => return Err(e),
            Ok(_) => {},
        }
        self.num_read = self.num_read + 1;
        Ok(Some((self.t, self.value)))
    }

    /// Reads a delta of timestamp deltas: its prefix code, then its field.
    fn read_delta_of_delta(&mut self) -> (r: Result<i64, ReadError>)
        requires
            old(self).wf(),
        ensures
            final(self).wf(),
            final(self).bits() == old(self).bits(),
            final(self).num_total() == old(self).num_total(),
            final(self).num_read() == old(self).num_read(),
            final(self).state() == old(self).state(),
            (r, final(self).pos()) == read_dod_spec(old(self).bits(), old(self).pos()),
    {
        let ghost bits = self.bits();
        let ghost pos0 = self.pos();
        let mut d: u8 = 0;
        let mut i: u8 = 0;
        let mut stop = false;
        proof {
            lemma_small_shift(0);
        }
        while i < 4 && !stop
            invariant
                self.wf(),
                self.bits() == bits,
                bits == old(self).bits(),
                pos0 == old(self).pos(),
                self.num_total() == old(self).num_total(),
                self.num_read() == old(self).num_read(),
                self.state() == old(self).state(),
                i <= 4,
                d < 16,
                d == 0 || d == 2 || d == 6 || d == 14 || d == 1 || d == 3 || d == 7 || d == 15,
                stop ==> d == 0 || d == 2 || d == 6 || d == 14,
                !stop ==> (i == 0 && d == 0) || (i == 1 && d == 1) || (i == 2 && d == 3) || (i == 3
                    && d == 7) || (i == 4 && d == 15),
                dod_prefix_spec(bits, pos0, 0, 0) == (if stop {
                    (Ok::<u8, ReadError>(d), self.pos())
                } else {
                    dod_prefix_spec(bits, self.pos(), i as nat, d)
                }),
            decreases 4 - i,
        {
            proof {
                lemma_small_shift(d);
            }
            d = d << 1u8;
            match self.br.read_bit() {
                Err(e) => return Err(e),
                Ok(false) => {
                    stop = true;
                },
                Ok(true) => {
                    d = d | 1;
                },
            }
            i = i + 1;
        }
        if d == 0 {
            return Ok(0);
        }
        let sz: u8 = if d == 0b10 {
            14
        } else if d == 0b110 {
            17
        } else if d == 0b1110 {
            20
        } else {
            let b = match self.br.read_bits(64) {
                Err(e) => return Err(e),
                Ok(b) => b,
            };
            return Ok(b as i64);
        };
        proof {
            lemma_read_bits_bound(self.bits(), self.pos(), sz as nat);
            vstd::arithmetic::power2::lemma2_to64();
            vstd::arithmetic::power2::lemma2_to64_rest();
            vstd::bits::lemma_u64_shl_is_mul(1, (sz - 1) as u64);
            vstd::bits::lemma_u64_shl_is_mul(1, sz as u64);
        }
        let mut bits = match self.br.read_bits(sz) {
            Err(e) => return Err(e),
            Ok(b) => b,
        };
        if bits > (1u64 << ((sz - 1) as u64)) {
            bits = bits.wrapping_sub(1u64 << (sz as u64));
            proof {
                lemma_i64_u64(0, bits);
            }
        } else {
            proof {
                lemma_i64_u64(0, bits);
            }
        }
        Ok(bits as i64)
    }
}

impl XorChunk {
    /// The chunk's writer.
    pub closed spec fn writer(&self) -> BitWriter {
        self.b
    }

    /// The chunk's bytes.
    pub open spec fn bytes_view(&self) -> Seq<u8> {
        self.writer().stream_view()
    }

    /// The writer is consistent and the two header bytes are there.
    pub open spec fn wf(&self) -> bool {
        &&& self.writer().wf()
        &&& self.bytes_view().len() >= 2
    }

    /// An empty chunk: a zero sample count and no samples.
    pub fn new() -> (c: Self)
        ensures
            c.wf(),
            c.bytes_view() == seq![0u8, 0u8],
            c.writer().free_bits() == 0,
            holds(c.writer(), 0, Seq::empty()),
    {
        let mut stream: Vec<u8> = Vec::with_capacity(CHUNK_ALLOCATION_SIZE);
        stream.push(0);
        stream.push(0);
        let c = XorChunk { b: BitWriter::from_bytes(stream) };
        proof {
            assert(c.bytes_view() =~= seq![0u8, 0u8]);
            assert(c.writer().bits().skip(16) =~= Seq::<bool>::empty());
        }
        c
    }

    /// A chunk over existing bytes (a header and a bit stream).
    pub fn from_bytes(bytes: Vec<u8>) -> (c: Self)
        requires
            bytes@.len() >= 2,
        ensures
            c.wf(),
            c.bytes_view() == bytes@,
            c.writer().free_bits() == 0,
    {
        XorChunk { b: BitWriter::from_bytes(bytes) }
    }

    /// The sample count in the header.
    pub fn num_samples(&self) -> (n: u16)
        requires
            self.wf(),
        ensures
            n == header_of(self.bytes_view()),
    {
        read_header(self.bytes())
    }

    /// The chunk's bytes.
    pub fn bytes(&self) -> (r: &[u8])
        ensures
            r@ == self.bytes_view(),
    {
        self.b.bytes()
    }

    /// Gives back spare capacity: when the buffer has room for more than 32
    /// bytes beyond the chunk's bytes, the bytes move to a fresh buffer,
    /// whose writer starts on a new byte; otherwise nothing changes. The
    /// room comes from the allocator, so which of the two happens is decided
    /// by [`XorChunk::compact_for_capacity`] on what it reports.
    pub fn compact(&mut self)
        requires
            old(self).wf(),
        ensures
            final(self).wf(),
            final(self).bytes_view() == old(self).bytes_view(),
            final(self).writer() == old(self).writer() || final(self).writer().free_bits() == 0,
    {
        let cap = self.b.capacity();
        self.compact_for_capacity(cap);
    }

    /// What [`XorChunk::compact`] does once the buffer reports room for
    /// `capacity` bytes: when that exceeds the chunk's bytes by more than 32,
    /// the bytes move to a fresh buffer and the writer starts on a new byte;
    /// otherwise the chunk is left exactly as it was.
    pub fn compact_for_capacity(&mut self, capacity: usize)
        requires
            old(self).wf(),
        ensures
            final(self).wf(),
            final(self).bytes_view() == old(self).bytes_view(),
            capacity > old(self).bytes_view().len() + 32 ==> final(self).writer().free_bits() == 0,
            capacity <= old(self).bytes_view().len() + 32 ==> final(self).writer() == old(
                self,
            ).writer(),
    {
        let len = self.b.bytes().len();
        if capacity > len && capacity - len > CHUNK_COMPACT_CAPACITY_THRESHOLD {
            let bytes = vstd::slice::slice_to_vec(self.b.bytes());
            self.b = BitWriter::from_bytes(bytes);
        }
    }

    /// Every sample the chunk holds, read in order.
    fn iter_samples(&self) -> (r: Result<Vec<(i64, u64)>, ReadError>)
        requires
            self.wf(),
        ensures
            match r {
                Ok(v) => decode_chunk(self.bytes_view()) == Ok::<Seq<(i64, u64)>, ReadError>(v@),
                Err(e) => decode_chunk(self.bytes_view()) == Err::<Seq<(i64, u64)>, ReadError>(e),
            },
    {
        let mut it = self.iterator();
        let mut samples: Vec<(i64, u64)> = Vec::with_capacity(self.num_samples() as usize);
        let ghost bits = it.bits();
        let ghost total = it.num_total();
        proof {
            assert(samples@ + Seq::<(i64, u64)>::empty() =~= samples@);
        }
        loop
            invariant
                self.wf(),
                it.wf(),
                it.bits() == bits,
                it.num_total() == total,
                decode_chunk(self.bytes_view()) == (match decode_steps(
                    bits,
                    it.pos(),
                    total,
                    it.num_read(),
                    it.state(),
                    (total - it.num_read()) as nat,
                ) {
                    Ok(rest) => Ok(samples@ + rest),
                    Err(e) => Err(e),
                }),
            decreases total - it.num_read(),
        {
            let ghost before = it;
            match it.next() {
                Err(e) => {
                    return Err(e);
                },
                Ok(None) => {
                    proof {
                        assert(samples@ + Seq::<(i64, u64)>::empty() =~= samples@);
                    }
                    return Ok(samples);
                },
                Ok(Some(sample)) => {
                    let ghost old_samples = samples@;
                    samples.push(sample);
                    proof {
                        lemma_next_counts(before.bits(), before.pos(), total, before.num_read(), before.state());
                        let rest = decode_steps(
                            bits,
                            it.pos(),
                            total,
                            it.num_read(),
                            it.state(),
                            (total - it.num_read()) as nat,
                        );
                        if let Ok(r) = rest {
                            assert(old_samples + (seq![sample] + r) =~= samples@ + r);
                        }
                    }
                },
            }
        }
    }

    /// An appender for this chunk. On an empty chunk it starts from scratch;
    /// otherwise it reads every sample back and appends them again to a
    /// fresh chunk, which then replaces this one, to recover the encoder's
    /// state.
    pub fn appender(&mut self) -> (r: Result<XorAppender<'_>, XorError>)
        requires
            old(self).wf(),
        ensures
            header_of(old(self).bytes_view()) == 0 ==> (r matches Ok(app) && *app.b == old(self).writer()
                && app.state() == initial_encoder() && final(self).writer() == *final(app.b)),
            header_of(old(self).bytes_view()) != 0 ==> match decode_chunk(old(self).bytes_view()) {
                Err(e) => r matches Err(x) && x == XorError::Read(e) && final(self).writer() == old(self).writer(),
                Ok(samples) => match encode_samples(samples) {
                    Err(e) => r matches Err(x) && x == e && final(self).writer() == old(self).writer(),
                    Ok((bits, st)) => r matches Ok(app) && holds(
                        *app.b,
                        header_of(old(self).bytes_view()),
                        bits,
                    ) && app.state() == st && final(self).writer() == *final(app.b),
                },
            },
    {
        if self.num_samples() == 0 {
            return Ok(
                XorAppender {
                    b: &mut self.b,
                    t: i64::MIN,
                    v: 0,
                    t_delta: 0,
                    leading: LEADING_SENTINEL,
                    trailing: 0,
                },
            );
        }
        let samples = match self.iter_samples() {
            Ok(s) => s,
            Err(e) => return Err(XorError::Read(e)),
        };
        let ghost ss = samples@;
        proof {
            lemma_decode_len(self.bytes_view());
        }
        let mut rebuilt = XorChunk::new();
        let (t, v, t_delta, leading, trailing) = {
            let mut app = XorAppender {
                b: &mut rebuilt.b,
                t: i64::MIN,
                v: 0,
                t_delta: 0,
                leading: LEADING_SENTINEL,
                trailing: 0,
            };
            let mut i: usize = 0;
            proof {
                assert(ss.take(0) =~= Seq::<(i64, u64)>::empty());
            }
            while i < samples.len()
                invariant
                    i <= samples@.len(),
                    samples@ == ss,
                    ss.len() <= u16::MAX,
                    app.b.wf(),
                    app.b.stream_view().len() >= 2,
                    encode_samples(ss.take(i as int)) matches Ok(p) && holds(*app.b, i as u16, p.0)
                        && app.state() == p.1,
                    after_borrow(rebuilt.b) == *final(app.b),
                    self.writer() == old(self).writer(),
                    header_of(old(self).bytes_view()) != 0,
                    decode_chunk(old(self).bytes_view()) == Ok::<Seq<(i64, u64)>, ReadError>(ss),
                decreases samples@.len() - i,
            {
                let (t, v) = samples[i];
                let ghost before = ss.take(i as int);
                proof {
                    assert(ss.take(i + 1).drop_last() =~= before);
                    assert(ss.take(i + 1).last() == (t, v));
                }
                match app.append(t, v) {
                    Err(e) => {
                        proof {
                            lemma_encode_prefix_error(ss, (i + 1) as nat);
                        }
                        return Err(e);
                    },
                    Ok(_) => {},
                }
                i += 1;
            }
            proof {
                assert(ss.take(i as int) =~= ss);
            }
            (app.t, app.v, app.t_delta, app.leading, app.trailing)
        };
        self.b = rebuilt.b;
        Ok(XorAppender { b: &mut self.b, t, v, t_delta, leading, trailing })
    }

    /// An iterator over the samples, reading from after the header.
    pub fn iterator(&self) -> (it: XorIterator<'_>)
        requires
            self.wf(),
        ensures
            it.wf(),
            it.bits() == stream_bits(self.bytes_view().skip(2)),
            it.pos() == 0,
            it.num_total() == header_of(self.bytes_view()),
            it.num_read() == 0,
            it.state() == initial_decoder(),
    {
        let bs = self.bytes();
        let n = bs.len();
        XorIterator {
            br: BitReader::new(&bs[CHUNK_HEADER_SIZE..n]),
            num_total: read_header(bs),
            num_read: 0,
            t: i64::MIN,
            value: 0,
            t_delta: 0,
            leading: 0,
            trailing: 0,
        }
    }
}

impl Default for XorChunk {
    fn default() -> (c: Self)
        ensures
            c.wf(),
            c.bytes_view() == seq![0u8, 0u8],
            c.writer().free_bits() == 0,
    {
        XorChunk::new()
    }
}

} // verus!
