//! Laws of the XOR chunk's wire format, stated in plain integers and bits:
//! which appends are accepted, how a delta of timestamp deltas is bucketed
//! and read back, and how a value's window of significant bits is chosen and
//! read back.
use vstd::prelude::*;
use vstd::arithmetic::power2::{lemma2_to64, lemma2_to64_rest, lemma_pow2_adds, lemma_pow2_pos, pow2};
use vstd::arithmetic::mul::lemma_mul_inequality;
use vstd::bits::lemma_u64_shl_is_mul;
use vstd::std_specs::bits::{
    axiom_u64_leading_zeros, axiom_u64_trailing_zeros, u64_leading_zeros, u64_trailing_zeros,
};

use crate::chunkenc::roundtrip::{lemma_prefix_consts, lemma_read_u64, lemma_sub_concat};
use crate::chunkenc::xor::{
    append_check, dod_bits, dod_prefix_spec, leading_of, read_dod_spec, read_value_spec,
    trailing_of, XorError, XorState,
};
use crate::encoding::bits::{bit64, u64_bits};
use crate::encoding::bstream::{read_bit_spec, read_bits_spec};
use crate::encoding::ReadError;

verus! {

/// Law: the first sample is always accepted; after it, a sample is accepted
/// exactly when its timestamp is not older than the previous one (an equal
/// timestamp is accepted), and refused with `TimestampOutOfOrder` otherwise;
/// once 65535 samples are held, every append is refused with `ChunkFull`.
pub proof fn lemma_append_order(num: u16, st: XorState, t: i64)
    ensures
        num == 0 ==> append_check(num, st, t) == Ok::<(), XorError>(()),
        1 <= num < 65535 ==> (append_check(num, st, t) == Ok::<(), XorError>(()) <==> st.t <= t),
        1 <= num < 65535 && t < st.t ==> append_check(num, st, t) == Err::<(), XorError>(
            XorError::TimestampOutOfOrder,
        ),
        num == 65535 ==> append_check(num, st, t) == Err::<(), XorError>(XorError::ChunkFull),
{
}

/// Law: the bucket of a delta of deltas. Zero is one `0` bit; a non-zero
/// value in `-8191 ..= 8192` is `1 0` and its low 14 bits; otherwise one in
/// `-65535 ..= 65536` is `1 1 0` and its low 17 bits; otherwise one in
/// `-524287 ..= 524288` is `1 1 1 0` and its low 20 bits; anything else is
/// `1 1 1 1` and all 64 bits.
pub proof fn lemma_dod_buckets(dod: i64)
    ensures
        dod == 0 ==> dod_bits(dod) == seq![false],
        dod != 0 && -8191 <= dod <= 8192 ==> dod_bits(dod) == seq![true, false] + u64_bits(
            dod as u64,
            14,
        ),
        !(-8191 <= dod <= 8192) && -65535 <= dod <= 65536 ==> dod_bits(dod) == seq![
            true,
            true,
            false,
        ] + u64_bits(dod as u64, 17),
        !(-65535 <= dod <= 65536) && -524287 <= dod <= 524288 ==> dod_bits(dod) == seq![
            true,
            true,
            true,
            false,
        ] + u64_bits(dod as u64, 20),
        !(-524287 <= dod <= 524288) ==> dod_bits(dod) == seq![true, true, true, true] + u64_bits(
            dod as u64,
            64,
        ),
{
    lemma2_to64();
    lemma2_to64_rest();
    lemma_prefix_consts();
}

/// Law: the window chosen for a non-zero XOR `d`: its leading-zero count is
/// the number of zero bits above the highest set bit, capped at 31 (so the
/// bit just below the counted zeros is set unless the cap applied), and its
/// trailing-zero count is the number of zero bits below the lowest set bit.
pub proof fn lemma_window_of(d: u64)
    requires
        d != 0,
    ensures
        leading_of(d) <= 31,
        forall|i: u64| 64 - leading_of(d) <= i < 64 ==> !bit64(d, i),
        leading_of(d) < 31 ==> bit64(d, (63 - leading_of(d)) as u64),
        trailing_of(d) < 64,
        bit64(d, trailing_of(d) as u64),
        forall|i: u64| i < trailing_of(d) ==> !bit64(d, i),
{
    axiom_u64_leading_zeros(d);
    axiom_u64_trailing_zeros(d);
    let lz = u64_leading_zeros(d);
    assert forall|i: u64| 64 - leading_of(d) <= i < 64 implies !bit64(d, i) by {
        assert((d >> i) & 1u64 == 0u64);
    }
    if leading_of(d) < 31 {
        assert(lz < 31);
        let k = (63 - lz) as u64;
        assert((d >> k) & 1u64 != 0u64);
        assert(((d >> k) & 1u64 != 0u64) ==> bit64(d, k)) by (bit_vector);
    }
    assert forall|i: u64| i < trailing_of(d) implies !bit64(d, i) by {
        assert((d >> i) & 1u64 == 0u64);
    }
}

/// Law: a delta of deltas whose first bit is `0` reads as zero, one bit.
pub proof fn lemma_dod_decode_zero(bits: Seq<bool>, p: nat)
    requires
        p < bits.len(),
        !bits[p as int],
    ensures
        read_dod_spec(bits, p) == (Ok::<i64, ReadError>(0), p + 1),
{
    reveal_with_fuel(dod_prefix_spec, 5);
    assert(read_bit_spec(bits, p) == (Ok::<bool, ReadError>(false), p + 1));
    assert(dod_prefix_spec(bits, p, 0, 0) == (Ok::<u8, ReadError>(0), p + 1));
}

/// Law: a delta of deltas written as the prefix `1 0`, `1 1 0` or `1 1 1 0`
/// and a field `b` of 14, 17 or 20 bits reads as `b` when `b` is at most
/// half the field's range (8192, 65536 or 524288), and as `b` minus the
/// whole range otherwise; it takes exactly the prefix and the field.
pub proof fn lemma_dod_decode_field(
    bits: Seq<bool>,
    p: nat,
    pre: Seq<bool>,
    sz: nat,
    half: int,
    full: int,
    b: u64,
)
    requires
        (sz == 14 && half == 8192 && full == 16384 && pre == seq![true, false]) || (sz == 17 && half
            == 65536 && full == 131072 && pre == seq![true, true, false]) || (sz == 20 && half
            == 524288 && full == 1048576 && pre == seq![true, true, true, false]),
        b < full,
        p + pre.len() + sz <= bits.len(),
        bits.subrange(p as int, (p + pre.len() + sz) as int) == pre + u64_bits(b, sz),
    ensures
        read_dod_spec(bits, p) == (Ok::<i64, ReadError>(
            if b <= half {
                b as i64
            } else {
                (b - full) as i64
            },
        ), p + pre.len() + sz),
{
    reveal_with_fuel(dod_prefix_spec, 5);
    lemma2_to64();
    lemma2_to64_rest();
    lemma_sub_concat(bits, p as int, pre, u64_bits(b, sz));
    assert forall|i: int| 0 <= i < pre.len() implies bits[p + i] == #[trigger] pre[i] by {
        assert(bits.subrange(p as int, (p + pre.len()) as int)[i] == pre[i]);
    }
    let q = p + pre.len();
    lemma_read_u64(bits, q, b, sz);
    assert(read_bit_spec(bits, p) == (Ok::<bool, ReadError>(true), p + 1));
    assert(read_bit_spec(bits, p + 1) == (Ok::<bool, ReadError>(pre[1]), p + 2));
    if sz == 14 {
        assert(dod_prefix_spec(bits, p + 1, 1, 1) == (Ok::<u8, ReadError>(2), q));
        assert(dod_prefix_spec(bits, p, 0, 0) == (Ok::<u8, ReadError>(2), q));
    } else {
        assert(read_bit_spec(bits, p + 2) == (Ok::<bool, ReadError>(pre[2]), p + 3));
        if sz == 17 {
            assert(dod_prefix_spec(bits, p + 2, 2, 3) == (Ok::<u8, ReadError>(6), q));
            assert(dod_prefix_spec(bits, p, 0, 0) == (Ok::<u8, ReadError>(6), q));
        } else {
            assert(read_bit_spec(bits, p + 3) == (Ok::<bool, ReadError>(false), p + 4));
            assert(dod_prefix_spec(bits, p + 3, 3, 7) == (Ok::<u8, ReadError>(14), q));
            assert(dod_prefix_spec(bits, p, 0, 0) == (Ok::<u8, ReadError>(14), q));
        }
    }
}

/// Law: a delta of deltas written as `1 1 1 1` and 64 bits reads as those
/// 64 bits taken as a signed number.
pub proof fn lemma_dod_decode_full(bits: Seq<bool>, p: nat, b: u64)
    requires
        p + 68 <= bits.len(),
        bits.subrange(p as int, (p + 68) as int) == seq![true, true, true, true] + u64_bits(b, 64),
    ensures
        read_dod_spec(bits, p) == (Ok::<i64, ReadError>(b as i64), p + 68),
{
    reveal_with_fuel(dod_prefix_spec, 5);
    lemma2_to64();
    lemma2_to64_rest();
    let pre = seq![true, true, true, true];
    lemma_sub_concat(bits, p as int, pre, u64_bits(b, 64));
    assert forall|i: int| 0 <= i < 4 implies bits[p + i] == #[trigger] pre[i] by {
        assert(bits.subrange(p as int, (p + 4) as int)[i] == pre[i]);
    }
    lemma_read_u64(bits, p + 4, b, 64);
    assert(dod_prefix_spec(bits, p + 4, 4, 15) == (Ok::<u8, ReadError>(15), p + 4));
    assert(dod_prefix_spec(bits, p, 0, 0) == (Ok::<u8, ReadError>(15), p + 4));
}

/// Law: a value whose first bit is `0` is the previous value, in one bit.
pub proof fn lemma_read_same_value(bits: Seq<bool>, p: nat, st: XorState)
    requires
        p < bits.len(),
        !bits[p as int],
    ensures
        read_value_spec(bits, p, st) == (Ok::<(), ReadError>(()), p + 1, st),
{
}

/// `x` below `2^w`, shifted left by `s` with `w + s <= 64`, is `x * 2^s`.
proof fn lemma_shift_in_window(x: u64, w: nat, s: nat)
    requires
        w + s <= 64,
        s < 64,
        x < pow2(w),
    ensures
        x * pow2(s) < pow2(64),
        x << (s as u64) == x * pow2(s),
{
    lemma2_to64();
    lemma2_to64_rest();
    lemma_pow2_adds(w, s);
    lemma_pow2_pos(s);
    lemma_mul_inequality(x as int, pow2(w) - 1, pow2(s) as int);
    if w + s < 64 {
        vstd::arithmetic::power2::lemma_pow2_strictly_increases(w + s, 64);
    }
    assert((pow2(w) - 1) * pow2(s) == pow2(w) * pow2(s) - pow2(s)) by (nonlinear_arith);
    lemma_u64_shl_is_mul(x, s as u64);
}

/// Law: a value written as `1 0` and `w` bits `x`, where `w` is the width
/// of the current window (`64 - leading - trailing`), is the previous value
/// with `x * 2^trailing` XOR-ed in; the window stays.
pub proof fn lemma_read_reused_window(bits: Seq<bool>, p: nat, st: XorState, w: nat, x: u64)
    requires
        st.leading + st.trailing < 64,
        w == 64 - st.leading - st.trailing,
        x < pow2(w),
        p + 2 + w <= bits.len(),
        bits.subrange(p as int, (p + 2 + w) as int) == seq![true, false] + u64_bits(x, w),
    ensures
        x * pow2(st.trailing as nat) < pow2(64),
        read_value_spec(bits, p, st) == (
            Ok::<(), ReadError>(()),
            p + 2 + w,
            XorState { v: st.v ^ ((x * pow2(st.trailing as nat)) as u64), ..st },
        ),
{
    lemma_sub_concat(bits, p as int, seq![true, false], u64_bits(x, w));
    assert(bits[p as int] == bits.subrange(p as int, (p + 2) as int)[0]);
    assert(bits[(p + 1) as int] == bits.subrange(p as int, (p + 2) as int)[1]);
    lemma_read_u64(bits, p + 2, x, w);
    lemma_shift_in_window(x, w, st.trailing as nat);
}

/// Law: a value written as `1 1`, a 5-bit leading-zero count `l`, a 6-bit
/// width `m` (0 standing for 64) and `mb` bits `x`, with `l + mb <= 64`,
/// opens the window with `l` leading and `64 - l - mb` trailing zeros and
/// is the previous value with `x * 2^(64 - l - mb)` XOR-ed in.
pub proof fn lemma_read_fresh_window(
    bits: Seq<bool>,
    p: nat,
    st: XorState,
    l: u64,
    m: u64,
    mb: nat,
    x: u64,
)
    requires
        l < 32,
        m < 64,
        mb == (if m == 0 {
            64
        } else {
            m as nat
        }),
        l + mb <= 64,
        x < pow2(mb),
        p + 13 + mb <= bits.len(),
        bits.subrange(p as int, (p + 13 + mb) as int) == seq![true, true] + u64_bits(l, 5) + u64_bits(
            m,
            6,
        ) + u64_bits(x, mb),
    ensures
        x * pow2((64 - l - mb) as nat) < pow2(64),
        read_value_spec(bits, p, st) == (
            Ok::<(), ReadError>(()),
            p + 13 + mb,
            XorState {
                v: st.v ^ ((x * pow2((64 - l - mb) as nat)) as u64),
                leading: l as u8,
                trailing: (64 - l - mb) as u8,
                ..st
            },
        ),
{
    lemma2_to64();
    let a = seq![true, true];
    let b5 = u64_bits(l, 5);
    let c6 = u64_bits(m, 6);
    let d = u64_bits(x, mb);
    lemma_sub_concat(bits, p as int, a + b5 + c6, d);
    lemma_sub_concat(bits, p as int, a + b5, c6);
    lemma_sub_concat(bits, p as int, a, b5);
    assert(bits[p as int] == bits.subrange(p as int, (p + 2) as int)[0]);
    assert(bits[(p + 1) as int] == bits.subrange(p as int, (p + 2) as int)[1]);
    lemma_read_u64(bits, p + 2, l, 5);
    lemma_read_u64(bits, p + 7, m, 6);
    lemma_read_u64(bits, p + 13, x, mb);
    lemma_shift_in_window(x, mb, (64 - l - mb) as nat);
}

} // verus!
