//! Why iterating an XOR chunk gives back the samples appended to it: each
//! step of the decoder reads exactly the bits one append wrote, and ends in
//! a state that matches the encoder's.
use vstd::prelude::*;
use vstd::arithmetic::power2::{lemma2_to64, lemma2_to64_rest, lemma_pow2_adds, lemma_pow2_pos, pow2};
use vstd::arithmetic::div_mod::{lemma_fundamental_div_mod, lemma_multiply_divide_lt, lemma_small_mod};
use vstd::bits::lemma_u64_shr_is_div;
use vstd::std_specs::bits::{
    axiom_u64_leading_zeros, axiom_u64_trailing_zeros, u64_leading_zeros, u64_trailing_zeros,
};
use vstd::wrapping::{i64_specs, u8_specs};

use crate::chunkenc::xor::{
    append_check, decode_chunk, XorError, decode_steps, dod_bits, dod_prefix_spec, encode_samples, holds,
    in_bit_range, initial_decoder, iter_next_spec, leading_of, lemma_i64_u64, lemma_lz_tz, read_dod_spec, read_value_spec,
    sample_bits, sign_extend, trailing_of, value_bits, window_width, XorState,
};
use crate::encoding::bstream::{
    lemma_read_back_uvarint, lemma_read_back_varint, lemma_value_of_byte, lemma_writer_bytes,
    BitWriter,
};
use crate::encoding::varint::{uvarint_bytes, zigzag};
use crate::encoding::ReadError;
use crate::encoding::bits::{
    bit64, byte_bits, lemma_bit64_ext, lemma_bit64_shl, lemma_bit64_shr, lemma_stream_bits_byte,
    lemma_stream_bits_skip, stream_bits, u64_bits, zero_bits,
};
use crate::encoding::bstream::{lemma_read_back_bits, read_bit_spec, read_bits_spec};

verus! {

/// Splitting a stretch of bits that holds `a + b` into its two parts.
pub proof fn lemma_sub_concat(bits: Seq<bool>, p: int, a: Seq<bool>, b: Seq<bool>)
    requires
        0 <= p,
        p + a.len() + b.len() <= bits.len(),
        bits.subrange(p, p + a.len() + b.len()) == a + b,
    ensures
        bits.subrange(p, p + a.len()) == a,
        bits.subrange(p + a.len(), p + a.len() + b.len()) == b,
{
    assert(bits.subrange(p, p + a.len()) =~= (a + b).take(a.len() as int));
    assert(bits.subrange(p + a.len(), p + a.len() + b.len()) =~= (a + b).skip(a.len() as int));
    assert((a + b).take(a.len() as int) =~= a);
    assert((a + b).skip(a.len() as int) =~= b);
}

/// Reading `n` bits where `x`, below `2^n`, was written gives `x`.
pub proof fn lemma_read_u64(bits: Seq<bool>, p: nat, x: u64, n: nat)
    requires
        n <= 64,
        x < pow2(n),
        p + n <= bits.len(),
        bits.subrange(p as int, (p + n) as int) == u64_bits(x, n),
    ensures
        read_bits_spec(bits, p, n) == (Ok::<u64, ReadError>(x), p + n),
{
    lemma_read_back_bits(bits, p, x, n);
    lemma_pow2_pos(n);
    lemma_small_mod(x as nat, pow2(n));
}

/// A non-zero `u64` is below `2^(64 - leading zeros)`.
proof fn lemma_delta_fits(delta: u64)
    requires
        delta != 0,
    ensures
        delta < pow2((64 - u64_leading_zeros(delta)) as nat),
{
    axiom_u64_leading_zeros(delta);
    lemma2_to64();
    lemma2_to64_rest();
    let lz = u64_leading_zeros(delta);
    if lz > 0 {
        let k = (64 - lz) as u64;
        lemma_u64_shr_is_div(delta, k);
        lemma_pow2_pos(k as nat);
        lemma_fundamental_div_mod(delta as int, pow2(k as nat) as int);
        vstd::arithmetic::div_mod::lemma_mod_bound(delta as int, pow2(k as nat) as int);
    }
}

/// Shifting right past zero bits and back gives the number back.
proof fn lemma_shr_shl(delta: u64, s: u64)
    requires
        s < 64,
        s <= u64_trailing_zeros(delta),
    ensures
        (delta >> s) << s == delta,
{
    axiom_u64_trailing_zeros(delta);
    assert forall|i: u64| i < 64 implies #[trigger] bit64((delta >> s) << s, i) == bit64(delta, i) by {
        lemma_bit64_shl(delta >> s, s, i);
        if i >= s {
            lemma_bit64_shr(delta, s, (i - s) as u64);
        } else {
            assert((delta >> i) & 1u64 == 0u64);
        }
    }
    lemma_bit64_ext((delta >> s) << s, delta);
}

/// A number below `2^(s + w)`, shifted right by `s`, is below `2^w`.
proof fn lemma_shr_bound(x: u64, s: u64, w: nat)
    requires
        s < 64,
        x < pow2(s as nat + w),
    ensures
        x >> s < pow2(w),
{
    lemma_u64_shr_is_div(x, s);
    lemma_pow2_adds(s as nat, w);
    lemma_pow2_pos(s as nat);
    lemma_multiply_divide_lt(x as int, pow2(s as nat) as int, pow2(w) as int);
}

/// Powers of two grow with the exponent.
proof fn lemma_pow2_le(a: nat, b: nat)
    requires
        a <= b,
    ensures
        pow2(a) <= pow2(b),
{
    if a < b {
        vstd::arithmetic::power2::lemma_pow2_strictly_increases(a, b);
    }
}

/// Facts about exclusive or.
proof fn lemma_xor_facts(x: u64, y: u64)
    by (bit_vector)
    ensures
        (x ^ y == 0) ==> x == y,
        y ^ (x ^ y) == x,
{
}

/// Decoding a value where its XOR code was written gives the value back,
/// and the decoder's window follows the encoder's.
pub proof fn lemma_value_roundtrip(bits: Seq<bool>, p: nat, enc: XorState, dec: XorState, v: u64)
    requires
        dec.v == enc.v,
        enc.leading != 0xff ==> dec.leading == enc.leading && dec.trailing == enc.trailing,
        p + value_bits(v ^ enc.v, enc.leading, enc.trailing).0.len() <= bits.len(),
        bits.subrange(
            p as int,
            (p + value_bits(v ^ enc.v, enc.leading, enc.trailing).0.len()) as int,
        ) == value_bits(v ^ enc.v, enc.leading, enc.trailing).0,
    ensures
        ({
            let (vb, l, tr) = value_bits(v ^ enc.v, enc.leading, enc.trailing);
            let (r, q, d2) = read_value_spec(bits, p, dec);
            &&& r == Ok::<(), ReadError>(())
            &&& q == p + vb.len()
            &&& d2.v == v
            &&& d2.t == dec.t
            &&& d2.t_delta == dec.t_delta
            &&& l != 0xff ==> d2.leading == l && d2.trailing == tr
        }),
{
    let delta = v ^ enc.v;
    let (vb, l, tr) = value_bits(delta, enc.leading, enc.trailing);
    lemma_xor_facts(v, enc.v);
    assert(bits[p as int] == vb[0]) by {
        assert(bits.subrange(p as int, (p + vb.len()) as int)[0] == vb[0]);
    }
    if delta == 0 {
        return;
    }
    assert(bits[p as int + 1] == vb[1]) by {
        assert(bits.subrange(p as int, (p + vb.len()) as int)[1] == vb[1]);
    }
    lemma_lz_tz(delta);
    lemma_delta_fits(delta);
    lemma2_to64();
    let nl = leading_of(delta);
    let nt = trailing_of(delta);
    let lz = u64_leading_zeros(delta);
    if enc.leading != 0xff && nl >= enc.leading && nt >= enc.trailing {
        let s = enc.trailing;
        let w = (64 - enc.leading - enc.trailing) as nat;
        let x = delta >> (s as u64);
        let body = u64_bits(x, w);
        assert(vb == seq![true, false] + body);
        lemma_sub_concat(bits, p as int, seq![true, false], body);
        assert(window_width(dec.leading, dec.trailing) == w);
        lemma_pow2_le((64 - lz) as nat, (s + w) as nat);
        lemma_shr_bound(delta, s as u64, w);
        lemma_read_u64(bits, p + 2, x, w);
        lemma_shr_shl(delta, s as u64);
    } else {
        let sig = (64 - nl - nt) as nat;
        let x = delta >> (nt as u64);
        let a = u64_bits(nl as u64, 5);
        let c = u64_bits(sig as u64, 6);
        let body = u64_bits(x, sig);
        assert(vb =~= seq![true, true] + a + c + body);
        lemma_sub_concat(bits, p as int, seq![true, true] + a + c, body);
        lemma_sub_concat(bits, p as int, seq![true, true] + a, c);
        lemma_sub_concat(bits, p as int, seq![true, true], a);
        lemma_read_u64(bits, p + 2, nl as u64, 5);
        lemma_read_back_bits(bits, p + 7, sig as u64, 6);
        if sig == 64 {
            assert(64nat % 64 == 0);
        } else {
            lemma_small_mod(sig, 64);
        }
        assert(u8_specs::wrapping_sub(u8_specs::wrapping_sub(64, nl), sig as u8) == nt);
        lemma_pow2_le((64 - lz) as nat, (nt + sig) as nat);
        lemma_shr_bound(delta, nt as u64, sig);
        lemma_read_u64(bits, p + 13, x, sig);
        lemma_shr_shl(delta, nt as u64);
    }
}

/// The bits of the prefix codes of a delta of deltas.
pub(crate) proof fn lemma_prefix_consts()
    ensures
        u64_bits(0b10, 2) =~= seq![true, false],
        u64_bits(0b110, 3) =~= seq![true, true, false],
        u64_bits(0b1110, 4) =~= seq![true, true, true, false],
        u64_bits(0b1111, 4) =~= seq![true, true, true, true],
{
    lemma_prefix_bits();
}

/// The bits of the prefix constants, one at a time.
proof fn lemma_prefix_bits()
    by (bit_vector)
    ensures
        (2u64 >> 1u64) & 1 == 1 && (2u64 >> 0u64) & 1 != 1,
        (6u64 >> 2u64) & 1 == 1 && (6u64 >> 1u64) & 1 == 1 && (6u64 >> 0u64) & 1 != 1,
        (14u64 >> 3u64) & 1 == 1 && (14u64 >> 2u64) & 1 == 1 && (14u64 >> 1u64) & 1 == 1 && (
        14u64 >> 0u64) & 1 != 1,
        (15u64 >> 3u64) & 1 == 1 && (15u64 >> 2u64) & 1 == 1 && (15u64 >> 1u64) & 1 == 1 && (
        15u64 >> 0u64) & 1 == 1,
{
}

/// The low `sz` bits of a delta of deltas in range, read back and sign
/// extended, give it back.
proof fn lemma_sign_extend_roundtrip(dod: i64, sz: nat)
    requires
        sz == 14 || sz == 17 || sz == 20,
        in_bit_range(dod, sz),
    ensures
        ((dod as u64) as nat % pow2(sz)) < pow2(sz),
        sign_extend(((dod as u64) as nat % pow2(sz)) as u64, sz) == dod,
{
    lemma2_to64();
    lemma2_to64_rest();
    lemma_i64_u64(dod, 0);
    let m = pow2(sz);
    lemma_pow2_pos(sz);
    vstd::arithmetic::div_mod::lemma_mod_bound((dod as u64) as int, m as int);
    if dod >= 0 {
        lemma_small_mod(dod as nat, m);
    } else {
        let q = pow2((64 - sz) as nat);
        lemma_pow2_adds(sz, (64 - sz) as nat);
        assert(m * q == 0x1_0000_0000_0000_0000int);
        vstd::arithmetic::div_mod::lemma_mod_multiples_vanish(q - 1, dod + m, m as int);
        assert(m * (q - 1) + (dod + m) == dod + 0x1_0000_0000_0000_0000int) by (nonlinear_arith)
            requires
                m * q == 0x1_0000_0000_0000_0000int,
        ;
        lemma_small_mod((dod + m) as nat, m);
    }
}

/// Reading a delta of deltas where its prefix code was written gives it
/// back, and moves past exactly those bits.
pub proof fn lemma_dod_roundtrip(bits: Seq<bool>, p: nat, dod: i64)
    requires
        p + dod_bits(dod).len() <= bits.len(),
        bits.subrange(p as int, (p + dod_bits(dod).len()) as int) == dod_bits(dod),
    ensures
        read_dod_spec(bits, p) == (Ok::<i64, ReadError>(dod), p + dod_bits(dod).len()),
{
    reveal_with_fuel(dod_prefix_spec, 5);
    lemma_prefix_consts();
    lemma2_to64();
    lemma2_to64_rest();
    let db = dod_bits(dod);
    assert forall|i: int| 0 <= i < db.len() implies bits[p + i] == #[trigger] db[i] by {
        assert(bits.subrange(p as int, (p + db.len()) as int)[i] == db[i]);
    }
    if dod == 0 {
        assert(db[0] == false);
        assert(bits[p as int] == false);
        assert(read_bit_spec(bits, p) == (Ok::<bool, ReadError>(false), p + 1));
        assert(dod_prefix_spec(bits, p, 0, 0) == (Ok::<u8, ReadError>(0), p + 1));
    } else if in_bit_range(dod, 14) {
        lemma_sub_concat(bits, p as int, u64_bits(0b10, 2), u64_bits(dod as u64, 14));
        lemma_read_back_bits(bits, p + 2, dod as u64, 14);
        lemma_sign_extend_roundtrip(dod, 14);
        assert(db[0] == true && db[1] == false);
        assert(bits[p as int] == true);
        assert(bits[p as int + 1] == false);
        assert(read_bit_spec(bits, p) == (Ok::<bool, ReadError>(true), p + 1));
        assert(read_bit_spec(bits, p + 1) == (Ok::<bool, ReadError>(false), p + 2));
        assert(dod_prefix_spec(bits, p + 1, 1, 1) == (Ok::<u8, ReadError>(2), p + 2));
        assert(dod_prefix_spec(bits, p, 0, 0) == (Ok::<u8, ReadError>(2), p + 2));
    } else if in_bit_range(dod, 17) {
        lemma_sub_concat(bits, p as int, u64_bits(0b110, 3), u64_bits(dod as u64, 17));
        lemma_read_back_bits(bits, p + 3, dod as u64, 17);
        lemma_sign_extend_roundtrip(dod, 17);
    } else if in_bit_range(dod, 20) {
        lemma_sub_concat(bits, p as int, u64_bits(0b1110, 4), u64_bits(dod as u64, 20));
        lemma_read_back_bits(bits, p + 4, dod as u64, 20);
        lemma_sign_extend_roundtrip(dod, 20);
    } else {
        lemma_sub_concat(bits, p as int, u64_bits(0b1111, 4), u64_bits(dod as u64, 64));
        lemma_read_u64(bits, p + 4, dod as u64, 64);
        lemma_i64_u64(dod, 0);
    }
}

/// After `k` samples the decoder matches the encoder: the same last
/// timestamp and value once a sample was read, the same timestamp delta once
/// two were, and the same window once the encoder has opened one.
pub open spec fn in_step(k: nat, enc: XorState, dec: XorState) -> bool {
    &&& k >= 1 ==> dec.t == enc.t && dec.v == enc.v
    &&& k >= 2 ==> dec.t_delta == enc.t_delta
    &&& enc.leading != 0xff ==> dec.leading == enc.leading && dec.trailing == enc.trailing
}

/// Adding to a timestamp the delta to a later one, in wrapping arithmetic,
/// gives the later one.
proof fn lemma_timestamp_step(prev: i64, t: i64)
    requires
        prev <= t,
    ensures
        i64_specs::wrapping_add(prev, ((t - prev) as u64) as i64) == t,
{
    lemma_i64_u64(0, (t - prev) as u64);
}

/// Decoding one sample where its append wrote its bits gives the sample
/// back, reads exactly those bits, and keeps the decoder in step.
pub proof fn lemma_sample_roundtrip(
    bits: Seq<bool>,
    pos: nat,
    total: u16,
    k: u16,
    enc: XorState,
    dec: XorState,
    t: i64,
    v: u64,
)
    requires
        k < total,
        in_step(k as nat, enc, dec),
        append_check(k, enc, t) is Ok,
        pos + sample_bits(k, enc, t, v).0.len() <= bits.len(),
        bits.subrange(pos as int, (pos + sample_bits(k, enc, t, v).0.len()) as int) == sample_bits(
            k,
            enc,
            t,
            v,
        ).0,
    ensures
        ({
            let (sb, e2) = sample_bits(k, enc, t, v);
            let (r, q, n, d2) = iter_next_spec(bits, pos, total, k, dec);
            &&& r == Ok::<Option<(i64, u64)>, ReadError>(Some((t, v)))
            &&& q == pos + sb.len()
            &&& n == k + 1
            &&& in_step(k as nat + 1, e2, d2)
        }),
{
    lemma2_to64();
    lemma2_to64_rest();
    if k == 0 {
        let e = uvarint_bytes(zigzag(t) as nat);
        lemma_sub_concat(bits, pos as int, stream_bits(e), u64_bits(v, 64));
        lemma_read_back_varint(bits, pos, t);
        lemma_read_u64(bits, pos + 8 * e.len(), v, 64);
    } else {
        let td = (t - enc.t) as u64;
        let vb = value_bits(v ^ enc.v, enc.leading, enc.trailing).0;
        lemma_timestamp_step(enc.t, t);
        if k == 1 {
            let tb = stream_bits(uvarint_bytes(td as nat));
            lemma_sub_concat(bits, pos as int, tb, vb);
            lemma_read_back_uvarint(bits, pos, td);
            let st1 = XorState { t: i64_specs::wrapping_add(dec.t, td as i64), t_delta: td, ..dec };
            lemma_value_roundtrip(bits, pos + tb.len(), enc, st1, v);
        } else {
            let dod = i64_specs::wrapping_sub(td as i64, enc.t_delta as i64);
            let db = dod_bits(dod);
            lemma_sub_concat(bits, pos as int, db, vb);
            lemma_dod_roundtrip(bits, pos, dod);
            lemma_i64_u64(0, td);
            assert(i64_specs::wrapping_add(dec.t_delta as i64, dod) == td as i64);
            let st1 = XorState { t: i64_specs::wrapping_add(dec.t, td as i64), t_delta: td, ..dec };
            lemma_value_roundtrip(bits, pos + db.len(), enc, st1, v);
        }
    }
}

/// A sequence that encodes has an encoding prefix of every length, whose
/// bits start the whole encoding.
pub proof fn lemma_encode_prefix(ss: Seq<(i64, u64)>, k: nat)
    requires
        encode_samples(ss) is Ok,
        k <= ss.len(),
    ensures
        encode_samples(ss.take(k as int)) is Ok,
        encode_samples(ss).unwrap().0.take(encode_samples(ss.take(k as int)).unwrap().0.len() as int)
            == encode_samples(ss.take(k as int)).unwrap().0,
        encode_samples(ss.take(k as int)).unwrap().0.len() <= encode_samples(ss).unwrap().0.len(),
    decreases ss.len() - k,
{
    if k == ss.len() {
        assert(ss.take(k as int) =~= ss);
    } else {
        lemma_encode_prefix(ss, k + 1);
        assert(ss.take(k as int + 1).drop_last() =~= ss.take(k as int));
        let b = encode_samples(ss.take(k as int)).unwrap().0;
        let b1 = encode_samples(ss.take(k as int + 1)).unwrap().0;
        let full = encode_samples(ss).unwrap().0;
        assert(b1.take(b.len() as int) =~= b);
        assert(full.take(b.len() as int) =~= b1.take(b1.len() as int).take(b.len() as int));
    }
}

/// A sequence that encodes has at most 65535 samples.
pub proof fn lemma_encode_len(ss: Seq<(i64, u64)>)
    requires
        encode_samples(ss) is Ok,
    ensures
        ss.len() <= u16::MAX,
{
    if ss.len() > u16::MAX {
        let k = 65536nat;
        lemma_encode_prefix(ss, k);
        assert(ss.take(k as int).drop_last() =~= ss.take(65535));
        lemma_encode_prefix(ss, 65535);
    }
}

/// The bits of sample `k` stand right after those of the first `k`.
proof fn lemma_step_bits(ss: Seq<(i64, u64)>, k: nat, bits: Seq<bool>)
    requires
        encode_samples(ss) is Ok,
        encode_samples(ss).unwrap().0.len() <= bits.len(),
        bits.take(encode_samples(ss).unwrap().0.len() as int) == encode_samples(ss).unwrap().0,
        k < ss.len(),
    ensures
        encode_samples(ss.take(k as int)) is Ok,
        append_check(k as u16, encode_samples(ss.take(k as int)).unwrap().1, ss[k as int].0) is Ok,
        ({
            let (bk, ek) = encode_samples(ss.take(k as int)).unwrap();
            let sb = sample_bits(k as u16, ek, ss[k as int].0, ss[k as int].1).0;
            &&& bk.len() + sb.len() <= bits.len()
            &&& bits.subrange(bk.len() as int, (bk.len() + sb.len()) as int) == sb
        }),
{
    let full = encode_samples(ss).unwrap().0;
    let (t, v) = ss[k as int];
    assert(ss.take(k as int + 1).drop_last() =~= ss.take(k as int));
    assert(ss.take(k as int + 1).last() == (t, v));
    lemma_encode_prefix(ss, k + 1);
    let (bk, ek) = encode_samples(ss.take(k as int)).unwrap();
    let sb = sample_bits(k as u16, ek, t, v).0;
    let b1 = encode_samples(ss.take(k as int + 1)).unwrap().0;
    assert(b1 == bk + sb);
    assert forall|i: int| 0 <= i < sb.len() implies bits[bk.len() + i] == #[trigger] sb[i] by {
        assert(bits.take(full.len() as int)[bk.len() + i] == full[bk.len() + i]);
        assert(full.take(b1.len() as int)[bk.len() + i] == b1[bk.len() + i]);
    }
    assert(bits.subrange(bk.len() as int, (bk.len() + sb.len()) as int) =~= sb);
}

/// Iterating from the position and state after `k` samples reads the rest.
#[verifier::rlimit(40)]
proof fn lemma_decode_from(
    ss: Seq<(i64, u64)>,
    k: nat,
    bits: Seq<bool>,
    dec: XorState,
)
    requires
        encode_samples(ss) is Ok,
        encode_samples(ss).unwrap().0.len() <= bits.len(),
        bits.take(encode_samples(ss).unwrap().0.len() as int) == encode_samples(ss).unwrap().0,
        k <= ss.len(),
        encode_samples(ss.take(k as int)) is Ok,
        in_step(k, encode_samples(ss.take(k as int)).unwrap().1, dec),
    ensures
        decode_steps(
            bits,
            encode_samples(ss.take(k as int)).unwrap().0.len(),
            ss.len() as u16,
            k as u16,
            dec,
            (ss.len() - k) as nat,
        ) == Ok::<Seq<(i64, u64)>, ReadError>(ss.skip(k as int)),
    decreases ss.len() - k,
{
    lemma_encode_len(ss);
    if k == ss.len() {
        assert(ss.skip(k as int) =~= Seq::<(i64, u64)>::empty());
    } else {
        let full = encode_samples(ss).unwrap().0;
        let (bk, ek) = encode_samples(ss.take(k as int)).unwrap();
        let (t, v) = ss[k as int];
        lemma_step_bits(ss, k, bits);
        lemma_sample_roundtrip(bits, bk.len(), ss.len() as u16, k as u16, ek, dec, t, v);
        let (r, q, n, d2) = iter_next_spec(bits, bk.len(), ss.len() as u16, k as u16, dec);
        let (sb, e2) = sample_bits(k as u16, ek, t, v);
        assert(ss.take(k as int + 1).drop_last() =~= ss.take(k as int));
        assert(ss.take(k as int + 1).last() == (t, v));
        assert(encode_samples(ss.take(k as int + 1)) == Ok::<(Seq<bool>, XorState), XorError>((bk + sb, e2)));
        lemma_decode_from(ss, k + 1, bits, d2);
        assert(seq![(t, v)] + ss.skip(k as int + 1) =~= ss.skip(k as int));
    }
}

/// Law: iterating the bits that appending `samples` to an empty chunk wrote,
/// whatever bits follow them, gives back exactly those samples.
pub proof fn lemma_decode_encoded(ss: Seq<(i64, u64)>, pad: Seq<bool>)
    requires
        encode_samples(ss) is Ok,
    ensures
        ss.len() <= u16::MAX,
        decode_steps(
            encode_samples(ss).unwrap().0 + pad,
            0,
            ss.len() as u16,
            0,
            initial_decoder(),
            ss.len(),
        ) == Ok::<Seq<(i64, u64)>, ReadError>(ss),
{
    lemma_encode_len(ss);
    let full = encode_samples(ss).unwrap().0;
    assert((full + pad).take(full.len() as int) =~= full);
    assert(ss.take(0) =~= Seq::<(i64, u64)>::empty());
    lemma_decode_from(ss, 0, full + pad, initial_decoder());
    assert(ss.skip(0) =~= ss);
}

/// Law: a chunk whose writer holds the appends of `samples` (as appending
/// them to a new chunk leaves it) reads back exactly those samples.
pub proof fn lemma_chunk_roundtrip(w: BitWriter, ss: Seq<(i64, u64)>)
    requires
        encode_samples(ss) is Ok,
        holds(w, ss.len() as u16, encode_samples(ss).unwrap().0),
    ensures
        decode_chunk(w.stream_view()) == Ok::<Seq<(i64, u64)>, ReadError>(ss),
{
    let s = w.stream_view();
    let full = encode_samples(ss).unwrap().0;
    lemma_encode_len(ss);
    lemma_stream_bits_skip(s, 2);
    lemma_writer_bytes(w);
    let pad = zero_bits(w.free_bits());
    assert(stream_bits(s.skip(2)) =~= full + pad) by {
        assert(stream_bits(s).skip(16) =~= (w.bits() + pad).skip(16));
        assert((w.bits() + pad).skip(16) =~= w.bits().skip(16) + pad);
    }
    lemma_decode_encoded(ss, pad);
}

/// Law: two clean writers that hold the same count and payload have the same
/// bytes and the same free bits; so replaying a chunk's samples into a new
/// chunk rebuilds the very bytes the appends left.
pub proof fn lemma_holds_unique(w1: BitWriter, w2: BitWriter, n: u16, payload: Seq<bool>)
    requires
        holds(w1, n, payload),
        holds(w2, n, payload),
    ensures
        w1.stream_view() == w2.stream_view(),
        w1.free_bits() == w2.free_bits(),
{
    let s1 = w1.stream_view();
    let s2 = w2.stream_view();
    assert(w1.bits().skip(16).len() == w2.bits().skip(16).len());
    assert(s1.len() == s2.len());
    lemma_writer_bytes(w1);
    lemma_writer_bytes(w2);
    assert(w1.bits().take(16) =~= stream_bits(s1).take(16));
    lemma_stream_bits_byte(s1, 0);
    lemma_stream_bits_byte(s1, 1);
    lemma_stream_bits_byte(s2, 0);
    lemma_stream_bits_byte(s2, 1);
    assert(s1[0] == s2[0] && s1[1] == s2[1]) by {
        lemma_byte_of_header(s1[0], s1[1], s2[0], s2[1]);
    }
    assert(w1.free_bits() == w2.free_bits());
    assert(stream_bits(s1).skip(16) =~= stream_bits(s2).skip(16)) by {
        let pad = zero_bits(w1.free_bits());
        assert(stream_bits(s1).skip(16) =~= (w1.bits() + pad).skip(16));
        assert((w1.bits() + pad).skip(16) =~= w1.bits().skip(16) + pad);
        assert(stream_bits(s2).skip(16) =~= (w2.bits() + pad).skip(16));
        assert((w2.bits() + pad).skip(16) =~= w2.bits().skip(16) + pad);
    }
    assert forall|j: int| 2 <= j < s1.len() implies s1[j] == s2[j] by {
        lemma_stream_bits_byte(s1, j);
        lemma_stream_bits_byte(s2, j);
        assert(stream_bits(s1).subrange(8 * j, 8 * j + 8) =~= stream_bits(s1).skip(16).subrange(8 * j - 16, 8 * j - 8));
        assert(stream_bits(s2).subrange(8 * j, 8 * j + 8) =~= stream_bits(s2).skip(16).subrange(8 * j - 16, 8 * j - 8));
        lemma_value_of_byte(s1[j]);
        lemma_value_of_byte(s2[j]);
    }
    assert(s1 =~= s2);
}

/// Law: reopening a chunk that `samples` were appended to reads them all
/// back, and any writer that holds them again, as the appender's replay
/// leaves it, has exactly the chunk's bytes and free bits; so appending
/// after reopening writes what appending without reopening would.
pub proof fn lemma_reopen(w: BitWriter, ss: Seq<(i64, u64)>)
    requires
        encode_samples(ss) is Ok,
        holds(w, ss.len() as u16, encode_samples(ss).unwrap().0),
    ensures
        decode_chunk(w.stream_view()) == Ok::<Seq<(i64, u64)>, ReadError>(ss),
        forall|w2: BitWriter|
            #[trigger] holds(w2, ss.len() as u16, encode_samples(ss).unwrap().0) ==> w2.stream_view()
                == w.stream_view() && w2.free_bits() == w.free_bits(),
{
    lemma_chunk_roundtrip(w, ss);
    assert forall|w2: BitWriter|
        #[trigger] holds(w2, ss.len() as u16, encode_samples(ss).unwrap().0) implies w2.stream_view()
            == w.stream_view() && w2.free_bits() == w.free_bits() by {
        lemma_holds_unique(w, w2, ss.len() as u16, encode_samples(ss).unwrap().0);
    }
}

/// The two header bytes are fixed by the count they hold.
proof fn lemma_byte_of_header(a0: u8, a1: u8, b0: u8, b1: u8)
    requires
        (a0 as int * 256 + a1 as int) as u16 == (b0 as int * 256 + b1 as int) as u16,
    ensures
        a0 == b0 && a1 == b1,
{
}

} // verus!
