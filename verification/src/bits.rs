//! The bit-slice engine: reading and writing an arbitrary run of bits of a
//! byte buffer.
//!
//! Bit `0` of the buffer is the least significant bit of byte `0`, bit `8`
//! the least significant bit of byte `1`, and so on. A field stored at
//! offset `off` with width `w` occupies bits `off .. off + w`, least
//! significant value bit first.

use vstd::prelude::*;

verus! {

use vstd::arithmetic::div_mod::{
    lemma_div_denominator,
    lemma_fundamental_div_mod,
    lemma_fundamental_div_mod_converse,
    lemma_mod_breakdown,
    lemma_small_mod,
};
use vstd::arithmetic::power2::{
    lemma2_to64,
    lemma2_to64_rest,
    lemma_pow2_adds,
    lemma_pow2_pos,
    lemma_pow2_strictly_increases,
    pow2,
};
use vstd::bits::{
    lemma_u64_mul_pow2_le_max_iff_max_shr,
    lemma_u64_shl_is_mul,
    lemma_u64_shr_is_div,
    lemma_u8_low_bits_mask_is_mod,
    lemma_u8_shl_is_mul,
    lemma_u8_shr_is_div,
    low_bits_mask,
};
use vstd::pervasive::VecAdditionalExecFns;

/// True when bit `t` (counting from the least significant end) of byte `b` is set.
pub open spec fn u8_bit(b: u8, t: nat) -> bool {
    (b >> (t as u8)) & 1 == 1
}

/// True when bit `t` (counting from the least significant end) of `v` is set.
pub open spec fn u64_bit(v: u64, t: nat) -> bool {
    (v >> (t as u64)) & 1 == 1
}

/// Bit `i` of a byte buffer, in the global numbering described above.
pub open spec fn nth_bit(data: Seq<u8>, i: nat) -> bool {
    u8_bit(data[(i / 8) as int], i % 8)
}

/// The unsigned value stored in bits `off .. off + w` of the buffer:
/// bit `off` is the least significant bit of the value.
pub open spec fn field_val(data: Seq<u8>, off: nat, w: nat) -> nat
    decreases w,
{
    if w == 0 {
        0
    } else {
        (if nth_bit(data, off) {
            1nat
        } else {
            0nat
        }) + 2 * field_val(data, off + 1, (w - 1) as nat)
    }
}

/// Division and remainder by 8 of a decomposed bit index.
proof fn lemma_div8(k: nat, t: nat)
    requires
        t < 8,
    ensures
        (8 * k + t) / 8 == k,
        (8 * k + t) % 8 == t,
{
    lemma_fundamental_div_mod_converse((8 * k + t) as int, 8, k as int, t as int);
}

/// A bit of a byte, expressed with division: bit `t` of `b` is the parity
/// of `b / 2^t`.
proof fn lemma_u8_bit_div(b: u8, t: nat)
    requires
        t < 8,
    ensures
        u8_bit(b, t) <==> (b as nat / pow2(t)) % 2 == 1,
{
    lemma_u8_shr_is_div(b, t as u8);
    let s = b >> (t as u8);
    assert(s & 1 == s % 2) by (bit_vector);
}

/// A bit of a 64-bit value, expressed with division.
proof fn lemma_u64_bit_div(v: u64, t: nat)
    requires
        t < 64,
    ensures
        u64_bit(v, t) <==> (v as nat / pow2(t)) % 2 == 1,
{
    lemma_u64_shr_is_div(v, t as u64);
    let s = v >> (t as u64);
    assert(s & 1 == s % 2) by (bit_vector);
}

/// When bits `off .. off + w` of the buffer agree with the binary digits of
/// a number `x`, the stored field value is `x` reduced modulo `2^w`.
proof fn lemma_field_val_of_nat_bits(data: Seq<u8>, off: nat, w: nat, x: nat)
    requires
        forall|j: nat| j < w ==> (nth_bit(data, off + j) <==> (x / pow2(j)) % 2 == 1),
    ensures
        field_val(data, off, w) == x % pow2(w),
    decreases w,
{
    if w == 0 {
        assert(pow2(0) == 1) by {
            lemma2_to64();
        }
    } else {
        let x2 = x / 2;
        assert forall|j: nat| j < (w - 1) as nat implies (nth_bit(data, (off + 1) + j) <==> (x2
            / pow2(j)) % 2 == 1) by {
            assert(nth_bit(data, off + (j + 1)) <==> (x / pow2(j + 1)) % 2 == 1);
            lemma_pow2_pos(j);
            lemma_div_denominator(x as int, 2, pow2(j) as int);
            lemma_pow2_adds(1, j);
            assert(pow2(1) == 2) by {
                lemma2_to64();
            }
            assert(x2 / pow2(j) == x / pow2(j + 1));
        }
        lemma_field_val_of_nat_bits(data, off + 1, (w - 1) as nat, x2);
        assert(nth_bit(data, off + 0) <==> (x / pow2(0)) % 2 == 1);
        assert(pow2(0) == 1 && pow2(1) == 2) by {
            lemma2_to64();
        }
        lemma_pow2_pos((w - 1) as nat);
        lemma_mod_breakdown(x as int, 2, pow2((w - 1) as nat) as int);
        lemma_pow2_adds(1, (w - 1) as nat);
        assert(pow2(w) == 2 * pow2((w - 1) as nat));
        assert(field_val(data, off, w) == (x % 2) + 2 * (x2 % pow2((w - 1) as nat)));
    }
}

/// A field value depends only on the bits of its own range: two buffers that
/// agree on bits `off .. off + w` store the same value there.
pub proof fn lemma_field_val_congruence(d1: Seq<u8>, d2: Seq<u8>, off: nat, w: nat)
    requires
        forall|j: nat| j < w ==> #[trigger] nth_bit(d1, off + j) == nth_bit(d2, off + j),
    ensures
        field_val(d1, off, w) == field_val(d2, off, w),
    decreases w,
{
    if w > 0 {
        assert(nth_bit(d1, off + 0) == nth_bit(d2, off + 0));
        assert forall|j: nat| j < (w - 1) as nat implies #[trigger] nth_bit(d1, (off + 1) + j)
            == nth_bit(d2, (off + 1) + j) by {
            assert(nth_bit(d1, off + (j + 1)) == nth_bit(d2, off + (j + 1)));
        }
        lemma_field_val_congruence(d1, d2, off + 1, (w - 1) as nat);
    }
}

/// Splitting a bit range in two: the low `w1` bits contribute the low part
/// of the value, the following `w2` bits the high part.
proof fn lemma_field_val_split(data: Seq<u8>, off: nat, w1: nat, w2: nat)
    ensures
        field_val(data, off, w1 + w2) == field_val(data, off, w1) + pow2(w1) * field_val(
            data,
            off + w1,
            w2,
        ),
    decreases w1,
{
    if w1 == 0 {
        assert(pow2(0) == 1) by {
            lemma2_to64();
        }
    } else {
        lemma_field_val_split(data, off + 1, (w1 - 1) as nat, w2);
        let head: nat = if nth_bit(data, off) {
            1
        } else {
            0
        };
        let a = field_val(data, off + 1, (w1 - 1) as nat);
        let b = field_val(data, off + w1, w2);
        let p = pow2((w1 - 1) as nat);
        assert(field_val(data, off, w1 + w2) == head + 2 * (a + p * b));
        assert(field_val(data, off, w1) == head + 2 * a);
        lemma_pow2_adds(1, (w1 - 1) as nat);
        assert(pow2(1) == 2) by {
            lemma2_to64();
        }
        assert(pow2(w1) == 2 * p);
        assert(head + 2 * (a + p * b) == (head + 2 * a) + (2 * p) * b) by (nonlinear_arith);
    }
}

/// The bits `s .. s + n` of byte `k` of the buffer, read as a field, are the
/// middle bits of that byte: `(data[k] / 2^s) mod 2^n`.
proof fn lemma_field_val_in_byte(data: Seq<u8>, k: nat, s: nat, n: nat)
    requires
        k < data.len(),
        s + n <= 8,
    ensures
        field_val(data, 8 * k + s, n) == ((data[k as int] as nat) / pow2(s)) % pow2(n),
{
    let b = data[k as int];
    let x = (b as nat) / pow2(s);
    assert forall|j: nat| j < n implies (#[trigger] nth_bit(data, (8 * k + s) + j) <==> (x / pow2(
        j,
    )) % 2 == 1) by {
        lemma_div8(k, s + j);
        assert(nth_bit(data, 8 * k + (s + j)) == u8_bit(b, s + j));
        lemma_u8_bit_div(b, s + j);
        lemma_pow2_pos(s);
        lemma_pow2_pos(j);
        lemma_div_denominator(b as int, pow2(s) as int, pow2(j) as int);
        lemma_pow2_adds(s, j);
        assert(x / pow2(j) == (b as nat) / pow2(s + j));
    }
    lemma_field_val_of_nat_bits(data, 8 * k + s, n, x);
}

/// A whole aligned byte read as an eight-bit field is the byte itself.
proof fn lemma_field_val_whole_byte(data: Seq<u8>, k: nat)
    requires
        k < data.len(),
    ensures
        field_val(data, 8 * k, 8) == data[k as int] as nat,
{
    let b = data[k as int];
    lemma_field_val_in_byte(data, k, 0, 8);
    assert(pow2(0) == 1 && pow2(8) == 256) by {
        lemma2_to64();
    }
    lemma_small_mod(b as nat, 256);
}

/// When bits `off .. off + w` of the buffer agree with the bits of a 64-bit
/// value, the stored field value is that value reduced modulo `2^w`.
proof fn lemma_field_val_of_u64_bits(data: Seq<u8>, off: nat, w: nat, v: u64)
    requires
        w <= 64,
        forall|j: nat| j < w ==> (nth_bit(data, off + j) <==> #[trigger] u64_bit(v, j)),
    ensures
        field_val(data, off, w) == (v as nat) % pow2(w),
{
    assert forall|j: nat| j < w implies (nth_bit(data, off + j) <==> ((v as nat) / pow2(j)) % 2
        == 1) by {
        lemma_u64_bit_div(v, j);
        assert(nth_bit(data, off + j) <==> u64_bit(v, j));
    }
    lemma_field_val_of_nat_bits(data, off, w, v as nat);
}

/// Truncating shift: bitwise OR of a small accumulator with a shifted chunk
/// adds the chunk at its scaled position.
proof fn lemma_u64_or_shift_is_add(a: u64, c: u64, s: u64)
    by (bit_vector)
    requires
        s < 64,
        a < (1u64 << s),
        c <= (0xffff_ffff_ffff_ffffu64 >> s),
    ensures
        (a | (c << s)) == a + (c << s),
{
}

/// Accumulating the next `n`-bit chunk above the `s` bits already gathered:
/// the OR is an exact addition and the result stays below `2^(s + n)`.
proof fn lemma_or_shift_value(a: u64, c: u64, s: u64, n: nat)
    requires
        1 <= n,
        s as nat + n <= 64,
        (a as nat) < pow2(s as nat),
        (c as nat) < pow2(n),
    ensures
        ((a | (c << s)) as nat) == a as nat + (c as nat) * pow2(s as nat),
        a as nat + (c as nat) * pow2(s as nat) < pow2(s as nat + n),
{
    let sn = s as nat;
    let p = pow2(sn);
    let q = pow2(n);
    lemma_pow2_pos(sn);
    lemma_pow2_pos(n);
    lemma_pow2_adds(sn, n);
    assert(pow2(64) == 0x1_0000_0000_0000_0000) by {
        lemma2_to64_rest();
    }
    if sn + n < 64 {
        lemma_pow2_strictly_increases(sn + n, 64);
    }
    lemma_pow2_strictly_increases(sn, 64);
    assert((a as nat) + (c as nat) * p < p * q) by (nonlinear_arith)
        requires
            (a as nat) < p,
            (c as nat) < q,
            p > 0,
    ;
    assert((c as nat) * p < p * q) by (nonlinear_arith)
        requires
            (c as nat) < q,
            p > 0,
    ;
    assert((c as nat) * pow2(sn) <= u64::MAX);
    lemma_u64_mul_pow2_le_max_iff_max_shr(c, s, u64::MAX);
    lemma_u64_shl_is_mul(c, s);
    lemma_u64_shl_is_mul(1u64, s);
    lemma_u64_or_shift_is_add(a, c, s);
}

/// Bit `t` of the byte that carries bits `s .. s + 8` of a 64-bit value.
proof fn lemma_u8_bits_of_shifted(v: u64, s: u64, t: u8, e: u64)
    by (bit_vector)
    requires
        s < 64,
        t < 8,
        e == s + t,
        e < 64,
    ensures
        ((((v >> s) as u8) >> t) & 1 == 1) <==> ((v >> e) & 1 == 1),
{
}

/// The low byte of a 64-bit value carries its low eight bits.
proof fn lemma_u8_bits_of_low(v: u64, t: u8)
    by (bit_vector)
    requires
        t < 8,
    ensures
        (((v as u8) >> t) & 1 == 1) <==> ((v >> (t as u64)) & 1 == 1),
{
}

/// Splicing a chunk into bits `s .. s + n` of a byte leaves the bits on
/// either side of that range unchanged.
proof fn lemma_u8_splice_keep(b: u8, c: u8, m: u8, nb: u8, s: u8, n: u8, t: u8)
    by (bit_vector)
    requires
        s < 8,
        1 <= n && n <= 7,
        s + n <= 8,
        m == (1u8 << n) - 1,
        nb == (b & !(m << s)) | ((c & m) << s),
        t < 8,
        t < s || s + n <= t,
    ensures
        ((nb >> t) & 1) == ((b >> t) & 1),
{
}

/// Splicing a chunk into bits `s .. s + n` of a byte puts bit `j` of the
/// chunk at bit `s + j` of the byte.
proof fn lemma_u8_splice_mid(b: u8, c: u8, m: u8, nb: u8, s: u8, n: u8, j: u8, t: u8)
    by (bit_vector)
    requires
        s < 8,
        1 <= n && n <= 7,
        s + n <= 8,
        m == (1u8 << n) - 1,
        nb == (b & !(m << s)) | ((c & m) << s),
        j < n,
        t == s + j,
    ensures
        ((nb >> t) & 1) == ((c >> j) & 1),
{
}

/// Writes the low `n` bits of `c` into bits `s .. s + n` of byte `k` of the
/// buffer; every other bit of the buffer keeps its value.
fn write_partial_byte(data: &mut Vec<u8>, k: usize, s: u8, n: u8, c: u8)
    requires
        k < old(data)@.len(),
        s < 8,
        1 <= n && n <= 7,
        s + n <= 8,
    ensures
        final(data)@.len() == old(data)@.len(),
        forall|j: nat|
            j < n ==> (nth_bit(final(data)@, (8 * k as nat + s as nat) + j) <==> #[trigger] u8_bit(
                c,
                j,
            )),
        forall|i: nat|
            i < 8 * old(data)@.len() && !(8 * k as nat + s as nat <= i < 8 * k as nat + s as nat
                + n as nat) ==> nth_bit(final(data)@, i) == nth_bit(old(data)@, i),
{
    let b: u8 = data[k];
    proof {
        lemma_pow2_strictly_increases(n as nat, 8);
        assert(pow2(8) == 256) by {
            lemma2_to64();
        }
        lemma_u8_shl_is_mul(1u8, n);
        lemma_pow2_pos(n as nat);
    }
    let m: u8 = (1u8 << n) - 1;
    let nb: u8 = (b & !(m << s)) | ((c & m) << s);
    data.set(k, nb);
    proof {
        let dold = old(data)@;
        let dnew = data@;
        let kn = k as nat;
        let sn = s as nat;
        assert forall|j: nat| j < n implies (nth_bit(dnew, (8 * kn + sn) + j) <==> #[trigger] u8_bit(
            c,
            j,
        )) by {
            lemma_div8(kn, sn + j);
            assert(dnew[kn as int] == nb);
            assert(nth_bit(dnew, 8 * kn + (sn + j)) == u8_bit(nb, sn + j));
            lemma_u8_splice_mid(b, c, m, nb, s, n, j as u8, (sn + j) as u8);
        }
        assert forall|i: nat|
            i < 8 * dold.len() && !(8 * kn + sn <= i < 8 * kn + sn + n as nat) implies nth_bit(
            dnew,
            i,
        ) == nth_bit(dold, i) by {
            lemma_fundamental_div_mod(i as int, 8);
            assert(i / 8 < dold.len());
            if i / 8 == kn {
                let t = i % 8;
                assert(i == 8 * kn + t);
                assert(t < sn || sn + n as nat <= t);
                lemma_u8_splice_keep(b, c, m, nb, s, n, t as u8);
                assert(dnew[(i / 8) as int] == nb);
            } else {
                assert(dnew[(i / 8) as int] == dold[(i / 8) as int]);
            }
        }
    }
}

/// Writes the low `width` bits of `value` into the bits of the buffer that
/// start at bit `offset`. All other bits of the buffer, in particular the
/// neighbouring bits that share the first and last touched byte with this
/// range, keep their values; the bits of `value` at position `width` and
/// above are never consulted.
///
/// Like the read side, the write runs in up to three phases: a partial
/// leading byte, whole interior bytes, and a partial trailing byte.
pub fn write_bits(data: &mut Vec<u8>, offset: usize, width: usize, value: u64)
    requires
        width <= 64,
        offset + width <= 8 * old(data)@.len(),
    ensures
        final(data)@.len() == old(data)@.len(),
        forall|j: nat|
            j < width ==> (nth_bit(final(data)@, offset as nat + j) <==> #[trigger] u64_bit(
                value,
                j,
            )),
        forall|i: nat|
            i < 8 * old(data)@.len() && !(offset as nat <= i < offset as nat + width) ==> nth_bit(
                final(data)@,
                i,
            ) == nth_bit(old(data)@, i),
        field_val(final(data)@, offset as nat, width as nat) == (value as nat) % pow2(
            width as nat,
        ),
{
    let ghost d0 = data@;
    let mut byte_i: usize = offset / 8;
    let start_bit: usize = offset % 8;
    let mut done: usize = 0;
    proof {
        lemma_fundamental_div_mod(offset as int, 8);
    }
    if start_bit != 0 && width > 0 {
        let avail: usize = 8 - start_bit;
        let n: usize = if width < avail {
            width
        } else {
            avail
        };
        write_partial_byte(data, byte_i, start_bit as u8, n as u8, value as u8);
        proof {
            assert forall|j: nat| j < n implies (nth_bit(data@, offset as nat + j)
                <==> #[trigger] u64_bit(value, j)) by {
                assert(nth_bit(data@, (8 * byte_i as nat + start_bit as nat) + j) <==> u8_bit(
                    value as u8,
                    j,
                ));
                lemma_u8_bits_of_low(value, j as u8);
            }
        }
        done = n;
        byte_i = byte_i + 1;
    }
    while done + 8 <= width
        invariant
            width <= 64,
            offset + width <= 8 * d0.len(),
            data@.len() == d0.len(),
            done <= width,
            done == width || offset + done == 8 * byte_i,
            forall|j: nat|
                j < done ==> (nth_bit(data@, offset as nat + j) <==> #[trigger] u64_bit(value, j)),
            forall|i: nat|
                i < 8 * d0.len() && !(offset as nat <= i < offset as nat + done) ==> nth_bit(
                    data@,
                    i,
                ) == nth_bit(d0, i),
        decreases width - done,
    {
        let ghost dprev = data@;
        let nb: u8 = (value >> (done as u64)) as u8;
        data.set(byte_i, nb);
        proof {
            let dnew = data@;
            assert forall|j: nat| j < done + 8 implies (nth_bit(dnew, offset as nat + j)
                <==> #[trigger] u64_bit(value, j)) by {
                let i = offset as nat + j;
                lemma_fundamental_div_mod(i as int, 8);
                assert(i / 8 < dprev.len());
                if j < done {
                    assert(i < 8 * byte_i as nat);
                    assert(i / 8 != byte_i as nat);
                    assert(dnew[(i / 8) as int] == dprev[(i / 8) as int]);
                    assert(nth_bit(dprev, offset as nat + j) <==> u64_bit(value, j));
                } else {
                    let t = (j - done) as nat;
                    assert(i == 8 * byte_i as nat + t);
                    lemma_div8(byte_i as nat, t);
                    assert(dnew[(i / 8) as int] == nb);
                    lemma_u8_bits_of_shifted(value, done as u64, t as u8, (done as nat + t) as u64);
                }
            }
            assert forall|i: nat|
                i < 8 * d0.len() && !(offset as nat <= i < offset as nat + done + 8) implies
                nth_bit(dnew, i) == nth_bit(d0, i) by {
                lemma_fundamental_div_mod(i as int, 8);
                assert(i / 8 < d0.len());
                if i / 8 == byte_i as nat {
                    assert(8 * byte_i as nat <= i < 8 * byte_i as nat + 8);
                    assert(false);
                } else {
                    assert(dnew[(i / 8) as int] == dprev[(i / 8) as int]);
                }
            }
        }
        done = done + 8;
        byte_i = byte_i + 1;
    }
    let rem: usize = width - done;
    if rem > 0 {
        let ghost dmid = data@;
        write_partial_byte(data, byte_i, 0, rem as u8, (value >> (done as u64)) as u8);
        proof {
            let c = (value >> (done as u64)) as u8;
            assert forall|j: nat| j < width implies (nth_bit(data@, offset as nat + j)
                <==> #[trigger] u64_bit(value, j)) by {
                if j < done {
                    let i = offset as nat + j;
                    assert(i < 8 * byte_i as nat);
                    assert(!(8 * byte_i as nat <= i < 8 * byte_i as nat + rem as nat));
                    assert(nth_bit(data@, i) == nth_bit(dmid, i));
                    assert(nth_bit(dmid, offset as nat + j) <==> u64_bit(value, j));
                } else {
                    let t = (j - done) as nat;
                    assert(nth_bit(data@, (8 * byte_i as nat + 0) + t) <==> u8_bit(c, t));
                    lemma_u8_bits_of_shifted(value, done as u64, t as u8, (done as nat + t) as u64);
                }
            }
            assert forall|i: nat|
                i < 8 * d0.len() && !(offset as nat <= i < offset as nat + width) implies nth_bit(
                data@,
                i,
            ) == nth_bit(d0, i) by {
                assert(!(8 * byte_i as nat <= i < 8 * byte_i as nat + rem as nat));
                assert(nth_bit(data@, i) == nth_bit(dmid, i));
                assert(!(offset as nat <= i < offset as nat + done));
            }
        }
    }
    proof {
        lemma_field_val_of_u64_bits(data@, offset as nat, width as nat, value);
    }
}

/// Reads the `width` bits that start at bit `offset` of the buffer and
/// returns them as an unsigned value, least significant bit first.
///
/// The extraction runs in up to three phases: a partial leading byte when
/// the offset is not byte aligned, whole interior bytes, and a partial
/// trailing byte.
#[verifier::rlimit(60)]
#[verifier::spinoff_prover]
pub fn read_bits(data: &Vec<u8>, offset: usize, width: usize) -> (r: u64)
    requires
        width <= 64,
        offset + width <= 8 * data@.len(),
    ensures
        r as nat == field_val(data@, offset as nat, width as nat),
        (r as nat) < pow2(width as nat),
{
    let mut byte_i: usize = offset / 8;
    let start_bit: usize = offset % 8;
    let mut done: usize = 0;
    let mut ret: u64 = 0;
    proof {
        lemma_fundamental_div_mod(offset as int, 8);
        assert(pow2(0) == 1) by {
            lemma2_to64();
        }
    }
    if start_bit != 0 && width > 0 {
        let avail: usize = 8 - start_bit;
        let n: usize = if width < avail {
            width
        } else {
            avail
        };
        let b: u8 = data[byte_i];
        proof {
            lemma_pow2_strictly_increases(n as nat, 8);
            assert(pow2(8) == 256) by {
                lemma2_to64();
            }
            lemma_u8_shl_is_mul(1u8, n as u8);
            lemma_pow2_pos(n as nat);
        }
        let m: u8 = (1u8 << (n as u8)) - 1;
        let chunk: u8 = (b >> (start_bit as u8)) & m;
        proof {
            assert(m as nat == low_bits_mask(n as nat));
            lemma_u8_shr_is_div(b, start_bit as u8);
            lemma_u8_low_bits_mask_is_mod(b >> (start_bit as u8), n as nat);
            lemma_field_val_in_byte(data@, byte_i as nat, start_bit as nat, n as nat);
            assert(8 * byte_i as nat + start_bit as nat == offset as nat);
            assert(chunk as nat == field_val(data@, offset as nat, n as nat));
        }
        ret = chunk as u64;
        done = n;
        byte_i = byte_i + 1;
    }
    while done + 8 <= width
        invariant
            width <= 64,
            offset + width <= 8 * data@.len(),
            done <= width,
            done == width || offset + done == 8 * byte_i,
            ret as nat == field_val(data@, offset as nat, done as nat),
            (ret as nat) < pow2(done as nat),
        decreases width - done,
    {
        let b: u8 = data[byte_i];
        proof {
            assert(pow2(8) == 256) by {
                lemma2_to64();
            }
            lemma_field_val_whole_byte(data@, byte_i as nat);
            lemma_field_val_split(data@, offset as nat, done as nat, 8);
            lemma_or_shift_value(ret, b as u64, done as u64, 8);
            assert(offset as nat + done as nat == 8 * (byte_i as nat));
            assert(field_val(data@, offset as nat + done as nat, 8) == b as nat);
            assert(field_val(data@, offset as nat, done as nat + 8) == field_val(
                data@,
                offset as nat,
                done as nat,
            ) + pow2(done as nat) * field_val(data@, offset as nat + done as nat, 8));
            assert(((ret | ((b as u64) << (done as u64))) as nat) == ret as nat + ((b as u64) as nat)
                * pow2(done as nat));
            assert((b as u64) as nat == b as nat);
            assert(((ret | ((b as u64) << (done as u64))) as nat) == field_val(
                data@,
                offset as nat,
                done as nat + 8,
            ));
        }
        ret = ret | ((b as u64) << (done as u64));
        done = done + 8;
        byte_i = byte_i + 1;
    }
    let rem: usize = width - done;
    if rem > 0 {
        let b: u8 = data[byte_i];
        proof {
            lemma_pow2_strictly_increases(rem as nat, 8);
            assert(pow2(0) == 1 && pow2(8) == 256) by {
                lemma2_to64();
            }
            lemma_u8_shl_is_mul(1u8, rem as u8);
            lemma_pow2_pos(rem as nat);
        }
        let m: u8 = (1u8 << (rem as u8)) - 1;
        let chunk: u8 = b & m;
        proof {
            assert(m as nat == low_bits_mask(rem as nat));
            lemma_u8_low_bits_mask_is_mod(b, rem as nat);
            lemma_field_val_in_byte(data@, byte_i as nat, 0, rem as nat);
            assert(chunk as nat == field_val(data@, offset as nat + done as nat, rem as nat));
            lemma_field_val_split(data@, offset as nat, done as nat, rem as nat);
            lemma_or_shift_value(ret, chunk as u64, done as u64, rem as nat);
        }
        ret = ret | ((chunk as u64) << (done as u64));
    }
    ret
}

} // verus!
