//! Wire codecs: the 14-bit public-key packing, the compressed (Golomb–Rice) signature
//! encoding, and hashing a message to a point of `Z_q[x]/(x^512 + 1)`.
use vstd::prelude::*;
use vstd::arithmetic::power2::*;
use vstd::arithmetic::div_mod::*;
use vstd::arithmetic::mul::lemma_mul_basics;
use crate::bits::{
    bit, bits_val, lemma_acc_push, lemma_acc_take, lemma_bits_val_split, lemma_bits_val_byte,
    lemma_bits_val_divmod, lemma_bits_val_bound, lemma_bits_val_zero, lemma_bit_range,
    lemma_bits_val_eq_bits, lemma_bits_eq_bits_val,
};
use crate::ntt::{N, Q};
use crate::keccak::{
    Shake256, absorb_spec, finalize_spec, sponge_init, stream_byte, shake256_spec, permute_n, block_of, offset_of,
    lemma_absorb_split, lemma_permute_n_len, lemma_keccak_len, RATE,
};

verus! {

/// Coefficient `k` of a packed public key: the 14 bits at bit `14·k`.
pub open spec fn pk_coeff(buf: Seq<u8>, k: int) -> int {
    bits_val(buf, 14 * k, 14)
}

/// Coefficients `0..=k` of a packed public key are all below q.
pub open spec fn pk_valid_through(buf: Seq<u8>, k: int) -> bool {
    forall|j: int| 0 <= j <= k ==> #[trigger] pk_coeff(buf, j) < 12289
}

/// A packed public key body decodes: it has at least 896 bytes and all 512
/// coefficients are below q.
pub open spec fn pk_decodes(buf: Seq<u8>) -> bool {
    buf.len() >= 896 && pk_valid_through(buf, 511)
}

/// The decoded public-key polynomial.
pub open spec fn pk_poly(buf: Seq<u8>) -> Seq<int> {
    Seq::new(512, |k: int| pk_coeff(buf, k))
}

/// Unpacks 512 coefficients of 14 bits each, most significant bit first, from the first
/// 896 bytes of `buf`. Fails when `buf` is shorter or a coefficient is not below q;
/// coefficients are written into `h` up to the first one that is out of range.
pub fn decode_pubkey_u32(buf: &[u8], h: &mut [u32; N]) -> (ok: bool)
    ensures
        ok == pk_decodes(buf@),
        forall|k: int|
            0 <= k < 512 ==> #[trigger] final(h)[k] as int == if buf@.len() >= 896 && pk_valid_through(
                buf@,
                k,
            ) {
                pk_coeff(buf@, k)
            } else {
                old(h)[k] as int
            },
{
    if buf.len() < (N * 14) / 8 {
        return false;
    }
    let ghost b = buf@;
    let ghost oh = h@;
    assert(oh == old(h)@);
    let mut acc: u32 = 0;
    let mut acc_len: u32 = 0;
    let mut idx_in: usize = 0;
    let mut idx_out: usize = 0;
    proof {
        lemma2_to64();
    }
    while idx_out < N
        invariant
            b == buf@,
            b.len() >= 896,
            oh.len() == 512,
            oh == old(h)@,
            idx_out <= 512,
            idx_in <= 896,
            acc_len < 14,
            acc_len == 8 * idx_in - 14 * idx_out,
            (acc as int) % (pow2(acc_len as nat) as int) == bits_val(b, 14 * idx_out, acc_len as nat),
            pk_valid_through(b, idx_out - 1),
            forall|k: int| 0 <= k < idx_out ==> #[trigger] h[k] as int == pk_coeff(b, k),
            forall|k: int| idx_out <= k < 512 ==> #[trigger] h[k] == oh[k],
        decreases 896 - idx_in,
    {
        let ghost pos = 14 * idx_out as int;
        let ghost l0 = acc_len as nat;
        let byte = buf[idx_in];
        proof {
            lemma2_to64();
            lemma_acc_push(acc, acc_len, byte, bits_val(b, pos, acc_len as nat));
            lemma_bits_val_byte(b, idx_in as int);
            lemma_bits_val_split(b, pos, acc_len as nat, 8);
        }
        acc = (acc << 8) | byte as u32;
        idx_in += 1;
        acc_len += 8;
        if acc_len >= 14 {
            acc_len -= 14;
            proof {
                lemma_acc_take(acc, acc_len, 14);
                lemma_bits_val_divmod(b, pos, 14, acc_len as nat);
                assert((1u32 << 14u32) as u32 - 1 == 0x3FFF) by (bit_vector);
                lemma2_to64();
                assert((acc_len + 14) as nat == l0 + 8);
                assert((acc as int) % (pow2(l0 + 8) as int) == bits_val(b, pos, l0) * 256 + byte as int);
                assert(pow2(8) == 256);
                assert(bits_val(b, pos, l0 + 8) == bits_val(b, pos, (14 + acc_len) as nat));
            }
            let w = (acc >> acc_len) & 0x3FFF;
            assert(w as int == pk_coeff(b, idx_out as int));
            if w >= Q {
                proof {
                    assert forall|k: int| 0 <= k < 512 implies #[trigger] h[k] as int == if buf@.len() >= 896
                        && pk_valid_through(buf@, k) {
                        pk_coeff(buf@, k)
                    } else {
                        old(h)[k] as int
                    } by {
                        if k >= idx_out {
                            assert(!pk_valid_through(b, k)) by {
                                assert(pk_coeff(b, idx_out as int) >= 12289);
                            }
                        } else {
                            assert(pk_valid_through(b, k)) by {
                                assert forall|j: int| 0 <= j <= k implies #[trigger] pk_coeff(b, j) < 12289 by {
                                    assert(pk_valid_through(b, idx_out - 1));
                                }
                            }
                        }
                    }
                }
                return false;
            }
            h[idx_out] = w;
            idx_out += 1;
        }
    }
    proof {
        assert(acc_len == 0);
        assert(acc & (((1u32 << 0u32) as u32 - 1) as u32) == 0 && (1u32 << 0u32) == 1) by (bit_vector);
    }
    if (acc & ((1u32 << acc_len) - 1)) != 0 {
        return false;
    }
    true
}

/// Length of the run of zero bits starting at bit `p + k` (counting the `k` zeros
/// already seen) before a one bit, for a coefficient whose low seven bits are `low`.
/// `None` when the stream ends first, or when the magnitude `low + 128·run` would
/// reach 2048.
pub open spec fn unary_run(buf: Seq<u8>, p: int, k: nat, low: nat) -> Option<nat>
    decreases 16 - k,
{
    if p + k >= 8 * buf.len() {
        None
    } else if bit(buf, p + k) == 1 {
        Some(k)
    } else if low + 128 * (k + 1) >= 2048 {
        None
    } else {
        unary_run(buf, p, k + 1, low)
    }
}

/// The compressed coefficient starting at bit `pos`: a sign bit, the low seven bits of
/// the magnitude, then the high part `m >> 7` in unary (zeros closed by a one). Gives
/// the value and the position after it; `None` if it does not fit in the buffer, its
/// magnitude reaches 2048, or it encodes "−0".
pub open spec fn coeff_at(buf: Seq<u8>, pos: int) -> Option<(int, int)> {
    if pos + 8 > 8 * buf.len() {
        None
    } else {
        let sign = bit(buf, pos);
        let low = bits_val(buf, pos + 1, 7);
        match unary_run(buf, pos + 8, 0, low as nat) {
            None => None,
            Some(k) => {
                let m = low + 128 * k;
                if sign == 1 && m == 0 {
                    None
                } else {
                    Some((if sign == 1 { -m } else { m }, pos + 9 + k))
                }
            },
        }
    }
}

/// The first `n` compressed coefficients from bit 0, with the position after them.
pub open spec fn coeffs_from_start(buf: Seq<u8>, n: nat) -> Option<(Seq<int>, int)>
    decreases n,
{
    if n == 0 {
        Some((Seq::empty(), 0))
    } else {
        match coeffs_from_start(buf, (n - 1) as nat) {
            None => None,
            Some((s, p)) => match coeff_at(buf, p) {
                None => None,
                Some((v, p2)) => Some((s.push(v), p2)),
            },
        }
    }
}

/// All bits in `[from, to)` are zero.
pub open spec fn zero_bits(buf: Seq<u8>, from: int, to: int) -> bool {
    forall|p: int| from <= p < to ==> #[trigger] bit(buf, p) == 0
}

/// The compressed signature polynomial: 512 coefficients decoded from the start of the
/// buffer, with every bit after them zero.
pub open spec fn decompress_spec(buf: Seq<u8>) -> Option<Seq<int>> {
    match coeffs_from_start(buf, 512) {
        None => None,
        Some((s, e)) => if zero_bits(buf, e, 8 * (buf.len() as int)) {
            Some(s)
        } else {
            None
        },
    }
}

pub proof fn lemma_coeffs_from_start_none(buf: Seq<u8>, n: nat, m: nat)
    requires
        n <= m,
        coeffs_from_start(buf, n) is None,
    ensures
        coeffs_from_start(buf, m) is None,
    decreases m - n,
{
    if n < m {
        lemma_coeffs_from_start_none(buf, n, (m - 1) as nat);
    }
}

pub proof fn lemma_coeffs_from_start_shape(buf: Seq<u8>, n: nat)
    requires
        coeffs_from_start(buf, n) is Some,
    ensures
        coeffs_from_start(buf, n).unwrap().0.len() == n,
        forall|m: nat| m <= n ==> (#[trigger] coeffs_from_start(buf, m)) is Some
            && coeffs_from_start(buf, m).unwrap().0 == coeffs_from_start(buf, n).unwrap().0.subrange(0, m as int),
        forall|i: int| 0 <= i < n ==> -2047 <= #[trigger] coeffs_from_start(buf, n).unwrap().0[i] <= 2047,
    decreases n,
{
    if n > 0 {
        lemma_coeffs_from_start_shape(buf, (n - 1) as nat);
        let (s, p) = coeffs_from_start(buf, (n - 1) as nat).unwrap();
        let (v, p2) = coeff_at(buf, p).unwrap();
        lemma_coeff_at_range(buf, p);
        assert(coeffs_from_start(buf, n).unwrap().0 == s.push(v));
        assert forall|m: nat| m <= n implies (#[trigger] coeffs_from_start(buf, m)) is Some
            && coeffs_from_start(buf, m).unwrap().0 == coeffs_from_start(buf, n).unwrap().0.subrange(0, m as int) by {
            if m == n {
                assert(s.push(v).subrange(0, n as int) =~= s.push(v));
            } else {
                assert(s.push(v).subrange(0, m as int) =~= s.subrange(0, m as int));
            }
        }
    }
}

/// A decompressed signature has 512 coefficients, each of magnitude at most 2047.
pub proof fn lemma_decompress_len(buf: Seq<u8>)
    requires
        decompress_spec(buf) is Some,
    ensures
        decompress_spec(buf).unwrap().len() == 512,
        forall|i: int| 0 <= i < 512 ==> -2047 <= #[trigger] decompress_spec(buf).unwrap()[i] <= 2047,
{
    lemma_coeffs_from_start_shape(buf, 512);
}

pub proof fn lemma_unary_run_bound(buf: Seq<u8>, p: int, k: nat, low: nat)
    requires
        unary_run(buf, p, k, low) is Some,
    ensures
        low + 128 * unary_run(buf, p, k, low).unwrap() < 2048 || unary_run(buf, p, k, low).unwrap() == k,
        unary_run(buf, p, k, low).unwrap() >= k,
    decreases 16 - k,
{
    if !(p + k >= 8 * buf.len()) && bit(buf, p + k) != 1 && !(low + 128 * (k + 1) >= 2048) {
        lemma_unary_run_bound(buf, p, k + 1, low);
    }
}

pub proof fn lemma_coeff_at_range(buf: Seq<u8>, pos: int)
    requires
        coeff_at(buf, pos) is Some,
    ensures
        -2047 <= coeff_at(buf, pos).unwrap().0 <= 2047,
{
    let low = bits_val(buf, pos + 1, 7);
    lemma_bits_val_bound(buf, pos + 1, 7);
    lemma2_to64();
    lemma_unary_run_bound(buf, pos + 8, 0, low as nat);
}

proof fn lemma_decoded_prefix_fail(b: Seq<u8>, os: Seq<i16>, i: nat, cur: Seq<i16>)
    requires
        i < 512,
        os.len() == 512,
        cur.len() == 512,
        coeffs_from_start(b, i + 1) is None,
        forall|k: int| 0 <= k < i ==> #[trigger] cur[k] as int == decoded_slot(b, os, k),
        forall|k: int| i <= k < 512 ==> #[trigger] cur[k] == os[k],
    ensures
        forall|k: int| 0 <= k < 512 ==> #[trigger] cur[k] as int == decoded_slot(b, os, k),
{
    assert forall|k: int| 0 <= k < 512 implies #[trigger] cur[k] as int == decoded_slot(b, os, k) by {
        if k >= i {
            lemma_coeffs_from_start_none(b, i + 1, (k + 1) as nat);
        }
    }
}

proof fn lemma_decompress_fails_at(b: Seq<u8>, i: nat)
    requires
        i < 512,
        coeffs_from_start(b, i + 1) is None,
    ensures
        decompress_spec(b) is None,
{
    lemma_coeffs_from_start_none(b, i + 1, 512);
}

/// The pending low `l` bits of the accumulator are zero exactly when the stream bits
/// `[e, e + l)` are.
proof fn lemma_mask_zero_iff(acc: u32, l: u32, b: Seq<u8>, e: int)
    requires
        l <= 7,
        (acc as int) % (pow2(l as nat) as int) == bits_val(b, e, l as nat),
    ensures
        (1u32 << l) >= 1,
        (acc & (((1u32 << l) as u32 - 1) as u32) != 0) == !zero_bits(b, e, e + l),
{
    assert((1u32 << l) >= 1) by (bit_vector)
        requires l <= 7;
    crate::bits::lemma_mask_is_mod(acc, l);
    lemma_bits_val_zero(b, e, l as nat);
    if zero_bits(b, e, e + l) {
        assert forall|t: int| 0 <= t < l implies #[trigger] bit(b, e + t) == 0 by {}
    } else {
        let p = choose|p: int| e <= p < e + l && bit(b, p) != 0;
        assert(bit(b, e + (p - e)) != 0);
    }
}

proof fn lemma_decompress_trailing(b: Seq<u8>, e: int, l: int)
    requires
        !zero_bits(b, e, e + l),
        e + l <= 8 * b.len(),
        coeffs_from_start(b, 512) is Some,
        coeffs_from_start(b, 512).unwrap().1 == e,
    ensures
        decompress_spec(b) is None,
{
    let p = choose|p: int| e <= p < e + l && bit(b, p) != 0;
    assert(!zero_bits(b, e, 8 * (b.len() as int)));
}

/// The coefficients decoded from a compressed signature before the first failure: slot
/// `i` holds coefficient `i` when the first `i + 1` coefficients decode.
pub open spec fn decoded_slot(buf: Seq<u8>, old_s2: Seq<i16>, i: int) -> int {
    if coeffs_from_start(buf, (i + 1) as nat) is Some {
        coeffs_from_start(buf, (i + 1) as nat).unwrap().0[i]
    } else {
        old_s2[i] as int
    }
}

/// The header byte of a coefficient: sign bit and low seven bits of the magnitude.
proof fn lemma_header_bits(buf: Seq<u8>, pos: int, hdr: u32)
    requires
        hdr as int == bits_val(buf, pos, 8),
    ensures
        (hdr & 128 != 0) == (bit(buf, pos) == 1),
        (hdr & 127) as int == bits_val(buf, pos + 1, 7),
{
    lemma2_to64();
    lemma_bit_range(buf, pos);
    lemma_bits_val_bound(buf, pos + 1, 7);
    let x = bit(buf, pos) as u32;
    let low = bits_val(buf, pos + 1, 7) as u32;
    assert(hdr == x * 128 + low);
    assert((hdr & 128 != 0) == (x == 1) && hdr & 127 == low) by (bit_vector)
        requires
            hdr == x * 128 + low,
            x <= 1,
            low < 128,
    ;
}

/// Decodes a compressed signature body into `s2`. Succeeds exactly when
/// `decompress_spec(buf)` is defined, and then `s2` holds that polynomial; on failure
/// the coefficients decoded before the failure have been written.
pub fn decompress_signature(buf: &[u8], s2: &mut [i16; N]) -> (ok: bool)
    ensures
        ok == decompress_spec(buf@) is Some,
        ok ==> crate::ntt::sints(final(s2)@) == decompress_spec(buf@).unwrap(),
        ok ==> forall|i: int| 0 <= i < 512 ==> -2047 <= #[trigger] final(s2)[i] <= 2047,
        forall|i: int| 0 <= i < 512 ==> #[trigger] final(s2)[i] as int == decoded_slot(buf@, old(s2)@, i),
{
    let ghost b = buf@;
    let ghost os = s2@;
    let mut acc: u32 = 0;
    let mut acc_len: u32 = 0;
    let mut idx_in: usize = 0;
    let mut i: usize = 0;
    proof {
        lemma2_to64();
    }
    while i < N
        invariant
            b == buf@,
            os == old(s2)@,
            os.len() == 512,
            i <= 512,
            idx_in <= b.len(),
            acc_len <= 7,
            8 * idx_in >= acc_len,
            coeffs_from_start(b, i as nat) is Some,
            coeffs_from_start(b, i as nat).unwrap().1 == 8 * idx_in - acc_len,
            (acc as int) % (pow2(acc_len as nat) as int) == bits_val(b, 8 * idx_in - acc_len, acc_len as nat),
            forall|k: int| 0 <= k < i ==> #[trigger] s2[k] as int == decoded_slot(b, os, k),
            forall|k: int| i <= k < 512 ==> #[trigger] s2[k] == os[k],
        decreases N - i,
    {
        let ghost pos = 8 * idx_in - acc_len;
        proof {
            lemma_coeffs_from_start_shape(b, i as nat);
        }
        if idx_in >= buf.len() {
            proof {
                assert(coeff_at(b, pos) is None);
                assert(coeffs_from_start(b, (i + 1) as nat) is None);
                lemma_decoded_prefix_fail(b, os, i as nat, s2@);
                lemma_decompress_fails_at(b, i as nat);
            }
            return false;
        }
        let byte = buf[idx_in];
        proof {
            lemma2_to64();
            lemma_acc_push(acc, acc_len, byte, bits_val(b, pos, acc_len as nat));
            lemma_bits_val_byte(b, idx_in as int);
            lemma_bits_val_split(b, pos, acc_len as nat, 8);
        }
        acc = (acc << 8) | byte as u32;
        idx_in += 1;
        let hb = acc >> acc_len;
        proof {
            lemma_acc_take(acc, acc_len, 8);
            lemma_bits_val_divmod(b, pos, 8, acc_len as nat);
            assert((1u32 << 8u32) as u32 - 1 == 255) by (bit_vector);
            assert(hb & 128 == (hb & 255) & 128 && hb & 127 == (hb & 255) & 127) by (bit_vector);
            assert((acc_len + 8) as nat == (8 + acc_len) as nat);
            lemma_header_bits(b, pos, hb & 255);
        }
        let sgn = hb & 128;
        let mut m: u32 = hb & 127;
        let ghost low = bits_val(b, pos + 1, 7);
        let ghost mut k: nat = 0;
        proof {
            lemma_bits_val_bound(b, pos + 1, 7);
        }
        loop
            invariant_except_break
                b == buf@,
                idx_in <= b.len(),
                acc_len <= 8,
                8 * idx_in >= acc_len,
                8 * idx_in - acc_len == pos + 8 + k,
                0 <= low < 128,
                low == bits_val(b, pos + 1, 7),
                pos + 8 <= 8 * b.len(),
                coeffs_from_start(b, i as nat) is Some,
                coeffs_from_start(b, i as nat).unwrap().1 == pos,
                i < 512,
                os == old(s2)@,
                os.len() == 512,
                forall|kk: int| 0 <= kk < i ==> #[trigger] s2[kk] as int == decoded_slot(b, os, kk),
                forall|kk: int| i <= kk < 512 ==> #[trigger] s2[kk] == os[kk],
                (sgn != 0) == (bit(b, pos) == 1),
                m == low + 128 * k,
                m < 2048,
                (acc as int) % (pow2(acc_len as nat) as int) == bits_val(b, 8 * idx_in - acc_len, acc_len as nat),
                unary_run(b, pos + 8, 0, low as nat) == unary_run(b, pos + 8, k, low as nat),
            ensures
                b == buf@,
                idx_in <= b.len(),
                acc_len <= 7,
                8 * idx_in >= acc_len,
                m == low + 128 * k,
                m < 2048,
                0 <= low < 128,
                low == bits_val(b, pos + 1, 7),
                pos + 8 <= 8 * b.len(),
                coeffs_from_start(b, i as nat) is Some,
                coeffs_from_start(b, i as nat).unwrap().1 == pos,
                i < 512,
                os == old(s2)@,
                os.len() == 512,
                forall|kk: int| 0 <= kk < i ==> #[trigger] s2[kk] as int == decoded_slot(b, os, kk),
                forall|kk: int| i <= kk < 512 ==> #[trigger] s2[kk] == os[kk],
                (sgn != 0) == (bit(b, pos) == 1),
                unary_run(b, pos + 8, 0, low as nat) == Some(k),
                8 * idx_in - acc_len == pos + 9 + k,
                (acc as int) % (pow2(acc_len as nat) as int) == bits_val(b, 8 * idx_in - acc_len, acc_len as nat),
            decreases 2048 - m,
        {
            let ghost p = pos + 8 + k;
            if acc_len == 0 {
                if idx_in >= buf.len() {
                    proof {
                        assert(unary_run(b, pos + 8, k, low as nat) is None);
                        assert(coeff_at(b, pos) is None);
                        assert(coeffs_from_start(b, (i + 1) as nat) is None);
                        lemma_decoded_prefix_fail(b, os, i as nat, s2@);
                        lemma_decompress_fails_at(b, i as nat);
                    }
                    return false;
                }
                let byte2 = buf[idx_in];
                proof {
                    lemma2_to64();
                    lemma_acc_push(acc, 0, byte2, 0);
                    lemma_bits_val_byte(b, idx_in as int);
                }
                acc = (acc << 8) | byte2 as u32;
                idx_in += 1;
                acc_len = 8;
            }
            acc_len -= 1;
            proof {
                lemma_acc_take(acc, acc_len, 1);
                lemma_bits_val_divmod(b, p, 1, acc_len as nat);
                assert((1u32 << 1u32) as u32 - 1 == 1) by (bit_vector);
                assert((acc_len + 1) as nat == (1 + acc_len) as nat);
                assert(bits_val(b, p, 1) == bit(b, p)) by {
                    lemma2_to64();
                    assert(bits_val(b, p + 1, 0) == 0);
                    assert(bits_val(b, p, 1) == bit(b, p) * pow2(0) + bits_val(b, p + 1, 0));
                }
                lemma_bit_range(b, p);
            }
            if ((acc >> acc_len) & 1) != 0 {
                proof {
                    assert(bit(b, p) == 1);
                    assert(unary_run(b, pos + 8, k, low as nat) == Some(k));
                }
                break;
            }
            proof {
                assert(bit(b, p) == 0);
            }
            m += 128;
            if m >= 2048 {
                proof {
                    assert(unary_run(b, pos + 8, k, low as nat) is None);
                    assert(coeff_at(b, pos) is None);
                    assert(coeffs_from_start(b, (i + 1) as nat) is None);
                    lemma_decoded_prefix_fail(b, os, i as nat, s2@);
                    lemma_decompress_fails_at(b, i as nat);
                }
                return false;
            }
            proof {
                assert(unary_run(b, pos + 8, k, low as nat) == unary_run(b, pos + 8, k + 1, low as nat));
                k = k + 1;
            }
        }
        if sgn != 0 && m == 0 {
            proof {
                assert(coeff_at(b, pos) is None);
                assert(coeffs_from_start(b, (i + 1) as nat) is None);
                lemma_decoded_prefix_fail(b, os, i as nat, s2@);
                lemma_decompress_fails_at(b, i as nat);
            }
            return false;
        }
        let v: i16 = if sgn != 0 { -(m as i32) as i16 } else { m as i16 };
        s2[i] = v;
        proof {
            let (sq, pq) = coeffs_from_start(b, i as nat).unwrap();
            assert(coeff_at(b, pos) == Some((v as int, pos + 9 + k)));
            assert(coeffs_from_start(b, (i + 1) as nat) == Some((sq.push(v as int), pos + 9 + k)));
            assert(decoded_slot(b, os, i as int) == v as int);
        }
        i += 1;
    }
    let ghost e = 8 * idx_in - acc_len;
    proof {
        lemma_coeffs_from_start_shape(b, 512);
        lemma_mask_zero_iff(acc, acc_len, b, e);
    }
    if (acc & ((1u32 << acc_len) - 1)) != 0 {
        proof {
            lemma_decompress_trailing(b, e, acc_len as int);
        }
        return false;
    }
    let mut j = idx_in;
    while j < buf.len()
        invariant
            b == buf@,
            idx_in <= j <= b.len(),
            e <= 8 * idx_in,
            zero_bits(b, e, 8 * j),
            os == old(s2)@,
            forall|k: int| 0 <= k < 512 ==> #[trigger] s2[k] as int == decoded_slot(b, os, k),
            coeffs_from_start(b, 512) is Some,
            coeffs_from_start(b, 512).unwrap().1 == e,
        decreases b.len() - j,
    {
        proof {
            lemma_bits_val_byte(b, j as int);
            lemma_bits_val_zero(b, 8 * j, 8);
        }
        if buf[j] != 0 {
            proof {
                assert(!zero_bits(b, e, 8 * (b.len() as int))) by {
                    assert(!(forall|t: int| 0 <= t < 8 ==> #[trigger] bit(b, 8 * j + t) == 0));
                    let t = choose|t: int| 0 <= t < 8 && #[trigger] bit(b, 8 * j + t) != 0;
                    assert(bit(b, 8 * j + t) != 0);
                }
            }
            return false;
        }
        proof {
            assert forall|p: int| e <= p < 8 * (j + 1) implies #[trigger] bit(b, p) == 0 by {
                if p >= 8 * j {
                    assert(bit(b, 8 * j + (p - 8 * j)) == 0);
                }
            }
        }
        j += 1;
    }
    proof {
        assert(decompress_spec(b) == Some(coeffs_from_start(b, 512).unwrap().0));
        let sq = coeffs_from_start(b, 512).unwrap().0;
        assert(crate::ntt::sints(s2@) =~= sq) by {
            assert forall|k: int| 0 <= k < 512 implies crate::ntt::sints(s2@)[k] == sq[k] by {
                assert(coeffs_from_start(b, (k + 1) as nat).unwrap().0 == sq.subrange(0, k + 1));
            }
        }
    }
    true
}


/// The state from which `hash_to_point` reads: SHAKE256 over `nonce ‖ message`,
/// padded and permuted.
pub open spec fn hash_state(nonce: Seq<u8>, message: Seq<u8>) -> Seq<u64> {
    finalize_spec(absorb_spec(sponge_init(), nonce + message)).0
}

/// Candidate `g`: output bytes `2g` and `2g + 1`, read as a big-endian 16-bit value.
pub open spec fn candidate(st: Seq<u64>, g: nat) -> int {
    stream_byte(st, 2 * g) as int * 256 + stream_byte(st, 2 * g + 1) as int
}

/// Rejection sampling over the first `g` candidates: a candidate below `5q` is kept
/// (reduced mod q) while fewer than 512 have been kept.
pub open spec fn sampled(st: Seq<u64>, g: nat) -> Seq<u16>
    decreases g,
{
    if g == 0 {
        Seq::empty()
    } else {
        let prev = sampled(st, (g - 1) as nat);
        let w = candidate(st, (g - 1) as nat);
        if prev.len() < 512 && w < 5 * 12289 {
            prev.push((w % 12289) as u16)
        } else {
            prev
        }
    }
}

/// `a` written over the front of `b`.
pub open spec fn overlay(a: Seq<u16>, b: Seq<u16>) -> Seq<u16> {
    Seq::new(b.len(), |k: int| if k < a.len() { a[k] } else { b[k] })
}

/// How many candidates `hash_to_point` examines at most: four per lane, seventeen
/// lanes per block, one block per permutation counted in a `u64`.
pub open spec fn candidate_limit() -> nat {
    68 * (u64::MAX as nat)
}

/// The point `hash_to_point` computes for a nonce and a message, written over `c`.
pub open spec fn hash_to_point_spec(nonce: Seq<u8>, message: Seq<u8>, c: Seq<u16>) -> Seq<u16> {
    overlay(sampled(hash_state(nonce, message), candidate_limit()), c)
}

proof fn lemma_sampled_len(st: Seq<u64>, g: nat)
    ensures
        sampled(st, g).len() <= 512,
        forall|k: int| 0 <= k < sampled(st, g).len() ==> #[trigger] sampled(st, g)[k] < 12289,
    decreases g,
{
    if g > 0 {
        lemma_sampled_len(st, (g - 1) as nat);
    }
}

/// One more candidate: it is kept exactly when it is below `5q` and fewer than 512
/// values are kept.
proof fn lemma_sampled_step(st: Seq<u64>, g: nat, w: int)
    requires
        w == candidate(st, g),
    ensures
        sampled(st, g).len() <= 512,
        sampled(st, g + 1) == if sampled(st, g).len() < 512 && w < 5 * 12289 {
            sampled(st, g).push((w % 12289) as u16)
        } else {
            sampled(st, g)
        },
{
    lemma_sampled_len(st, g);
}

proof fn lemma_overlay_push(a: Seq<u16>, b: Seq<u16>, x: u16)
    requires
        a.len() < b.len(),
    ensures
        overlay(a.push(x), b) == overlay(a, b).update(a.len() as int, x),
{
    assert(overlay(a.push(x), b) =~= overlay(a, b).update(a.len() as int, x));
}

/// Once 512 values are kept, later candidates change nothing.
proof fn lemma_sampled_full(st: Seq<u64>, g: nat, h: nat)
    requires
        g <= h,
        sampled(st, g).len() == 512,
    ensures
        sampled(st, h) == sampled(st, g),
    decreases h - g,
{
    if h > g {
        lemma_sampled_full(st, g, (h - 1) as nat);
    }
}

/// The four big-endian byte pairs of a lane.
proof fn lemma_lane_pairs(lane: u64)
    by (bit_vector)
    ensures
        (((lane & 0xff) << 8) | ((lane >> 8) & 0xff)) == (((lane >> 0u64) as u8) as u64) * 256 + (((
        lane >> 8u64) as u8) as u64),
        ((((lane >> 16) & 0xff) << 8) | ((lane >> 24) & 0xff)) == (((lane >> 16u64) as u8) as u64)
            * 256 + (((lane >> 24u64) as u8) as u64),
        ((((lane >> 32) & 0xff) << 8) | ((lane >> 40) & 0xff)) == (((lane >> 32u64) as u8) as u64)
            * 256 + (((lane >> 40u64) as u8) as u64),
        ((((lane >> 48) & 0xff) << 8) | ((lane >> 56) & 0xff)) == (((lane >> 48u64) as u8) as u64)
            * 256 + (((lane >> 56u64) as u8) as u64),
        (((lane & 0xff) << 8) | ((lane >> 8) & 0xff)) < 65536,
        ((((lane >> 16) & 0xff) << 8) | ((lane >> 24) & 0xff)) < 65536,
        ((((lane >> 32) & 0xff) << 8) | ((lane >> 40) & 0xff)) < 65536,
        ((((lane >> 48) & 0xff) << 8) | ((lane >> 56) & 0xff)) < 65536,
{
}

/// Candidate `4 l + j` of block `b` is the byte pair at `16 j` in lane `l` of that block.
proof fn lemma_candidate_in_lane(st0: Seq<u64>, b: nat, l: int, j: int)
    requires
        st0.len() == 25,
        0 <= l < 17,
        0 <= j < 4,
    ensures
        candidate(st0, (68 * b + 4 * l + j) as nat) == ((permute_n(st0, b)[l] >> ((16 * j) as u64)) as u8) as int * 256
            + ((permute_n(st0, b)[l] >> ((16 * j + 8) as u64)) as u8) as int,
{
    let g = (68 * b + 4 * l + j) as nat;
    let m0 = 2 * g;
    let m1 = 2 * g + 1;
    assert(m0 == 136 * b + (8 * l + 2 * j));
    assert(m1 == 136 * b + (8 * l + 2 * j + 1));
    vstd::arithmetic::div_mod::lemma_fundamental_div_mod_converse(m0 as int, 136, b as int, 8 * l + 2 * j);
    vstd::arithmetic::div_mod::lemma_fundamental_div_mod_converse(m1 as int, 136, b as int, 8 * l + 2 * j + 1);
    assert(block_of(m0) == b && offset_of(m0) == 8 * l + 2 * j);
    assert(block_of(m1) == b && offset_of(m1) == 8 * l + 2 * j + 1);
    assert((8 * l + 2 * j) / 8 == l && (8 * l + 2 * j) % 8 == 2 * j);
    assert((8 * l + 2 * j + 1) / 8 == l && (8 * l + 2 * j + 1) % 8 == 2 * j + 1);
}

/// The four candidates of lane `l` of block `b`, as `hash_to_point` extracts them.
proof fn lemma_lane_candidates(st0: Seq<u64>, b: nat, l: int, lane: u64)
    requires
        st0.len() == 25,
        0 <= l < 17,
        lane == permute_n(st0, b)[l],
    ensures
        ((((lane & 0xff) << 8) | ((lane >> 8) & 0xff)) as u32) as int == candidate(st0, (68 * b + 4 * l) as nat),
        (((((lane >> 16) & 0xff) << 8) | ((lane >> 24) & 0xff)) as u32) as int == candidate(st0, (68 * b + 4 * l + 1) as nat),
        (((((lane >> 32) & 0xff) << 8) | ((lane >> 40) & 0xff)) as u32) as int == candidate(st0, (68 * b + 4 * l + 2) as nat),
        (((((lane >> 48) & 0xff) << 8) | ((lane >> 56) & 0xff)) as u32) as int == candidate(st0, (68 * b + 4 * l + 3) as nat),
{
    lemma_lane_pairs(lane);
    lemma_candidate_in_lane(st0, b, l, 0);
    lemma_candidate_in_lane(st0, b, l, 1);
    lemma_candidate_in_lane(st0, b, l, 2);
    lemma_candidate_in_lane(st0, b, l, 3);
    assert((68 * b + 4 * l + 0) as nat == (68 * b + 4 * l) as nat);
}

/// Hashes `nonce ‖ message` to a polynomial with coefficients below q: SHAKE256 output
/// is read as big-endian 16-bit candidates, and those below `5q` are kept mod q until
/// 512 are kept.
#[verifier::spinoff_prover]
pub fn hash_to_point(nonce: &[u8], message: &[u8], c: &mut [u16; N])
    ensures
        final(c)@ == hash_to_point_spec(nonce@, message@, old(c)@),
{
    let mut s = Shake256::new();
    s.absorb(nonce);
    s.absorb(message);
    s.finalize();
    let ghost st0 = s@.0;
    proof {
        lemma_absorb_split(sponge_init(), nonce@, message@);
        assert(st0 == hash_state(nonce@, message@));
        assert(c@ =~= overlay(sampled(st0, 0), old(c)@));
    }
    let ghost mut g: nat = 0;
    let mut i: usize = 0;
    let mut blocks: u64 = 0;
    while i < N && blocks < u64::MAX
        invariant
            s.wf(),
            st0.len() == 25,
            s@ == (permute_n(st0, blocks as nat), 0nat),
            i == sampled(st0, g).len(),
            i <= N,
            i < N ==> g == 68 * blocks as nat,
            g <= 68 * blocks as nat + 68,
            i == N ==> blocks < u64::MAX,
            c@ == overlay(sampled(st0, g), old(c)@),
        decreases u64::MAX - blocks, N - i,
    {
        let mut lane_idx: usize = 0;
        while lane_idx < 17 && i < N
            invariant
                s.wf(),
                st0.len() == 25,
                s@ == (permute_n(st0, blocks as nat), 0nat),
                blocks < u64::MAX,
                lane_idx <= 17,
                i == sampled(st0, g).len(),
                i <= N,
                i < N ==> g == 68 * blocks as nat + 4 * lane_idx,
                g <= 68 * blocks as nat + 4 * lane_idx,
                c@ == overlay(sampled(st0, g), old(c)@),
            decreases 17 - lane_idx,
        {
            let lane = s.rate_lanes()[lane_idx];
            proof {
                lemma_permute_n_len(st0, blocks as nat);
                lemma_lane_candidates(st0, blocks as nat, lane_idx as int, lane);
            }
            let pairs: [u32; 4] = [
                (((lane & 0xff) << 8) | ((lane >> 8) & 0xff)) as u32,
                ((((lane >> 16) & 0xff) << 8) | ((lane >> 24) & 0xff)) as u32,
                ((((lane >> 32) & 0xff) << 8) | ((lane >> 40) & 0xff)) as u32,
                ((((lane >> 48) & 0xff) << 8) | ((lane >> 56) & 0xff)) as u32,
            ];
            assert(forall|j: int| 0 <= j < 4 ==> pairs@[j] as int == #[trigger] candidate(st0, (68 * blocks as nat + 4 * lane_idx + j) as nat)) by {
                assert((68 * blocks as nat + 4 * lane_idx + 0) as nat == (68 * blocks as nat + 4 * lane_idx) as nat);
            }
            let ghost g0 = g;
            let mut k: usize = 0;
            while k < 4 && i < N
                invariant
                    lane_idx < 17,
                    k <= 4,
                    i == sampled(st0, g).len(),
                    i <= N,
                    i < N ==> g == g0 + k,
                    g <= g0 + k,
                    c@ == overlay(sampled(st0, g), old(c)@),
                    i < N ==> g0 == 68 * blocks as nat + 4 * lane_idx,
                    forall|j: int| 0 <= j < 4 ==> pairs@[j] as int == #[trigger] candidate(st0, (68 * blocks as nat + 4 * lane_idx + j) as nat),
                decreases 4 - k,
            {
                let w = pairs[k];
                proof {
                    assert(pairs@[k as int] as int == candidate(st0, (68 * blocks as nat + 4 * lane_idx + k) as nat));
                    lemma_sampled_step(st0, g, w as int);
                }
                if w < 5 * Q {
                    proof {
                        lemma_overlay_push(sampled(st0, g), old(c)@, (w % Q) as u16);
                    }
                    c[i] = (w % Q) as u16;
                    i += 1;
                }
                proof {
                    g = g + 1;
                }
                k += 1;
            }
            lane_idx += 1;
        }
        if i < N {
            s.permute();
            blocks += 1;
        }
    }
    proof {
        if i == N {
            lemma_sampled_full(st0, g, candidate_limit());
        }
    }
}


/// Bit `j` of the compressed encoding of one coefficient with sign `sign` and
/// magnitude `mag`: the sign, the seven low bits of `mag` from the most significant,
/// `mag / 128` zeros, and a closing one.
pub open spec fn enc_bit(sign: bool, mag: int, j: int) -> int {
    if j == 0 {
        if sign {
            1
        } else {
            0
        }
    } else if j < 8 {
        ((mag % 128) / (pow2((7 - j) as nat) as int)) % 2
    } else if j < 8 + mag / 128 {
        0
    } else {
        1
    }
}

/// Number of bits in the compressed encoding of a coefficient of magnitude `mag`.
pub open spec fn enc_len(mag: int) -> int {
    9 + mag / 128
}

proof fn lemma_or_bit(b: u8, k: u8, j: u8)
    by (bit_vector)
    requires
        k < 8,
        j < 8,
    ensures
        ((b | (1u8 << ((7 - k) as u8))) >> ((7 - j) as u8)) & 1u8 == if j == k {
            1u8
        } else {
            (b >> ((7 - j) as u8)) & 1u8
        },
{
}

/// Sets bit `p` (most significant first) of `bytes`.
fn set_bit(bytes: &mut [u8], p: usize)
    requires
        p < 8 * old(bytes)@.len(),
    ensures
        final(bytes)@.len() == old(bytes)@.len(),
        forall|r: int| 0 <= r < 8 * old(bytes)@.len() ==> #[trigger] bit(final(bytes)@, r) == if r == p {
            1
        } else {
            bit(old(bytes)@, r)
        },
{
    let ghost b0 = bytes@;
    let i = p / 8;
    let sh = (7 - p % 8) as u8;
    bytes[i] = bytes[i] | (1u8 << sh);
    proof {
        assert forall|r: int| 0 <= r < 8 * b0.len() implies #[trigger] bit(bytes@, r) == if r == p {
            1
        } else {
            bit(b0, r)
        } by {
            if r / 8 == i {
                lemma_or_bit(b0[i as int], (p % 8) as u8, (r % 8) as u8);
            }
        }
    }
}

/// Appends the compressed encoding of one coefficient at bit `*bit_idx` of `bytes`,
/// setting its one bits (the zero bits are left as they are) and advancing `*bit_idx`
/// past it.
pub fn encode_coeff_into_bytes(sign: bool, mag: u16, bytes: &mut [u8], bit_idx: &mut usize)
    requires
        *old(bit_idx) + enc_len(mag as int) <= 8 * old(bytes)@.len(),
        *old(bit_idx) + enc_len(mag as int) <= usize::MAX,
    ensures
        *final(bit_idx) == *old(bit_idx) + enc_len(mag as int),
        final(bytes)@.len() == old(bytes)@.len(),
        forall|r: int|
            0 <= r < 8 * old(bytes)@.len() ==> #[trigger] bit(final(bytes)@, r) == if *old(bit_idx) <= r
                < *final(bit_idx) && enc_bit(sign, mag as int, r - *old(bit_idx)) == 1 {
                1
            } else {
                bit(old(bytes)@, r)
            },
{
    let ghost b0 = bytes@;
    let ghost start = *bit_idx as int;
    let ghost m = mag as int;
    assert(m / 128 >= 0);
    if sign {
        set_bit(bytes, *bit_idx);
    }
    *bit_idx += 1;
    let lo = (mag % 128) as u32;
    let mut k: usize = 0;
    while k < 7
        invariant
            k <= 7,
            *bit_idx == start + 1 + k,
            start + enc_len(m) <= 8 * b0.len(),
            start + enc_len(m) <= usize::MAX,
            0 <= m < 65536,
            lo as int == m % 128,
            bytes@.len() == b0.len(),
            forall|r: int|
                0 <= r < 8 * b0.len() ==> #[trigger] bit(bytes@, r) == if start <= r < *bit_idx
                    && enc_bit(sign, m, r - start) == 1 {
                    1
                } else {
                    bit(b0, r)
                },
        decreases 7 - k,
    {
        let sh = (6 - k) as u32;
        proof {
            vstd::bits::lemma_u32_shr_is_div(lo, sh);
            let y = lo >> sh;
            assert((y & 1u32) == y % 2) by (bit_vector);
            assert((*bit_idx - start) as int == k + 1);
            assert((7 - (k + 1)) as nat == sh as nat);
        }
        if (lo >> sh) & 1 == 1 {
            set_bit(bytes, *bit_idx);
        }
        *bit_idx += 1;
        k += 1;
    }
    *bit_idx += (mag / 128) as usize;
    set_bit(bytes, *bit_idx);
    *bit_idx += 1;
}

/// Reading a coefficient back: where the bits at `pos` are the compressed encoding of
/// `(sign, mag)` for `mag < 2048` and not "−0", the decoder yields the signed value and
/// the position after the encoding.
pub proof fn lemma_coeff_at_encoded(buf: Seq<u8>, pos: int, sign: bool, mag: int)
    requires
        0 <= mag < 2048,
        !(sign && mag == 0),
        0 <= pos,
        pos + enc_len(mag) <= 8 * buf.len(),
        forall|j: int| 0 <= j < enc_len(mag) ==> #[trigger] bit(buf, pos + j) == enc_bit(sign, mag, j),
    ensures
        coeff_at(buf, pos) == Some((if sign { -mag } else { mag }, pos + enc_len(mag))),
{
    let low = mag % 128;
    let kk = mag / 128;
    assert(bit(buf, pos + 0) == enc_bit(sign, mag, 0));
    assert(pos + 0 == pos);
    lemma_low_bits_read(buf, pos, sign, mag, 7);
    lemma2_to64();
    assert(low / 1 == low);
    lemma_unary_run_encoded(buf, pos, sign, mag, 0);
    assert(low + 128 * kk == mag);
}

/// The first `n` of the seven low bits read back as `low / 2^(7 − n)`.
proof fn lemma_low_bits_read(buf: Seq<u8>, pos: int, sign: bool, mag: int, n: nat)
    requires
        0 <= mag < 2048,
        n <= 7,
        forall|j: int| 0 <= j < enc_len(mag) ==> #[trigger] bit(buf, pos + j) == enc_bit(sign, mag, j),
    ensures
        bits_val(buf, pos + 1, n) == (mag % 128) / (pow2((7 - n) as nat) as int),
    decreases n,
{
    let low = mag % 128;
    lemma2_to64();
    if n == 0 {
        assert(low / 128 == 0);
    } else {
        let n1 = (n - 1) as nat;
        lemma_low_bits_read(buf, pos, sign, mag, n1);
        lemma_bits_val_split(buf, pos + 1, n1, 1);
        assert(bits_val(buf, pos + 1 + n1, 1) == bit(buf, pos + 1 + n1)) by {
            let p = pos + 1 + n1;
            assert(bits_val(buf, p, 1) == bit(buf, p) * pow2(0) + bits_val(buf, p + 1, 0));
            assert(bits_val(buf, p + 1, 0) == 0);
            assert(pow2(0) == 1) by {
                lemma2_to64();
            }
            assert(bit(buf, p) * pow2(0) == bit(buf, p)) by {
                lemma_mul_basics(bit(buf, p));
            }
        }
        assert(bit(buf, pos + n) == enc_bit(sign, mag, n as int));
        assert(pos + 1 + n1 == pos + n);
        let d = pow2((7 - n) as nat) as int;
        assert(pow2((7 - n1) as nat) as int == 2 * d) by {
            vstd::arithmetic::power2::lemma_pow2_unfold((7 - n1) as nat);
        }
        assert(d > 0) by {
            vstd::arithmetic::power2::lemma_pow2_pos((7 - n) as nat);
        }
        lemma_div_denominator(low, d, 2);
        lemma_fundamental_div_mod(low / d, 2);
        assert(bits_val(buf, pos + 1, n) == (low / (2 * d)) * 2 + (low / d) % 2);
        assert(d * 2 == 2 * d);
    }
}

/// The unary part: from zero `k` on, the run closes at `mag / 128`.
proof fn lemma_unary_run_encoded(buf: Seq<u8>, pos: int, sign: bool, mag: int, k: nat)
    requires
        0 <= mag < 2048,
        0 <= pos,
        k <= mag / 128,
        pos + enc_len(mag) <= 8 * buf.len(),
        forall|j: int| 0 <= j < enc_len(mag) ==> #[trigger] bit(buf, pos + j) == enc_bit(sign, mag, j),
    ensures
        unary_run(buf, pos + 8, k, (mag % 128) as nat) == Some((mag / 128) as nat),
    decreases mag / 128 - k,
{
    assert(bit(buf, pos + (8 + k)) == enc_bit(sign, mag, (8 + k) as int));
    assert(pos + (8 + k) == pos + 8 + k);
    if k < mag / 128 {
        assert((mag % 128) + 128 * (k + 1) <= mag);
        lemma_unary_run_encoded(buf, pos, sign, mag, k + 1);
    }
}


/// Every coefficient that hashing writes is below q; a slot it does not reach keeps
/// its value (and once 512 candidates are kept, every slot is written).
pub proof fn lemma_hash_to_point_reduced(nonce: Seq<u8>, message: Seq<u8>, c: Seq<u16>)
    requires
        c.len() == 512,
    ensures
        forall|i: int| 0 <= i < c.len() ==> (#[trigger] hash_to_point_spec(nonce, message, c)[i] < 12289
            || hash_to_point_spec(nonce, message, c)[i] == c[i]),
        sampled(hash_state(nonce, message), candidate_limit()).len() == 512 ==> forall|i: int|
            0 <= i < 512 ==> #[trigger] hash_to_point_spec(nonce, message, c)[i] == sampled(
                hash_state(nonce, message),
                candidate_limit(),
            )[i],
{
    lemma_sampled_len(hash_state(nonce, message), candidate_limit());
}


/// Candidate `g` is read from bytes `2g` and `2g + 1` of SHAKE256(nonce ‖ message).
pub proof fn lemma_candidate_is_shake256(nonce: Seq<u8>, message: Seq<u8>, g: nat)
    ensures
        candidate(hash_state(nonce, message), g) == shake256_spec(nonce + message, 2 * g + 2)[2 * g as int] as int
            * 256 + shake256_spec(nonce + message, 2 * g + 2)[2 * g + 1int] as int,
{
}


/// Magnitude of a coefficient.
pub open spec fn mag_of(x: int) -> int {
    if x < 0 {
        -x
    } else {
        x
    }
}

/// Bit position after the encodings of the first `n` coefficients of `s`.
pub open spec fn enc_pos(s: Seq<int>, n: nat) -> int
    decreases n,
{
    if n == 0 {
        0
    } else {
        enc_pos(s, (n - 1) as nat) + enc_len(mag_of(s[n - 1]))
    }
}

/// From bit 0, `buf` holds the encodings of the coefficients of `s`, one after the
/// other.
pub open spec fn holds_encoding(buf: Seq<u8>, s: Seq<int>) -> bool {
    forall|n: int, j: int|
        0 <= n < s.len() && 0 <= j < enc_len(mag_of(s[n])) ==> #[trigger] bit(buf, enc_pos(s, n as nat) + j)
            == enc_bit(s[n] < 0, mag_of(s[n]), j)
}

proof fn lemma_enc_pos_mono(s: Seq<int>, n: nat, m: nat)
    requires
        n <= m,
    ensures
        0 <= enc_pos(s, n) <= enc_pos(s, m),
    decreases m,
{
    if m > n {
        lemma_enc_pos_mono(s, n, (m - 1) as nat);
        assert(mag_of(s[m - 1]) / 128 >= 0);
    } else if n > 0 {
        lemma_enc_pos_mono(s, 0, (n - 1) as nat);
        assert(mag_of(s[n - 1]) / 128 >= 0);
    }
}

proof fn lemma_coeffs_encoded(buf: Seq<u8>, s: Seq<int>, n: nat)
    requires
        n <= s.len(),
        forall|i: int| 0 <= i < s.len() ==> -2047 <= #[trigger] s[i] <= 2047,
        enc_pos(s, s.len()) <= 8 * buf.len(),
        holds_encoding(buf, s),
    ensures
        coeffs_from_start(buf, n) == Some((s.take(n as int), enc_pos(s, n))),
    decreases n,
{
    if n == 0 {
        assert(s.take(0) =~= Seq::<int>::empty());
    } else {
        let i = n - 1;
        lemma_coeffs_encoded(buf, s, i as nat);
        let p = enc_pos(s, i as nat);
        lemma_enc_pos_mono(s, i as nat, s.len());
        lemma_enc_pos_mono(s, n, s.len());
        lemma_enc_pos_mono(s, i as nat, n);
        let v = s[i];
        assert forall|j: int| 0 <= j < enc_len(mag_of(v)) implies #[trigger] bit(buf, p + j) == enc_bit(v < 0, mag_of(v), j) by {
            assert(bit(buf, enc_pos(s, i as nat) + j) == enc_bit(s[i] < 0, mag_of(s[i]), j));
        }
        lemma_coeff_at_encoded(buf, p, v < 0, mag_of(v));
        assert(s.take(i).push(v) =~= s.take(n as int));
    }
}

/// Decompressing the encodings of 512 coefficients of magnitude below 2048, followed
/// by zero bits to the end of the buffer, gives those coefficients back.
pub proof fn lemma_decompress_encoded(buf: Seq<u8>, s: Seq<int>)
    requires
        s.len() == 512,
        forall|i: int| 0 <= i < 512 ==> -2047 <= #[trigger] s[i] <= 2047,
        enc_pos(s, 512) <= 8 * buf.len(),
        holds_encoding(buf, s),
        zero_bits(buf, enc_pos(s, 512), 8 * (buf.len() as int)),
    ensures
        decompress_spec(buf) == Some(s),
{
    lemma_coeffs_encoded(buf, s, 512);
    assert(s.take(512) =~= s);
}


/// The pubkey packing is one-to-one: two 896-byte bodies that decode to the same
/// polynomial are the same bytes (so changing any bit of a valid body either makes it
/// fail to decode or changes the polynomial).
pub proof fn lemma_pk_encoding_injective(a: Seq<u8>, b: Seq<u8>)
    requires
        a.len() == 896,
        b.len() == 896,
        pk_decodes(a),
        pk_decodes(b),
        pk_poly(a) == pk_poly(b),
    ensures
        a == b,
{
    assert forall|p: int| 0 <= p < 7168 implies #[trigger] bit(a, p) == bit(b, p) by {
        let k = p / 14;
        let t = p % 14;
        assert(0 <= k < 512 && 0 <= t < 14 && p == 14 * k + t);
        assert(pk_poly(a)[k] == pk_coeff(a, k));
        assert(pk_poly(b)[k] == pk_coeff(b, k));
        assert(pk_poly(a)[k] == pk_poly(b)[k]);
        lemma_bits_val_eq_bits(a, b, 14 * k, 14);
        assert(bit(a, 14 * k + t) == bit(b, 14 * k + t));
    }
    assert forall|i: int| 0 <= i < 896 implies #[trigger] a[i] == b[i] by {
        assert forall|t: int| 0 <= t < 8 implies #[trigger] bit(a, 8 * i + t) == bit(b, 8 * i + t) by {
            assert(bit(a, 8 * i + t) == bit(b, 8 * i + t));
        }
        lemma_bits_eq_bits_val(a, b, 8 * i, 8);
        lemma_bits_val_byte(a, i);
        lemma_bits_val_byte(b, i);
    }
    assert(a =~= b);
}


/// The point depends on the nonce and the message only through their concatenation:
/// there is no separator between them.
pub proof fn lemma_hash_to_point_concat(n1: Seq<u8>, m1: Seq<u8>, n2: Seq<u8>, m2: Seq<u8>, c: Seq<u16>)
    requires
        n1 + m1 == n2 + m2,
    ensures
        hash_to_point_spec(n1, m1, c) == hash_to_point_spec(n2, m2, c),
{
}

} // verus!
