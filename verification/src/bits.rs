//! Bit strings packed most-significant-bit first into bytes, as used by the Falcon
//! wire formats.
use vstd::prelude::*;
use vstd::arithmetic::power2::*;
use vstd::arithmetic::div_mod::*;
use vstd::arithmetic::mul::*;
use vstd::bits::*;

verus! {

/// Bit `p` of the stream, counting from the most significant bit of `buf[0]`.
pub open spec fn bit(buf: Seq<u8>, p: int) -> int {
    ((buf[p / 8] >> ((7 - p % 8) as u8)) & 1u8) as int
}

/// The `len` bits starting at bit `pos`, read as a big-endian unsigned integer.
pub open spec fn bits_val(buf: Seq<u8>, pos: int, len: nat) -> int
    decreases len,
{
    if len == 0 {
        0
    } else {
        bit(buf, pos) * pow2((len - 1) as nat) + bits_val(buf, pos + 1, (len - 1) as nat)
    }
}

pub proof fn lemma_bit_range(buf: Seq<u8>, p: int)
    ensures
        0 <= bit(buf, p) <= 1,
{
    let b = buf[p / 8];
    let k = (7 - p % 8) as u8;
    assert((b >> k) & 1u8 <= 1u8) by (bit_vector);
}

pub proof fn lemma_bits_val_bound(buf: Seq<u8>, pos: int, len: nat)
    ensures
        0 <= bits_val(buf, pos, len) < pow2(len),
    decreases len,
{
    if len == 0 {
        lemma2_to64();
    } else {
        lemma_bits_val_bound(buf, pos + 1, (len - 1) as nat);
        lemma_bit_range(buf, pos);
        lemma_pow2_unfold(len);
        lemma_pow2_pos((len - 1) as nat);
        if bit(buf, pos) == 0 {
            assert(bit(buf, pos) * pow2((len - 1) as nat) == 0);
        } else {
            assert(bit(buf, pos) == 1);
            assert(1 * pow2((len - 1) as nat) == pow2((len - 1) as nat));
        }
    }
}

/// Splitting a field into its first `a` and its next `b` bits.
pub proof fn lemma_bits_val_split(buf: Seq<u8>, pos: int, a: nat, b: nat)
    ensures
        bits_val(buf, pos, a + b) == bits_val(buf, pos, a) * pow2(b) + bits_val(buf, pos + a, b),
    decreases a,
{
    if a > 0 {
        lemma_bits_val_split(buf, pos + 1, (a - 1) as nat, b);
        lemma_pow2_adds((a - 1) as nat, b);
        let x = bit(buf, pos);
        let r = bits_val(buf, pos + 1, (a - 1) as nat);
        assert(x * (pow2((a - 1) as nat) * pow2(b)) + (r * pow2(b)) == (x * pow2((a - 1) as nat) + r)
            * pow2(b)) by (nonlinear_arith);
        assert((a + b - 1) as nat == (a - 1 + b) as nat);
    }
}

/// The eight bits of byte `i` are the byte itself.
pub proof fn lemma_bits_val_byte(buf: Seq<u8>, i: int)
    requires
        0 <= i < buf.len(),
    ensures
        bits_val(buf, 8 * i, 8) == buf[i] as int,
{
    let b = buf[i];
    lemma2_to64();
    reveal_with_fuel(bits_val, 9);
    lemma_fundamental_div_mod_converse(8 * i, 8, i, 0);
    lemma_fundamental_div_mod_converse(8 * i + 1, 8, i, 1);
    lemma_fundamental_div_mod_converse(8 * i + 2, 8, i, 2);
    lemma_fundamental_div_mod_converse(8 * i + 3, 8, i, 3);
    lemma_fundamental_div_mod_converse(8 * i + 4, 8, i, 4);
    lemma_fundamental_div_mod_converse(8 * i + 5, 8, i, 5);
    lemma_fundamental_div_mod_converse(8 * i + 6, 8, i, 6);
    lemma_fundamental_div_mod_converse(8 * i + 7, 8, i, 7);
    assert(bits_val(buf, 8 * i + 0, 8) == bit(buf, 8 * i + 0) * 128 + bits_val(buf, 8 * i + 1, 7));
    assert(bits_val(buf, 8 * i + 1, 7) == bit(buf, 8 * i + 1) * 64 + bits_val(buf, 8 * i + 2, 6));
    assert(bits_val(buf, 8 * i + 2, 6) == bit(buf, 8 * i + 2) * 32 + bits_val(buf, 8 * i + 3, 5));
    assert(bits_val(buf, 8 * i + 3, 5) == bit(buf, 8 * i + 3) * 16 + bits_val(buf, 8 * i + 4, 4));
    assert(bits_val(buf, 8 * i + 4, 4) == bit(buf, 8 * i + 4) * 8 + bits_val(buf, 8 * i + 5, 3));
    assert(bits_val(buf, 8 * i + 5, 3) == bit(buf, 8 * i + 5) * 4 + bits_val(buf, 8 * i + 6, 2));
    assert(bits_val(buf, 8 * i + 6, 2) == bit(buf, 8 * i + 6) * 2 + bits_val(buf, 8 * i + 7, 1));
    assert(bits_val(buf, 8 * i + 7, 1) == bit(buf, 8 * i + 7) * 1 + bits_val(buf, 8 * i + 8, 0));
    assert(bits_val(buf, 8 * i + 8, 0) == 0);
    assert(bit(buf, 8 * i + 0) == ((b >> 7u8) & 1u8) as int);
    assert(bit(buf, 8 * i + 1) == ((b >> 6u8) & 1u8) as int);
    assert(bit(buf, 8 * i + 2) == ((b >> 5u8) & 1u8) as int);
    assert(bit(buf, 8 * i + 3) == ((b >> 4u8) & 1u8) as int);
    assert(bit(buf, 8 * i + 4) == ((b >> 3u8) & 1u8) as int);
    assert(bit(buf, 8 * i + 5) == ((b >> 2u8) & 1u8) as int);
    assert(bit(buf, 8 * i + 6) == ((b >> 1u8) & 1u8) as int);
    assert(bit(buf, 8 * i + 7) == ((b >> 0u8) & 1u8) as int);
    assert(b as int == ((b >> 7u8) & 1u8) as int * 128 + ((b >> 6u8) & 1u8) as int * 64 + ((b >> 5u8)
        & 1u8) as int * 32 + ((b >> 4u8) & 1u8) as int * 16 + ((b >> 3u8) & 1u8) as int * 8 + ((b
        >> 2u8) & 1u8) as int * 4 + ((b >> 1u8) & 1u8) as int * 2 + ((b >> 0u8) & 1u8) as int) by (bit_vector);
}

/// `x & (2^k − 1) == x mod 2^k`.
pub proof fn lemma_mask_is_mod(x: u32, k: u32)
    requires
        k < 32,
    ensures
        x & (((1u32 << k) as u32 - 1) as u32) == (x as int) % (pow2(k as nat) as int),
        (1u32 << k) as int == pow2(k as nat),
{
    lemma_u32_pow2_no_overflow(k as nat);
    lemma_u32_shl_is_mul(1, k);
    lemma_u32_low_bits_mask_is_mod(x, k as nat);
    lemma_low_bits_mask_values();
    assert(low_bits_mask(k as nat) == pow2(k as nat) - 1);
}

/// Shifting a byte into an accumulator whose low `l` bits hold `v`.
pub proof fn lemma_acc_push(acc: u32, l: u32, b: u8, v: int)
    requires
        l <= 23,
        (acc as int) % (pow2(l as nat) as int) == v,
    ensures
        (((acc << 8u32) | (b as u32)) as int) % (pow2((l + 8) as nat) as int) == v * 256 + b as int,
{
    let b32 = b as u32;
    let x = (acc << 8u32) | b32;
    assert(x & (((1u32 << ((l + 8) as u32)) as u32 - 1) as u32) == (acc & (((1u32 << l) as u32 - 1) as u32))
        * 256 + b32) by (bit_vector)
        requires
            l <= 23,
            b32 < 256,
            x == (acc << 8u32) | b32,
    ;
    lemma_mask_is_mod(x, (l + 8) as u32);
    lemma_mask_is_mod(acc, l);
}

/// Reading the `w` bits above the low `k` bits of an accumulator.
pub proof fn lemma_acc_take(acc: u32, k: u32, w: u32)
    requires
        k + w <= 31,
    ensures
        ((acc >> k) & (((1u32 << w) as u32 - 1) as u32)) as int == ((acc as int) % (pow2((k + w) as nat) as int))
            / (pow2(k as nat) as int),
        (acc as int) % (pow2(k as nat) as int) == ((acc as int) % (pow2((k + w) as nat) as int)) % (pow2(
            k as nat,
        ) as int),
{
    let m = acc & (((1u32 << ((k + w) as u32)) as u32 - 1) as u32);
    assert((acc >> k) & (((1u32 << w) as u32 - 1) as u32) == m >> k && acc & (((1u32 << k) as u32 - 1)
        as u32) == m & (((1u32 << k) as u32 - 1) as u32)) by (bit_vector)
        requires
            k + w <= 31,
            m == acc & (((1u32 << ((k + w) as u32)) as u32 - 1) as u32),
    ;
    lemma_mask_is_mod(acc, (k + w) as u32);
    lemma_mask_is_mod(acc, k);
    lemma_mask_is_mod(m, k);
    lemma_u32_shr_is_div(m, k);
}

/// A field splits into its leading `a` bits and the `b` bits after them, by division and
/// remainder.
pub proof fn lemma_bits_val_divmod(buf: Seq<u8>, pos: int, a: nat, b: nat)
    ensures
        bits_val(buf, pos, a + b) / (pow2(b) as int) == bits_val(buf, pos, a),
        bits_val(buf, pos, a + b) % (pow2(b) as int) == bits_val(buf, pos + a, b),
{
    lemma_bits_val_split(buf, pos, a, b);
    lemma_bits_val_bound(buf, pos + a, b);
    lemma_bits_val_bound(buf, pos, a);
    lemma_pow2_pos(b);
    lemma_fundamental_div_mod_converse(
        bits_val(buf, pos, a + b),
        pow2(b) as int,
        bits_val(buf, pos, a),
        bits_val(buf, pos + a, b),
    );
}

/// A field is zero exactly when all its bits are.
pub proof fn lemma_bits_val_zero(buf: Seq<u8>, pos: int, len: nat)
    ensures
        bits_val(buf, pos, len) == 0 <==> forall|t: int| 0 <= t < len ==> #[trigger] bit(buf, pos + t) == 0,
    decreases len,
{
    if len > 0 {
        let r = bits_val(buf, pos + 1, (len - 1) as nat);
        let x = bit(buf, pos);
        let p = pow2((len - 1) as nat) as int;
        lemma_bits_val_zero(buf, pos + 1, (len - 1) as nat);
        lemma_bits_val_bound(buf, pos + 1, (len - 1) as nat);
        lemma_bit_range(buf, pos);
        lemma_pow2_pos((len - 1) as nat);
        assert(bits_val(buf, pos, len) == x * p + r);
        assert(bits_val(buf, pos, len) == 0 <==> (x == 0 && r == 0)) by (nonlinear_arith)
            requires bits_val(buf, pos, len) == x * p + r, 0 <= x <= 1, p > 0, r >= 0;
        assert((forall|t: int| 0 <= t < len ==> #[trigger] bit(buf, pos + t) == 0) <==> (x == 0 && forall|t: int|
            0 <= t < len - 1 ==> #[trigger] bit(buf, (pos + 1) + t) == 0)) by {
            if forall|t: int| 0 <= t < len ==> #[trigger] bit(buf, pos + t) == 0 {
                assert(bit(buf, pos + 0) == 0);
                assert forall|t: int| 0 <= t < len - 1 implies #[trigger] bit(buf, (pos + 1) + t) == 0 by {
                    assert(bit(buf, pos + (t + 1)) == 0);
                    assert(pos + (t + 1) == (pos + 1) + t);
                }
            }
            if x == 0 && forall|t: int| 0 <= t < len - 1 ==> #[trigger] bit(buf, (pos + 1) + t) == 0 {
                assert forall|t: int| 0 <= t < len implies #[trigger] bit(buf, pos + t) == 0 by {
                    if t > 0 {
                        assert(bit(buf, (pos + 1) + (t - 1)) == 0);
                        assert((pos + 1) + (t - 1) == pos + t);
                    } else {
                        assert(pos + t == pos);
                    }
                }
            }
        }
    }
}


/// Equal fields have equal bits: a big-endian field determines each of its bits.
pub proof fn lemma_bits_val_eq_bits(a: Seq<u8>, b: Seq<u8>, pos: int, len: nat)
    requires
        bits_val(a, pos, len) == bits_val(b, pos, len),
    ensures
        forall|t: int| 0 <= t < len ==> #[trigger] bit(a, pos + t) == bit(b, pos + t),
    decreases len,
{
    if len > 0 {
        let l1 = (len - 1) as nat;
        let d = pow2(l1) as int;
        lemma_pow2_pos(l1);
        lemma_bit_range(a, pos);
        lemma_bit_range(b, pos);
        lemma_bits_val_bound(a, pos + 1, l1);
        lemma_bits_val_bound(b, pos + 1, l1);
        let (xa, ra) = (bit(a, pos), bits_val(a, pos + 1, l1));
        let (xb, rb) = (bit(b, pos), bits_val(b, pos + 1, l1));
        lemma_fundamental_div_mod_converse(xa * d + ra, d, xa, ra);
        lemma_fundamental_div_mod_converse(xb * d + rb, d, xb, rb);
        assert(xa * d == d * xa && xb * d == d * xb) by (nonlinear_arith);
        lemma_bits_val_eq_bits(a, b, pos + 1, l1);
        assert forall|t: int| 0 <= t < len implies #[trigger] bit(a, pos + t) == bit(b, pos + t) by {
            if t > 0 {
                assert(bit(a, (pos + 1) + (t - 1)) == bit(b, (pos + 1) + (t - 1)));
                assert(pos + 1 + (t - 1) == pos + t);
            }
        }
    }
}

/// A field is a function of its bits.
pub proof fn lemma_bits_eq_bits_val(a: Seq<u8>, b: Seq<u8>, pos: int, len: nat)
    requires
        forall|t: int| 0 <= t < len ==> #[trigger] bit(a, pos + t) == bit(b, pos + t),
    ensures
        bits_val(a, pos, len) == bits_val(b, pos, len),
    decreases len,
{
    if len > 0 {
        assert(bit(a, pos + 0) == bit(b, pos + 0));
        assert forall|t: int| 0 <= t < len - 1 implies #[trigger] bit(a, (pos + 1) + t) == bit(b, (pos + 1) + t) by {
            assert(bit(a, pos + (t + 1)) == bit(b, pos + (t + 1)));
            assert(pos + (t + 1) == pos + 1 + t);
        }
        lemma_bits_eq_bits_val(a, b, pos + 1, (len - 1) as nat);
    }
}

} // verus!
