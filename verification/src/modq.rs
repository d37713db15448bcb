//! Arithmetic modulo the Falcon prime `q = 12289` and the roots of unity
//! that the negacyclic number-theoretic transform is built on.
use vstd::prelude::*;
use vstd::arithmetic::power::*;
use vstd::arithmetic::div_mod::*;
use vstd::arithmetic::mul::*;
use vstd::arithmetic::power2::*;
use vstd::bits::*;

verus! {

/// The Falcon modulus.
pub open spec fn q() -> int {
    12289
}

/// `p` is a square root of −1 raised to the 512-th power: `p^512 ≡ −1 (mod q)`.
pub open spec fn is_negacyclic_root(p: int) -> bool {
    pow(p, 512) % 12289 == 12288
}

/// The least `p` in `[k, w]` with `p^512 ≡ −1`, or `w` when none below `w` has it.
pub open spec fn least_root_from(k: int, w: int) -> int
    decreases w - k,
{
    if k >= w {
        w
    } else if is_negacyclic_root(k) {
        k
    } else {
        least_root_from(k + 1, w)
    }
}

/// The least `psi >= 2` with `psi^512 ≡ −1 (mod q)`: a primitive 1024-th root of unity.
pub open spec fn psi() -> int {
    least_root_from(2, 49)
}

/// `pow(b, e1 + e2)` reduced modulo q, as a product of the reduced factors.
pub proof fn lemma_pow_mod_adds(b: int, e1: nat, e2: nat)
    ensures
        pow(b, e1 + e2) % q() == ((pow(b, e1) % q()) * (pow(b, e2) % q())) % q(),
{
    lemma_pow_adds(b, e1, e2);
    lemma_mul_mod_noop(pow(b, e1), pow(b, e2), q());
}

/// Squaring step of square-and-multiply, modulo q.
pub proof fn lemma_pow_mod_square(b: int, e: nat, r: int)
    requires
        pow(b, e) % q() == r,
    ensures
        pow(b, e + e) % q() == (r * r) % q(),
{
    lemma_pow_mod_adds(b, e, e);
}

pub proof fn lemma_49_is_root()
    ensures
        is_negacyclic_root(49),
{
    lemma_pow1(49);
    assert(49int % 12289 == 49);
    assert((49int * 49int) % 12289 == 2401);
    lemma_pow_mod_square(49, 1, 49);
    assert((2401int * 2401int) % 12289 == 1260);
    lemma_pow_mod_square(49, 2, 2401);
    assert((1260int * 1260int) % 12289 == 2319);
    lemma_pow_mod_square(49, 4, 1260);
    assert((2319int * 2319int) % 12289 == 7468);
    lemma_pow_mod_square(49, 8, 2319);
    assert((7468int * 7468int) % 12289 == 3542);
    lemma_pow_mod_square(49, 16, 7468);
    assert((3542int * 3542int) % 12289 == 10984);
    lemma_pow_mod_square(49, 32, 3542);
    assert((10984int * 10984int) % 12289 == 7143);
    lemma_pow_mod_square(49, 64, 10984);
    assert((7143int * 7143int) % 12289 == 10810);
    lemma_pow_mod_square(49, 128, 7143);
    assert((10810int * 10810int) % 12289 == 12288);
    lemma_pow_mod_square(49, 256, 10810);
}

/// Searching upward from `k` finds a root whenever `w` is one, and skips only non-roots.
pub proof fn lemma_least_root_from(k: int, w: int)
    requires
        k <= w,
        is_negacyclic_root(w),
    ensures
        k <= least_root_from(k, w) <= w,
        is_negacyclic_root(least_root_from(k, w)),
        forall|p: int| k <= p < least_root_from(k, w) ==> !is_negacyclic_root(p),
    decreases w - k,
{
    if k < w && !is_negacyclic_root(k) {
        lemma_least_root_from(k + 1, w);
    }
}

/// A value that is a root and has no root in `[2, r)` below it is `psi()`.
pub proof fn lemma_least_root_unique(r: int)
    requires
        2 <= r,
        is_negacyclic_root(r),
        forall|p: int| 2 <= p < r ==> !is_negacyclic_root(p),
    ensures
        r == psi(),
{
    lemma_49_is_root();
    lemma_least_root_from(2, 49);
}

pub proof fn lemma_psi_facts()
    ensures
        2 <= psi() <= 49,
        pow(psi(), 512) % q() == q() - 1,
        pow(psi(), 1024) % q() == 1,
        pow(psi(), 0) % q() == 1,
{
    lemma_49_is_root();
    lemma_least_root_from(2, 49);
    lemma_pow_mod_square(psi(), 512, 12288);
    assert((12288int * 12288int) % 12289 == 1);
    lemma_pow0(psi());
}

/// Exponents of `psi` only matter modulo 1024.
pub proof fn lemma_psi_exp_mod(e: nat)
    ensures
        pow(psi(), e) % q() == pow(psi(), e % 1024) % q(),
{
    lemma_psi_facts();
    let t = e / 1024;
    let r = e % 1024;
    assert(e == 1024 * t + r);
    lemma_pow_multiplies(psi(), 1024, t);
    lemma_pow_mod_noop(pow(psi(), 1024), t, q());
    lemma1_pow(t);
    assert(pow(pow(psi(), 1024) % q(), t) == 1);
    assert(pow(psi(), 1024 * t) % q() == 1);
    lemma_pow_mod_adds(psi(), 1024 * t, r);
    lemma_small_mod((pow(psi(), r) % q()) as nat, q() as nat);
}

/// Shifting an exponent of `psi` by 512 negates the power.
pub proof fn lemma_psi_exp_half(e: nat)
    ensures
        pow(psi(), e + 512) % q() == (q() - pow(psi(), e) % q()) % q(),
{
    lemma_psi_facts();
    lemma_pow_mod_adds(psi(), e, 512);
    let a = pow(psi(), e) % q();
    assert(0 <= a < q());
    assert((a * 12288) % 12289 == (12289 - a) % 12289) by (nonlinear_arith)
        requires 0 <= a < 12289;
}

/// Reversal of the low 9 bits of `x`.
pub open spec fn brv9(x: u32) -> u32 {
    ((x & 1) << 8u32) | ((x & 2) << 6u32) | ((x & 4) << 4u32) | ((x & 8) << 2u32) | (x & 16) | ((x
        & 32) >> 2u32) | ((x & 64) >> 4u32) | ((x & 128) >> 6u32) | ((x & 256) >> 8u32)
}

pub proof fn lemma_brv9_bound(x: u32)
    ensures
        brv9(x) < 512,
{
    assert(brv9(x) < 512) by (bit_vector);
}

/// The bit identity behind the negacyclic CT tree: the odd exponent `2·brv9(i)+1` of the
/// root at output slot `i`, times `2^s`, is the twiddle exponent of its level-`s` block,
/// plus 512 when `i` sits in the upper half of that block.
proof fn lemma_root_exponent_bits(i: u32, s: u32)
    requires
        i < 512,
        s < 9,
    ensures
        (((2 * brv9(i) + 1) as u32) << s) & 1023u32 == brv9(((256u32 >> s) + (i >> ((s + 1) as u32))) as u32) + ((i >> s) & 1)
            * 512,
{
    assert((((2 * brv9(i) + 1) as u32) << s) & 1023u32 == brv9(((256u32 >> s) + (i >> ((s + 1) as u32))) as u32) + ((i >> s)
        & 1) * 512) by (bit_vector)
        requires
            i < 512,
            s < 9,
    ;
}

/// The twiddle factor with index `k`: `psi^brv9(k) mod q`.
pub open spec fn zeta(k: int) -> int {
    pow(psi(), brv9(k as u32) as nat) % q()
}

/// The root of `x^512 + 1` that the transform evaluates at output slot `i`:
/// `psi^(2·brv9(i)+1) mod q`.
pub open spec fn root(i: int) -> int {
    pow(psi(), (2 * brv9(i as u32) + 1) as nat) % q()
}

/// Integer form of the exponent bit identity.
pub proof fn lemma_root_exponent(i: int, s: nat)
    requires
        0 <= i < 512,
        s <= 8,
    ensures
        ((2 * brv9(i as u32) + 1) * (pow2(s) as int)) % 1024 == brv9(
            (256int / (pow2(s) as int) + i / (2 * (pow2(s) as int))) as u32,
        ) + 512 * ((i / (pow2(s) as int)) % 2),
{
    let iu = i as u32;
    let su = s as u32;
    lemma_root_exponent_bits(iu, su);
    lemma_brv9_bound(iu);
    let x = (2 * brv9(iu) + 1) as u32;
    lemma2_to64();
    lemma_pow2_pos(s);
    lemma_pow2_strictly_increases(s, 9);
    assert(x * pow2(s) <= u32::MAX) by (nonlinear_arith)
        requires x < 1024, pow2(s) < 512;
    lemma_u32_shl_is_mul(x, su);
    let y = x << su;
    assert(y & 1023u32 == y % 1024) by (bit_vector);
    lemma_u32_shr_is_div(256u32, su);
    lemma_u32_shr_is_div(iu, (su + 1) as u32);
    lemma_pow2_unfold(s + 1);
    lemma_u32_shr_is_div(iu, su);
    let z = iu >> su;
    assert(z & 1 == z % 2) by (bit_vector);
}

/// Raising the slot-`i` root to the block length `2^s` gives the block's twiddle,
/// negated for the upper half of the block.
pub proof fn lemma_root_pow_block(i: int, s: nat)
    requires
        0 <= i < 512,
        s <= 8,
    ensures
        ({
            let k = 256int / (pow2(s) as int) + i / (2 * (pow2(s) as int));
            pow(root(i), pow2(s)) % q() == if (i / (pow2(s) as int)) % 2 == 0 {
                zeta(k)
            } else {
                (q() - zeta(k)) % q()
            }
        }),
{
    let k = 256int / (pow2(s) as int) + i / (2 * (pow2(s) as int));
    let e = (2 * brv9(i as u32) + 1) as nat;
    lemma_root_exponent(i, s);
    lemma_pow_mod_noop(pow(psi(), e), pow2(s), q());
    lemma_pow_multiplies(psi(), e, pow2(s));
    lemma_psi_exp_mod(e * pow2(s));
    lemma_pow2_pos(s);
    assert(0 <= k < 512) by {
        lemma_block_twiddle_index(i, s);
    }
    let b = brv9(k as u32) as nat;
    lemma_brv9_bound(k as u32);
    if (i / (pow2(s) as int)) % 2 != 0 {
        lemma_psi_exp_half(b);
    }
}

/// The twiddle index of slot `i`'s level-`s` block lies in `[256/2^s, 512/2^s)`.
pub proof fn lemma_block_twiddle_index(i: int, s: nat)
    requires
        0 <= i < 512,
        s <= 8,
    ensures
        256int / (pow2(s) as int) == pow2((8 - s) as nat),
        pow2((8 - s) as nat) <= 256int / (pow2(s) as int) + i / (2 * (pow2(s) as int)) < 2 * pow2((8 - s) as nat),
        256int / (pow2(s) as int) + i / (2 * (pow2(s) as int)) < 512,
{
    let l = pow2(s) as int;
    let h = pow2((8 - s) as nat) as int;
    lemma2_to64();
    lemma_pow2_adds(s, (8 - s) as nat);
    assert(l * h == 256);
    lemma_pow2_pos(s);
    lemma_pow2_pos((8 - s) as nat);
    lemma_div_multiples_vanish(h, l);
    if s > 0 {
        lemma_pow2_strictly_increases((8 - s) as nat, 8);
    }
    lemma_div_pos_is_pos(i, 2 * l);
    assert(i < (2 * l) * h) by (nonlinear_arith)
        requires i < 512, l * h == 256;
    lemma_div_by_multiple_is_strongly_ordered(i, (2 * l) * h, h, 2 * l);
    lemma_div_multiples_vanish(h, 2 * l);
    assert((2 * l) * h == h * (2 * l)) by (nonlinear_arith);
}

/// `psi^(-1) mod q`, computed as `psi^(q-2)`.
pub open spec fn psi_inv() -> int {
    pow(psi(), 12287) % q()
}

/// The inverse twiddle factor with index `k`: `psi^(-brv9(k)) mod q`.
pub open spec fn izeta(k: int) -> int {
    pow(psi_inv(), brv9(k as u32) as nat) % q()
}

pub proof fn lemma_psi_inv()
    ensures
        (psi() * psi_inv()) % q() == 1,
        0 <= psi_inv() < q(),
{
    lemma_psi_facts();
    lemma_pow1(psi());
    lemma_pow_mod_adds(psi(), 1, 12287);
    lemma_psi_exp_mod(12288);
    assert(12288nat % 1024 == 0);
    lemma_mul_mod_noop_left(psi(), pow(psi(), 12287), q());
    lemma_mul_mod_noop_right(psi(), pow(psi(), 12287), q());
    lemma_small_mod(psi() as nat, q() as nat);
}

/// Twiddles and inverse twiddles cancel.
pub proof fn lemma_zeta_izeta(k: int)
    ensures
        (zeta(k) * izeta(k)) % q() == 1,
        0 <= zeta(k) < q(),
        0 <= izeta(k) < q(),
{
    let b = brv9(k as u32) as nat;
    lemma_psi_inv();
    lemma_pow_distributes(psi(), psi_inv(), b);
    lemma_mul_mod_noop(pow(psi(), b), pow(psi_inv(), b), q());
    lemma_pow_mod_noop(psi() * psi_inv(), b, q());
    lemma1_pow(b);
}

/// Every slot root is a root of `x^512 + 1` modulo q.
pub proof fn lemma_root_is_negacyclic(i: int)
    requires
        0 <= i < 512,
    ensures
        pow(root(i), 512) % q() == q() - 1,
{
    let e = (2 * brv9(i as u32) + 1) as nat;
    lemma_brv9_bound(i as u32);
    lemma_pow_mod_noop(pow(psi(), e), 512, q());
    lemma_pow_multiplies(psi(), e, 512);
    lemma_psi_exp_mod(e * 512);
    assert((e * 512) % 1024 == 512) by (nonlinear_arith)
        requires e % 2 == 1;
    lemma_psi_facts();
}

/// `512⁻¹ mod q`.
pub open spec fn n_inv() -> int {
    12265
}

} // verus!
