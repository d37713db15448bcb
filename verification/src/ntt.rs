//! The negacyclic NTT over `Z_q[x]/(x^512 + 1)`: twiddle tables, the forward and
//! inverse transforms, and the fused kernels of the verification path.
use vstd::prelude::*;
use vstd::arithmetic::power::*;
use vstd::arithmetic::power2::*;
use vstd::arithmetic::div_mod::*;
use vstd::arithmetic::mul::*;
use crate::ntt_spec::{ct_coeff, ct_layer, gs_coeff, gs_layer, fwd_layers, scaled_cong, inv_layers, inv_layers_from,
    lemma_ct_layer_cong, lemma_fwd_layers_len, lemma_fwd_is_evaluation, lemma_gs_layer_cong,
    lemma_inv_layers_from_snoc, lemma_inv_layers_from_len, lemma_inv_layers_from_scaled,
    lemma_inv_fwd_layers, lemma_scaled_cong_trans, lemma_ntt_product, lemma_fwd_inv_layers,
    lemma_fwd_layers_scaled, fwd_below, lemma_fwd_below_len, lemma_inv_fwd_below, lemma_fwd_inv_from};
use crate::poly::{eval, negacyclic_mul};
use crate::modq::{
    q, psi, psi_inv, zeta, izeta, brv9, root, n_inv, is_negacyclic_root, lemma_least_root_unique,
    lemma_psi_facts, lemma_49_is_root, lemma_brv9_bound,
};

verus! {

/// The Falcon modulus.
pub const Q: u32 = 12289;

/// The ring degree.
pub const N: usize = 512;

/// `base^exp mod m` by square-and-multiply (`1` when `exp == 0`).
pub fn pow_mod(base: u32, exp: u32, m: u32) -> (r: u32)
    requires
        exp > 0 ==> m > 0,
    ensures
        exp == 0 ==> r == 1,
        exp > 0 ==> r == pow(base as int, exp as nat) % (m as int),
{
    let mut result: u64 = 1;
    let mut b: u64 = base as u64;
    let m64: u64 = m as u64;
    let mut e: u32 = exp;
    while e > 0
        invariant
            m64 == m,
            exp > 0 ==> m > 0,
            result == 1 || result < m,
            b <= u32::MAX,
            exp > 0 ==> (e > 0 || result < m),
            exp == 0 ==> e == 0 && result == 1,
            exp > 0 ==> (result * pow(b as int, e as nat)) % (m as int) == pow(base as int, exp as nat) % (m as int),
        decreases e,
    {
        let ghost (r0, b0, e0) = (result as int, b as int, e as nat);
        let ghost eu: u32 = e;
        assert(eu & 1 == eu % 2) by (bit_vector);
        assert(eu >> 1 == eu / 2) by (bit_vector);
        assert(b * b <= u64::MAX) by (nonlinear_arith)
            requires b <= u32::MAX;
        if e & 1 == 1 {
            assert(result * b <= u64::MAX) by (nonlinear_arith)
                requires result <= u32::MAX, b <= u32::MAX;
            result = (result * b) % m64;
        }
        b = (b * b) % m64;
        e = e >> 1;
        proof {
            let h = e as nat;
            let odd = e0 % 2;
            assert(e0 == 2 * h + odd);
            lemma_pow_adds(b0, 2 * h, odd as nat);
            lemma_pow_multiplies(b0, 2, h);
            lemma_square_is_pow2(b0);
            let bb = b0 * b0;
            lemma_pow_mod_noop(bb, h, m as int);
            // result' · pow(bb % m, h)  ≡  result' · pow(bb, h)
            let pb = pow(bb, h);
            lemma_mul_mod_noop_right(result as int, pow(bb % (m as int), h), m as int);
            lemma_mul_mod_noop_right(result as int, pb, m as int);
            if odd == 1 {
                lemma_pow1(b0);
                lemma_mul_mod_noop_left(r0 * b0, pb, m as int);
                assert((r0 * b0) * pb == r0 * (pb * b0)) by (nonlinear_arith);
            } else {
                lemma_pow0(b0);
            }
            assert(pow(b0, e0) == pb * pow(b0, odd as nat));
        }
    }
    assert(pow(b as int, 0) == 1) by {
        lemma_pow0(b as int);
    }
    proof {
        if exp > 0 {
            lemma_small_mod(result as nat, m as nat);
        }
    }
    result as u32
}

/// Reverses the low 9 bits of `x`.
pub fn bitrev9(x: u32) -> (r: u32)
    ensures
        r == brv9(x),
{
    let mut r: u32 = 0;
    let mut xx: u32 = x;
    let mut i: u32 = 0;
    proof {
        assert(x >> 0u32 == x && brv9(x) >> 9u32 == 0) by (bit_vector);
    }
    while i < 9
        invariant
            i <= 9,
            xx == x >> i,
            r == brv9(x) >> ((9 - i) as u32),
        decreases 9 - i,
    {
        proof {
            lemma_bitrev9_step(x, r, xx, i);
        }
        r = (r << 1) | (xx & 1);
        xx = xx >> 1;
        i += 1;
    }
    proof {
        assert(brv9(x) >> 0u32 == brv9(x)) by (bit_vector);
    }
    r
}

proof fn lemma_bitrev9_step(x: u32, r: u32, xx: u32, i: u32)
    requires
        i < 9,
        xx == x >> i,
        r == brv9(x) >> ((9 - i) as u32),
    ensures
        (r << 1) | (xx & 1) == brv9(x) >> ((9 - (i + 1)) as u32),
        xx >> 1 == x >> ((i + 1) as u32),
{
    assert((r << 1) | (xx & 1) == brv9(x) >> ((9 - (i + 1)) as u32) && xx >> 1 == x >> ((i + 1)
        as u32)) by (bit_vector)
        requires
            i < 9,
            xx == x >> i,
            r == brv9(x) >> ((9 - i) as u32),
    ;
}

/// The least `psi >= 2` with `psi^512 ≡ −1 (mod q)`.
pub fn find_psi() -> (r: u32)
    ensures
        r == psi(),
{
    let target = Q - 1;
    let mut p: u32 = 2;
    while p < Q
        invariant
            2 <= p <= 49,
            target == 12288,
            forall|x: int| 2 <= x < p ==> !is_negacyclic_root(x),
        decreases Q - p,
    {
        let v = pow_mod(p, N as u32, Q);
        assert(v == pow(p as int, 512) % 12289);
        assert(v == target <==> is_negacyclic_root(p as int));
        if v == target {
            proof {
                lemma_least_root_unique(p as int);
            }
            return p;
        }
        proof {
            if p == 49 {
                lemma_49_is_root();
            }
        }
        p += 1;
    }
    0
}

/// Twiddle tables: `zetas[k] = psi^brv9(k)` and `inv_zetas[k] = psi^(-brv9(k))`, mod q.
pub struct Twiddles {
    pub zetas: [u32; N],
    pub inv_zetas: [u32; N],
}

impl Twiddles {
    /// Both tables hold the powers of `psi` and `psi⁻¹` at bit-reversed exponents.
    pub open spec fn wf(&self) -> bool {
        forall|k: int| 0 <= k < 512 ==> self.zetas[k] == zeta(k) && self.inv_zetas[k] == izeta(k)
    }

    /// Computes both tables from `psi`.
    pub fn new() -> (t: Self)
        ensures
            t.wf(),
    {
        let psi_v = find_psi();
        let psi_inv_v = pow_mod(psi_v, Q - 2, Q);
        let mut zetas = [0u32; N];
        let mut inv_zetas = [0u32; N];
        let mut k: usize = 0;
        proof {
            lemma_psi_facts();
        }
        while k < N
            invariant
                k <= N,
                psi_v == psi(),
                psi_inv_v == psi_inv(),
                forall|j: int| 0 <= j < k ==> zetas[j] == zeta(j) && inv_zetas[j] == izeta(j),
            decreases N - k,
        {
            let b = bitrev9(k as u32);
            proof {
                lemma_brv9_bound(k as u32);
                if b == 0 {
                    lemma_pow0(psi());
                    lemma_pow0(psi_inv());
                }
            }
            zetas[k] = pow_mod(psi_v, b, Q);
            inv_zetas[k] = pow_mod(psi_inv_v, b, Q);
            k += 1;
        }
        Twiddles { zetas, inv_zetas }
    }
}

/// An array of machine words read as integers.
pub open spec fn ints(s: Seq<u32>) -> Seq<int> {
    s.map_values(|x: u32| x as int)
}

/// Slot positions of a butterfly at offset `j - start` of the block starting at
/// `start = m·2l`.
proof fn lemma_butterfly_slots(j: int, start: int, m: int, l: int)
    requires
        l > 0,
        m >= 0,
        start == m * (2 * l),
        start <= j < start + l,
    ensures
        j / (2 * l) == m,
        j % (2 * l) == j - start,
        (j + l) / (2 * l) == m,
        (j + l) % (2 * l) == j - start + l,
{
    lemma_fundamental_div_mod_converse(j, 2 * l, m, j - start);
    lemma_fundamental_div_mod_converse(j + l, 2 * l, m, j - start + l);
}

/// Blocks of a layer with half-length `l = 2^s`: there are `256/l` of them.
proof fn lemma_layer_shape(s: nat)
    requires
        s <= 8,
    ensures
        pow2(s) >= 1,
        pow2(s) <= 256,
        (256nat / pow2(s)) * (2 * pow2(s)) == 512,
        256nat / pow2(s) >= 1,
{
    lemma2_to64();
    lemma_pow2_pos(s);
    lemma_pow2_adds(s, (8 - s) as nat);
    if s < 8 {
        lemma_pow2_strictly_increases(s, 8);
    }
    lemma_pow2_pos((8 - s) as nat);
    lemma_div_multiples_vanish(pow2((8 - s) as nat) as int, pow2(s) as int);
    assert(pow2(s) * pow2((8 - s) as nat) == pow2((8 - s) as nat) * pow2(s)) by (nonlinear_arith);
    assert((pow2((8 - s) as nat) as int) * (2 * (pow2(s) as int)) == 2 * (pow2(s) * pow2((8 - s) as nat)))
        by (nonlinear_arith);
}

/// One Cooley–Tukey layer with reduced products: `(u + (z·v mod q), u + q − (z·v mod q))`.
/// Each output grows by less than `q` over the input bound.
fn ct_level(r: &mut [u32; N], tw: &Twiddles, l: usize, Ghost(s): Ghost<nat>, Ghost(bound): Ghost<int>)
    requires
        tw.wf(),
        s <= 8,
        l == pow2(s),
        forall|i: int| 0 <= i < 512 ==> old(r)[i] <= bound,
        bound + 12289 <= u32::MAX,
    ensures
        forall|i: int|
            0 <= i < 512 ==> final(r)[i] <= bound + 12289 && #[trigger] (final(r)[i] as int) % q()
                == ct_coeff(ints(old(r)@), s, i),
{
    let ghost o = ints(r@);
    proof {
        lemma_layer_shape(s);
    }
    let k0: usize = 256 / l;
    let mut start: usize = 0;
    let mut m: usize = 0;
    while start < N
        invariant
            tw.wf(),
            s <= 8,
            l == pow2(s),
            1 <= l <= 256,
            k0 == 256int / (l as int),
            k0 * (2 * l) == 512,
            o.len() == 512,
            forall|i: int| 0 <= i < 512 ==> o[i] <= bound,
            bound + 12289 <= u32::MAX,
            start == m * (2 * l),
            m <= k0,
            forall|i: int|
                0 <= i < start ==> r[i] <= bound + 12289 && #[trigger] (r[i] as int) % q() == ct_coeff(o, s, i),
            forall|i: int| start <= i < 512 ==> #[trigger] r[i] as int == o[i],
        decreases N - start,
    {
        assert(m < k0) by (nonlinear_arith)
            requires start == m * (2 * l), start < 512, k0 * (2 * l) == 512, l >= 1;
        assert(start + 2 * l <= 512) by (nonlinear_arith)
            requires start == m * (2 * l), m + 1 <= k0, k0 * (2 * l) == 512, l >= 1;
        let z = tw.zetas[k0 + m] as u64;
        assert(z == zeta((k0 + m) as int));
        let mut j: usize = start;
        while j < start + l
            invariant
                tw.wf(),
                s <= 8,
                l == pow2(s),
                1 <= l <= 256,
                k0 == 256int / (l as int),
                o.len() == 512,
                forall|i: int| 0 <= i < 512 ==> o[i] <= bound,
                bound + 12289 <= u32::MAX,
                start == m * (2 * l),
                start + 2 * l <= 512,
                z == zeta((k0 + m) as int),
                z < 12289,
                start <= j <= start + l,
                forall|i: int|
                    (0 <= i < j || start + l <= i < j + l) ==> r[i] <= bound + 12289 && #[trigger] (
                    r[i] as int) % q() == ct_coeff(o, s, i),
                forall|i: int| (j <= i < start + l || j + l <= i < 512) ==> #[trigger] r[i] as int == o[i],
            decreases start + l - j,
        {
            proof {
                lemma_butterfly_slots(j as int, start as int, m as int, l as int);
                crate::modq::lemma_zeta_izeta((k0 + m) as int);
            }
            let u = r[j] as u64;
            let v = r[j + l] as u64;
            assert(v * z <= u64::MAX) by (nonlinear_arith)
                requires v <= u32::MAX, z < 12289;
            let t = v * z % 12289;
            r[j] = (u + t) as u32;
            r[j + l] = (u + 12289 - t) as u32;
            proof {
                let (ui, vi, zi) = (u as int, v as int, z as int);
                assert(o[j as int] == ui && o[j + l] == vi);
                lemma_mod_add_multiples_vanish(ui - (zi * vi) % 12289, 12289);
                lemma_add_mod_noop(ui, (zi * vi) % 12289, 12289);
                lemma_add_mod_noop(ui, zi * vi, 12289);
                lemma_mod_twice(zi * vi, 12289);
                lemma_sub_mod_noop(ui, (zi * vi) % 12289, 12289);
                lemma_sub_mod_noop(ui, zi * vi, 12289);
                assert(v * z == z * v) by (nonlinear_arith);
            }
            j += 1;
        }
        assert(start + 2 * l == (m + 1) * (2 * l)) by (nonlinear_arith)
            requires start == m * (2 * l);
        start += 2 * l;
        m += 1;
    }
}

/// The last main forward layer with unreduced products: `(u + z·v, u + 9q² − z·v)`.
/// `9q²` is a multiple of q that exceeds every product `z·v` for inputs up to `bound`.
fn ct_level_lazy_t(r: &mut [u32; N], tw: &Twiddles, l: usize, Ghost(s): Ghost<nat>, Ghost(bound): Ghost<int>)
    requires
        tw.wf(),
        s <= 8,
        l == pow2(s),
        forall|i: int| 0 <= i < 512 ==> old(r)[i] <= bound,
        bound * 12288 <= 1359175689,
        bound + 1359175689 <= u32::MAX,
    ensures
        forall|i: int|
            0 <= i < 512 ==> final(r)[i] <= bound + 1359175689 && #[trigger] (final(r)[i] as int) % q()
                == ct_coeff(ints(old(r)@), s, i),
{
    let ghost o = ints(r@);
    proof {
        lemma_layer_shape(s);
    }
    let k0: usize = 256 / l;
    let mut start: usize = 0;
    let mut m: usize = 0;
    while start < N
        invariant
            tw.wf(),
            s <= 8,
            l == pow2(s),
            1 <= l <= 256,
            k0 == 256int / (l as int),
            k0 * (2 * l) == 512,
            o.len() == 512,
            forall|i: int| 0 <= i < 512 ==> o[i] <= bound,
            bound * 12288 <= 1359175689,
            bound + 1359175689 <= u32::MAX,
            start == m * (2 * l),
            m <= k0,
            forall|i: int|
                0 <= i < start ==> r[i] <= bound + 1359175689 && #[trigger] (r[i] as int) % q() == ct_coeff(o, s, i),
            forall|i: int| start <= i < 512 ==> #[trigger] r[i] as int == o[i],
        decreases N - start,
    {
        assert(m < k0) by (nonlinear_arith)
            requires start == m * (2 * l), start < 512, k0 * (2 * l) == 512, l >= 1;
        assert(start + 2 * l <= 512) by (nonlinear_arith)
            requires start == m * (2 * l), m + 1 <= k0, k0 * (2 * l) == 512, l >= 1;
        let z = tw.zetas[k0 + m] as u64;
        assert(z == zeta((k0 + m) as int));
        let mut j: usize = start;
        while j < start + l
            invariant
                tw.wf(),
                s <= 8,
                l == pow2(s),
                1 <= l <= 256,
                k0 == 256int / (l as int),
                o.len() == 512,
                forall|i: int| 0 <= i < 512 ==> o[i] <= bound,
                bound * 12288 <= 1359175689,
            bound * 12288 <= 1359175689,
                bound + 1359175689 <= u32::MAX,
                start == m * (2 * l),
                start + 2 * l <= 512,
                z == zeta((k0 + m) as int),
                z < 12289,
                start <= j <= start + l,
                forall|i: int|
                    (0 <= i < j || start + l <= i < j + l) ==> r[i] <= bound + 1359175689 && #[trigger] (
                    r[i] as int) % q() == ct_coeff(o, s, i),
                forall|i: int| (j <= i < start + l || j + l <= i < 512) ==> #[trigger] r[i] as int == o[i],
            decreases start + l - j,
        {
            proof {
                lemma_butterfly_slots(j as int, start as int, m as int, l as int);
                crate::modq::lemma_zeta_izeta((k0 + m) as int);
            }
            let u = r[j] as u64;
            let v = r[j + l] as u64;
            assert(v * z <= bound * 12288) by (nonlinear_arith)
                requires v <= bound, z <= 12288, bound >= 0;
            let t = v * z;
            r[j] = (u + t) as u32;
            r[j + l] = (u + 1359175689 - t) as u32;
            proof {
                let (ui, vi, zi) = (u as int, v as int, z as int);
                assert(o[j as int] == ui && o[j + l] == vi);
                assert(v * z == z * v) by (nonlinear_arith);
                lemma_mod_twice(ui + zi * vi, 12289);
                assert(1359175689int == 12289 * 110601);
                lemma_mod_multiples_vanish(110601, ui - zi * vi, 12289);
            }
            j += 1;
        }
        assert(start + 2 * l == (m + 1) * (2 * l)) by (nonlinear_arith)
            requires start == m * (2 * l);
        start += 2 * l;
        m += 1;
    }
}

/// One lazy Gentleman–Sande layer: `(u + v, (u + 256q − v)·z⁻¹ mod q)`. The low
/// outputs are left unreduced and at most double the input bound.
fn gs_level_lazy(r: &mut [u32; N], tw: &Twiddles, l: usize, Ghost(s): Ghost<nat>, Ghost(bound): Ghost<int>)
    requires
        tw.wf(),
        s <= 8,
        l == pow2(s),
        forall|i: int| 0 <= i < 512 ==> old(r)[i] <= bound,
        12289 <= bound <= 256 * 12289,
    ensures
        forall|i: int|
            0 <= i < 512 ==> final(r)[i] <= 2 * bound && #[trigger] (final(r)[i] as int) % q()
                == gs_coeff(ints(old(r)@), s, i),
{
    let ghost o = ints(r@);
    proof {
        lemma_layer_shape(s);
    }
    let k0: usize = 256 / l;
    let mut start: usize = 0;
    let mut m: usize = 0;
    while start < N
        invariant
            tw.wf(),
            s <= 8,
            l == pow2(s),
            1 <= l <= 256,
            k0 == 256int / (l as int),
            k0 * (2 * l) == 512,
            o.len() == 512,
            forall|i: int| 0 <= i < 512 ==> o[i] <= bound,
            12289 <= bound <= 256 * 12289,
            2 * bound <= u32::MAX,
            start == m * (2 * l),
            m <= k0,
            forall|i: int|
                0 <= i < start ==> r[i] <= 2 * bound && #[trigger] (r[i] as int) % q() == gs_coeff(o, s, i),
            forall|i: int| start <= i < 512 ==> #[trigger] r[i] as int == o[i],
        decreases N - start,
    {
        assert(m < k0) by (nonlinear_arith)
            requires start == m * (2 * l), start < 512, k0 * (2 * l) == 512, l >= 1;
        assert(start + 2 * l <= 512) by (nonlinear_arith)
            requires start == m * (2 * l), m + 1 <= k0, k0 * (2 * l) == 512, l >= 1;
        let z = tw.inv_zetas[k0 + m] as u64;
        assert(z == izeta((k0 + m) as int));
        let mut j: usize = start;
        while j < start + l
            invariant
                tw.wf(),
                s <= 8,
                l == pow2(s),
                1 <= l <= 256,
                k0 == 256int / (l as int),
                o.len() == 512,
                forall|i: int| 0 <= i < 512 ==> o[i] <= bound,
                12289 <= bound <= 256 * 12289,
            12289 <= bound <= 256 * 12289,
                2 * bound <= u32::MAX,
                start == m * (2 * l),
                start + 2 * l <= 512,
                z == izeta((k0 + m) as int),
                z < 12289,
                start <= j <= start + l,
                forall|i: int|
                    (0 <= i < j || start + l <= i < j + l) ==> r[i] <= 2 * bound && #[trigger] (
                    r[i] as int) % q() == gs_coeff(o, s, i),
                forall|i: int| (j <= i < start + l || j + l <= i < 512) ==> #[trigger] r[i] as int == o[i],
            decreases start + l - j,
        {
            proof {
                lemma_butterfly_slots(j as int, start as int, m as int, l as int);
                crate::modq::lemma_zeta_izeta((k0 + m) as int);
            }
            let u = r[j] as u64;
            let v = r[j + l] as u64;
            assert((u + 256 * 12289 - v) * z <= u64::MAX) by (nonlinear_arith)
                requires u <= 256 * 12289, v <= 256 * 12289, z < 12289;
            r[j] = (u + v) as u32;
            r[j + l] = ((u + 256 * 12289 - v) * z % 12289) as u32;
            proof {
                let (ui, vi, zi) = (u as int, v as int, z as int);
                assert(o[j as int] == ui && o[j + l] == vi);
                lemma_mod_twice(ui + vi, 12289);
                let d = ui + 256 * 12289 - vi;
                lemma_mod_add_multiples_vanish(ui - vi, 12289);
                assert(d % 12289 == (ui - vi) % 12289) by {
                    lemma_mod_multiples_vanish(256, ui - vi, 12289);
                }
                lemma_mul_mod_noop_left(d, zi, 12289);
                lemma_mul_mod_noop_left(ui - vi, zi, 12289);
                lemma_mod_bound(d * zi, 12289);
            }
            j += 1;
        }
        assert(start + 2 * l == (m + 1) * (2 * l)) by (nonlinear_arith)
            requires start == m * (2 * l);
        start += 2 * l;
        m += 1;
    }
}

/// One reducing Gentleman–Sande layer: `((u + v) mod q, (u + q − v)·z⁻¹ mod q)`,
/// for inputs below q.
fn gs_level(r: &mut [u32; N], tw: &Twiddles, l: usize, Ghost(s): Ghost<nat>, Ghost(bound): Ghost<int>)
    requires
        tw.wf(),
        s <= 8,
        l == pow2(s),
        forall|i: int| 0 <= i < 512 ==> old(r)[i] <= bound,
        bound < 12289,
    ensures
        forall|i: int|
            0 <= i < 512 ==> final(r)[i] <= 12288 && #[trigger] (final(r)[i] as int) % q()
                == gs_coeff(ints(old(r)@), s, i),
{
    let ghost o = ints(r@);
    proof {
        lemma_layer_shape(s);
    }
    let k0: usize = 256 / l;
    let mut start: usize = 0;
    let mut m: usize = 0;
    while start < N
        invariant
            tw.wf(),
            s <= 8,
            l == pow2(s),
            1 <= l <= 256,
            k0 == 256int / (l as int),
            k0 * (2 * l) == 512,
            o.len() == 512,
            forall|i: int| 0 <= i < 512 ==> o[i] <= bound,
            bound < 12289,
            12288 <= u32::MAX,
            start == m * (2 * l),
            m <= k0,
            forall|i: int|
                0 <= i < start ==> r[i] <= 12288 && #[trigger] (r[i] as int) % q() == gs_coeff(o, s, i),
            forall|i: int| start <= i < 512 ==> #[trigger] r[i] as int == o[i],
        decreases N - start,
    {
        assert(m < k0) by (nonlinear_arith)
            requires start == m * (2 * l), start < 512, k0 * (2 * l) == 512, l >= 1;
        assert(start + 2 * l <= 512) by (nonlinear_arith)
            requires start == m * (2 * l), m + 1 <= k0, k0 * (2 * l) == 512, l >= 1;
        let z = tw.inv_zetas[k0 + m] as u64;
        assert(z == izeta((k0 + m) as int));
        let mut j: usize = start;
        while j < start + l
            invariant
                tw.wf(),
                s <= 8,
                l == pow2(s),
                1 <= l <= 256,
                k0 == 256int / (l as int),
                o.len() == 512,
                forall|i: int| 0 <= i < 512 ==> o[i] <= bound,
                bound < 12289,
            bound < 12289,
                12288 <= u32::MAX,
                start == m * (2 * l),
                start + 2 * l <= 512,
                z == izeta((k0 + m) as int),
                z < 12289,
                start <= j <= start + l,
                forall|i: int|
                    (0 <= i < j || start + l <= i < j + l) ==> r[i] <= 12288 && #[trigger] (
                    r[i] as int) % q() == gs_coeff(o, s, i),
                forall|i: int| (j <= i < start + l || j + l <= i < 512) ==> #[trigger] r[i] as int == o[i],
            decreases start + l - j,
        {
            proof {
                lemma_butterfly_slots(j as int, start as int, m as int, l as int);
                crate::modq::lemma_zeta_izeta((k0 + m) as int);
            }
            let u = r[j] as u64;
            let v = r[j + l] as u64;
            assert((u + 12289 - v) * z <= u64::MAX) by (nonlinear_arith)
                requires u < 12289, v < 12289, z < 12289;
            r[j] = ((u + v) % 12289) as u32;
            r[j + l] = ((u + 12289 - v) * z % 12289) as u32;
            proof {
                let (ui, vi, zi) = (u as int, v as int, z as int);
                assert(o[j as int] == ui && o[j + l] == vi);
                lemma_mod_twice(ui + vi, 12289);
                let d = ui + 12289 - vi;
                lemma_mod_add_multiples_vanish(ui - vi, 12289);
                lemma_mul_mod_noop_left(d, zi, 12289);
                lemma_mul_mod_noop_left(ui - vi, zi, 12289);
                lemma_mod_bound(d * zi, 12289);
                lemma_mod_bound(ui + vi, 12289);
            }
            j += 1;
        }
        assert(start + 2 * l == (m + 1) * (2 * l)) by (nonlinear_arith)
            requires start == m * (2 * l);
        start += 2 * l;
        m += 1;
    }
}

/// Signed coefficients read as integers.
pub open spec fn sints(s: Seq<i16>) -> Seq<int> {
    s.map_values(|x: i16| x as int)
}

/// After a layer that agrees with `ct_layer(fwd_layers(a, n-1), 9-n)` modulo q, the array
/// agrees with `fwd_layers(a, n)`.
proof fn lemma_fwd_step(r: Seq<u32>, prev: Seq<u32>, a: Seq<int>, n: nat)
    requires
        1 <= n <= 9,
        a.len() == 512,
        r.len() == 512,
        prev.len() == 512,
        scaled_cong(ints(prev), fwd_layers(a, (n - 1) as nat), 1),
        forall|i: int| 0 <= i < 512 ==> #[trigger] (r[i] as int) % q() == ct_coeff(ints(prev), (9 - n) as nat, i),
    ensures
        scaled_cong(ints(r), fwd_layers(a, n), 1),
{
    lemma_fwd_layers_len(a, (n - 1) as nat);
    lemma_ct_layer_cong(ints(prev), fwd_layers(a, (n - 1) as nat), (9 - n) as nat);
    let f = fwd_layers(a, n);
    assert forall|i: int| 0 <= i < 512 implies #[trigger] ints(r)[i] % q() == (1 * f[i]) % q() by {
        assert(f[i] == ct_layer(ints(prev), (9 - n) as nat)[i]);
        lemma_mod_twice(ct_coeff(ints(prev), (9 - n) as nat, i), q());
    }
}

/// Forward layers with half-lengths 128 down to 2; the last of them leaves its products
/// unreduced.
fn ntt_levels_after_first(r: &mut [u32; N], tw: &Twiddles, Ghost(a): Ghost<Seq<int>>)
    requires
        tw.wf(),
        a.len() == 512,
        scaled_cong(ints(old(r)@), fwd_layers(a, 1), 1),
        forall|i: int| 0 <= i < 512 ==> old(r)[i] <= 2 * 12289 + 2047,
    ensures
        scaled_cong(ints(final(r)@), fwd_layers(a, 8), 1),
        forall|i: int| 0 <= i < 512 ==> final(r)[i] <= 1359175689 + 8 * 12289 + 2047,
{
    proof {
        lemma2_to64();
    }
    let mut len: usize = 128;
    let mut n: usize = 2;
    let ghost mut bound: int = 2 * 12289int + 2047;
    while len >= 4
        invariant
            tw.wf(),
            a.len() == 512,
            2 <= n <= 8,
            len == pow2((9 - n) as nat),
            bound == 2 * 12289 + 2047 + (n - 2) * 12289,
            scaled_cong(ints(r@), fwd_layers(a, (n - 1) as nat), 1),
            forall|i: int| 0 <= i < 512 ==> r[i] <= bound,
        decreases len,
    {
        proof {
            lemma2_to64();
        }
        assert(n <= 7);
        let ghost prev = r@;
        ct_level(r, tw, len, Ghost((9 - n) as nat), Ghost(bound));
        proof {
            lemma_fwd_step(r@, prev, a, n as nat);
            lemma_pow2_unfold((9 - n) as nat);
            bound = bound + 12289;
        }
        len = len / 2;
        n = n + 1;
    }
    assert(n == 8);
    let ghost prev = r@;
    ct_level_lazy_t(r, tw, 2, Ghost(1), Ghost(bound));
    proof {
        lemma_fwd_step(r@, prev, a, 8);
    }
}

/// Forward layers with half-lengths 256 down to 2, for inputs below q.
pub fn ntt_main_levels_with(r: &mut [u32; N], tw: &Twiddles)
    requires
        tw.wf(),
        forall|i: int| 0 <= i < 512 ==> old(r)[i] < 12289,
    ensures
        scaled_cong(ints(final(r)@), fwd_layers(ints(old(r)@), 8), 1),
        forall|i: int| 0 <= i < 512 ==> final(r)[i] <= 1359175689 + 8 * 12289 + 2047,
{
    let ghost a = ints(r@);
    let ghost prev = r@;
    proof {
        lemma2_to64();
        assert forall|i: int| 0 <= i < 512 implies #[trigger] ints(prev)[i] % q() == (1 * a[i]) % q() by {}
    }
    ct_level(r, tw, 256, Ghost(8), Ghost(12288int));
    proof {
        lemma_fwd_step(r@, prev, a, 1);
    }
    ntt_levels_after_first(r, tw, Ghost(a));
}

/// Forward layers with half-lengths 256 down to 2, for inputs below q.
pub fn ntt_main_levels(r: &mut [u32; N])
    requires
        forall|i: int| 0 <= i < 512 ==> old(r)[i] < 12289,
    ensures
        scaled_cong(ints(final(r)@), fwd_layers(ints(old(r)@), 8), 1),
        forall|i: int| 0 <= i < 512 ==> final(r)[i] <= 1359175689 + 8 * 12289 + 2047,
{
    let tw = Twiddles::new();
    ntt_main_levels_with(r, &tw);
}

/// The final forward layer (half-length 1).
fn ntt_last_level(r: &mut [u32; N], tw: &Twiddles, Ghost(a): Ghost<Seq<int>>)
    requires
        tw.wf(),
        a.len() == 512,
        scaled_cong(ints(old(r)@), fwd_layers(a, 8), 1),
        forall|i: int| 0 <= i < 512 ==> old(r)[i] <= 1359175689 + 8 * 12289 + 2047,
    ensures
        scaled_cong(ints(final(r)@), fwd_layers(a, 9), 1),
{
    let ghost prev = r@;
    proof {
        lemma2_to64();
    }
    ct_level(r, tw, 1, Ghost(0), Ghost(1359175689int + 8 * 12289 + 2047));
    proof {
        lemma_fwd_step(r@, prev, a, 9);
    }
}

/// Forward transform with canonical outputs: slot `i` holds `a(root(i)) mod q`.
pub fn ntt_with(r: &mut [u32; N], tw: &Twiddles)
    requires
        tw.wf(),
        forall|i: int| 0 <= i < 512 ==> old(r)[i] < 12289,
    ensures
        forall|i: int| 0 <= i < 512 ==> #[trigger] final(r)[i] as int == eval(ints(old(r)@), root(i)) % q(),
        forall|i: int| 0 <= i < 512 ==> #[trigger] final(r)[i] as int == fwd_layers(ints(old(r)@), 9)[i] % q(),
{
    let ghost a = ints(r@);
    ntt_main_levels_with(r, tw);
    ntt_last_level(r, tw, Ghost(a));
    let mut k: usize = 0;
    while k < N
        invariant
            a.len() == 512,
            k <= N,
            scaled_cong(ints(r@), fwd_layers(a, 9), 1),
            forall|i: int| 0 <= i < k ==> #[trigger] r[i] as int == fwd_layers(a, 9)[i] % q(),
        decreases N - k,
    {
        let ghost pr = r@;
        proof {
            assert(ints(pr)[k as int] % q() == (1 * fwd_layers(a, 9)[k as int]) % q());
        }
        r[k] = r[k] % Q;
        proof {
            assert forall|i: int| 0 <= i < 512 implies #[trigger] ints(r@)[i] % q() == (1 * fwd_layers(a, 9)[i])
                % q() by {
                assert(ints(pr)[i] % q() == (1 * fwd_layers(a, 9)[i]) % q());
                if i == k {
                    lemma_mod_twice(pr[i] as int, q());
                } else {
                    assert(r@[i] == pr[i]);
                }
            }
        }
        k += 1;
    }
    proof {
        lemma_fwd_is_evaluation(a);
    }
}

/// Forward negacyclic NTT, in place: for inputs below q, slot `i` ends up holding the
/// input polynomial evaluated at `root(i) = psi^(2·brv9(i)+1)`, reduced modulo q.
pub fn ntt(r: &mut [u32; N])
    requires
        forall|i: int| 0 <= i < 512 ==> old(r)[i] < 12289,
    ensures
        forall|i: int| 0 <= i < 512 ==> #[trigger] final(r)[i] as int == eval(ints(old(r)@), root(i)) % q(),
{
    let tw = Twiddles::new();
    ntt_with(r, &tw);
}

/// After a layer that agrees with `gs_layer(inv_layers_from(e, 0, n), n)` modulo q, the
/// array agrees with `inv_layers_from(e, 0, n + 1)`.
proof fn lemma_inv_step(r: Seq<u32>, prev: Seq<u32>, e: Seq<int>, n: nat)
    requires
        n <= 8,
        e.len() == 512,
        r.len() == 512,
        prev.len() == 512,
        scaled_cong(ints(prev), inv_layers_from(e, 0, n), 1),
        forall|i: int| 0 <= i < 512 ==> #[trigger] (r[i] as int) % q() == gs_coeff(ints(prev), n, i),
    ensures
        scaled_cong(ints(r), inv_layers_from(e, 0, n + 1), 1),
{
    lemma_inv_layers_from_len(e, 0, n);
    lemma_inv_layers_from_snoc(e, 0, n);
    lemma_gs_layer_cong(ints(prev), inv_layers_from(e, 0, n), n);
    let f = inv_layers_from(e, 0, n + 1);
    assert forall|i: int| 0 <= i < 512 implies #[trigger] ints(r)[i] % q() == (1 * f[i]) % q() by {
        assert(f[i] == gs_layer(ints(prev), n)[i]);
        lemma_mod_twice(gs_coeff(ints(prev), n, i), q());
    }
}

/// The first inverse layer (half-length 1), fully reducing, for inputs below q.
pub fn inv_ntt_first_level_with(r: &mut [u32; N], tw: &Twiddles)
    requires
        tw.wf(),
        forall|i: int| 0 <= i < 512 ==> old(r)[i] < 12289,
    ensures
        scaled_cong(ints(final(r)@), inv_layers_from(ints(old(r)@), 0, 1), 1),
        forall|i: int| 0 <= i < 512 ==> final(r)[i] < 12289,
{
    let ghost e = ints(r@);
    let ghost prev = r@;
    proof {
        lemma2_to64();
        assert forall|i: int| 0 <= i < 512 implies #[trigger] ints(prev)[i] % q() == (1 * e[i]) % q() by {}
    }
    gs_level(r, tw, 1, Ghost(0), Ghost(12288int));
    proof {
        lemma_inv_step(r@, prev, e, 0);
    }
}

/// Inverse layers with half-lengths 2 up to 128, leaving low halves unreduced.
pub fn inv_ntt_main_levels_with(r: &mut [u32; N], tw: &Twiddles, Ghost(e): Ghost<Seq<int>>)
    requires
        tw.wf(),
        e.len() == 512,
        scaled_cong(ints(old(r)@), inv_layers_from(e, 0, 1), 1),
        forall|i: int| 0 <= i < 512 ==> old(r)[i] <= 2 * 12289,
    ensures
        scaled_cong(ints(final(r)@), inv_layers_from(e, 0, 8), 1),
        forall|i: int| 0 <= i < 512 ==> final(r)[i] <= 256 * 12289,
{
    proof {
        lemma2_to64();
    }
    let mut len: usize = 2;
    let mut n: usize = 1;
    let ghost mut bound: int = 2 * 12289int;
    while len <= 128
        invariant
            tw.wf(),
            e.len() == 512,
            1 <= n <= 8,
            len == pow2(n as nat),
            bound == pow2(n as nat) * 12289 * 2 / 2,
            scaled_cong(ints(r@), inv_layers_from(e, 0, n as nat), 1),
            forall|i: int| 0 <= i < 512 ==> r[i] <= bound,
        decreases 256 - len,
    {
        proof {
            lemma2_to64();
            if n == 8 {
                assert(len == 256);
            }
        }
        let ghost prev = r@;
        gs_level_lazy(r, tw, len, Ghost(n as nat), Ghost(bound));
        proof {
            lemma_inv_step(r@, prev, e, n as nat);
            lemma_pow2_unfold((n + 1) as nat);
            bound = 2 * bound;
        }
        len = len * 2;
        n = n + 1;
    }
    proof {
        lemma2_to64();
    }
}

/// The last inverse layer (half-length 256), leaving low halves unreduced.
pub fn inv_ntt_last_level_with(r: &mut [u32; N], tw: &Twiddles, Ghost(e): Ghost<Seq<int>>)
    requires
        tw.wf(),
        e.len() == 512,
        scaled_cong(ints(old(r)@), inv_layers_from(e, 0, 8), 1),
        forall|i: int| 0 <= i < 512 ==> old(r)[i] <= 256 * 12289,
    ensures
        scaled_cong(ints(final(r)@), inv_layers(e), 1),
        forall|i: int| 0 <= i < 512 ==> final(r)[i] <= 512 * 12289,
{
    let ghost prev = r@;
    proof {
        lemma2_to64();
    }
    gs_level_lazy(r, tw, 256, Ghost(8), Ghost(256 * 12289int));
    proof {
        lemma_inv_step(r@, prev, e, 8);
    }
}

/// Inverse negacyclic NTT, in place, including the `1/512` scaling: for inputs below q,
/// the result is `512⁻¹ · inv_layers(input)` reduced modulo q.
pub fn inv_ntt(r: &mut [u32; N])
    requires
        forall|i: int| 0 <= i < 512 ==> old(r)[i] < 12289,
    ensures
        forall|i: int| 0 <= i < 512 ==> #[trigger] final(r)[i] as int == (n_inv() * inv_layers(ints(old(r)@))[i]) % q(),
        forall|i: int| 0 <= i < 512 ==> final(r)[i] < 12289,
{
    let tw = Twiddles::new();
    let ghost e = ints(r@);
    inv_ntt_first_level_with(r, &tw);
    inv_ntt_main_levels_with(r, &tw, Ghost(e));
    inv_ntt_last_level_with(r, &tw, Ghost(e));
    proof {
        lemma_inv_layers_from_len(e, 0, 9);
        assert forall|i: int| 0 <= i < 512 implies #[trigger] (r[i] as int) % q() == inv_layers(e)[i] % q() by {
            assert(ints(r@)[i] % q() == (1 * inv_layers(e)[i]) % q());
        }
    }
    let mut k: usize = 0;
    while k < N
        invariant
            e.len() == 512,
            k <= N,
            inv_layers(e).len() == 512,
            forall|i: int| k <= i < 512 ==> #[trigger] (r[i] as int) % q() == inv_layers(e)[i] % q(),
            forall|i: int| k <= i < 512 ==> r[i] <= 512 * 12289,
            forall|i: int| 0 <= i < k ==> #[trigger] r[i] as int == (n_inv() * inv_layers(e)[i]) % q(),
        decreases N - k,
    {
        let ghost v = r[k as int] as int;
        r[k] = ((r[k] as u64) * 12265 % 12289) as u32;
        proof {
            lemma_mul_mod_noop_right(12265, v, q());
            lemma_mul_mod_noop_right(12265, inv_layers(e)[k as int], q());
        }
        k += 1;
    }
}

/// First forward layer (half-length 256) read directly from signed coefficients,
/// followed by the layers with half-lengths 128 down to 2. Every slot of `r` is written.
pub fn ntt_main_levels_from_signed_with(r: &mut [u32; N], s2: &[i16; N], tw: &Twiddles)
    requires
        tw.wf(),
        forall|i: int| 0 <= i < 512 ==> -2047 <= #[trigger] s2[i] <= 2047,
    ensures
        scaled_cong(ints(final(r)@), fwd_layers(sints(s2@), 8), 1),
        forall|i: int| 0 <= i < 512 ==> final(r)[i] <= 1359175689 + 8 * 12289 + 2047,
{
    let ghost a = sints(s2@);
    let z = tw.zetas[1] as u64;
    proof {
        lemma2_to64();
        crate::modq::lemma_zeta_izeta(1);
        assert(a.len() == 512);
    }
    let mut j: usize = 0;
    while j < 256
        invariant
            tw.wf(),
            a == sints(s2@),
            a.len() == 512,
            forall|i: int| 0 <= i < 512 ==> -2047 <= #[trigger] s2[i] <= 2047,
            z == zeta(1),
            z < 12289,
            j <= 256,
            forall|i: int|
                (0 <= i < j || 256 <= i < 256 + j) ==> r[i] <= 2 * 12289 + 2047 && #[trigger] (
                r[i] as int) % q() == ct_coeff(a, 8, i),
        decreases 256 - j,
    {
        let r_lo = (s2[j] as i32 + 12289) as u64;
        let r_hi = (s2[j + 256] as i32 + 12289) as u64;
        assert(r_hi * z <= u64::MAX) by (nonlinear_arith)
            requires r_hi <= 14336, z < 12289;
        let t = r_hi * z % 12289;
        r[j] = (r_lo + t) as u32;
        r[j + 256] = (r_lo + 12289 - t) as u32;
        proof {
            let (li, hi, zi) = (a[j as int], a[j + 256], z as int);
            assert(r_lo as int == li + 12289 && r_hi as int == hi + 12289);
            lemma2_to64();
            assert(pow2(8) == 256);
            assert((j as int) / 512 == 0 && (j as int) % 512 == j);
            assert((j + 256) / 512 == 0 && (j + 256) % 512 == j + 256);
            assert((j + 256 - 256) as int == j);
            lemma_mul_mod_noop_right(zi, hi + 12289, 12289);
            lemma_mul_mod_noop_right(zi, hi, 12289);
            lemma_mod_add_multiples_vanish(hi, 12289);
            assert(r_hi * z == zi * (hi + 12289)) by (nonlinear_arith)
                requires r_hi as int == hi + 12289, z as int == zi;
            lemma_mod_add_multiples_vanish(li, 12289);
            lemma_add_mod_noop(li + 12289, (zi * hi) % 12289, 12289);
            lemma_add_mod_noop(li + 12289, zi * hi, 12289);
            lemma_mod_twice(zi * hi, 12289);
            lemma_add_mod_noop(li, zi * hi, 12289);
            lemma_mod_add_multiples_vanish(li + zi * hi, 12289);
            lemma_sub_mod_noop(li + 2 * 12289, (zi * hi) % 12289, 12289);
            lemma_sub_mod_noop(li + 2 * 12289, zi * hi, 12289);
            lemma_mod_multiples_vanish(2, li - zi * hi, 12289);
        }
        j += 1;
    }
    let ghost prev = r@;
    proof {
        assert forall|i: int| 0 <= i < 512 implies #[trigger] ints(prev)[i] % q() == (1 * fwd_layers(a, 1)[i])
            % q() by {
            assert(fwd_layers(a, 0) == a);
            assert(fwd_layers(a, 1)[i] == ct_layer(a, 8)[i]);
            lemma_mod_twice(ct_coeff(a, 8, i), q());
        }
    }
    ntt_levels_after_first(r, tw, Ghost(a));
}

/// Forward layers 256..2 from signed coefficients (see `ntt_main_levels_from_signed_with`).
pub fn ntt_main_levels_from_signed(r: &mut [u32; N], s2: &[i16; N])
    requires
        forall|i: int| 0 <= i < 512 ==> -2047 <= #[trigger] s2[i] <= 2047,
    ensures
        scaled_cong(ints(final(r)@), fwd_layers(sints(s2@), 8), 1),
        forall|i: int| 0 <= i < 512 ==> final(r)[i] <= 1359175689 + 8 * 12289 + 2047,
{
    let tw = Twiddles::new();
    ntt_main_levels_from_signed_with(r, s2, &tw);
}

/// Slot-wise product of a transform with a prepared key.
pub open spec fn pointwise(f: Seq<int>, h: Seq<u16>) -> Seq<int> {
    Seq::new(512, |i: int| f[i] * (h[i] as int))
}

/// Fused last forward layer, slot-wise product with `h_pk_ntt`, and first inverse layer,
/// in place over the pairs `(2i, 2i + 1)`.
#[verifier::spinoff_prover]
#[verifier::rlimit(40)]
pub fn fused_last_fwd_mul_first_inv_with(
    buf: &mut [u32; N],
    h_pk_ntt: &[u16; N],
    tw: &Twiddles,
    Ghost(a): Ghost<Seq<int>>,
)
    requires
        tw.wf(),
        a.len() == 512,
        scaled_cong(ints(old(buf)@), fwd_layers(a, 8), 1),
        forall|i: int| 0 <= i < 512 ==> old(buf)[i] <= 1359175689 + 8 * 12289 + 2047,
    ensures
        scaled_cong(
            ints(final(buf)@),
            inv_layers_from(pointwise(fwd_layers(a, 9), h_pk_ntt@), 0, 1),
            1,
        ),
        forall|i: int| 0 <= i < 256 ==> #[trigger] final(buf)[2 * i] < 2 * 12289 && final(buf)[2 * i + 1] < 12289,
        forall|i: int| 0 <= i < 512 ==> final(buf)[i] <= 2 * 12289,
{
    let ghost f8 = fwd_layers(a, 8);
    let ghost f9 = fwd_layers(a, 9);
    let ghost e = pointwise(f9, h_pk_ntt@);
    let ghost g = inv_layers_from(e, 0, 1);
    let ghost ob = ints(buf@);
    let t_offset: u64 = 26390426550272;
    proof {
        lemma2_to64();
        lemma_fwd_layers_len(a, 8);
        assert(g == gs_layer(e, 0)) by {
            assert(inv_layers_from(e, 0, 1) == inv_layers_from(gs_layer(e, 0), 1, 0));
        }
    }
    let mut i: usize = 0;
    while i < 256
        invariant
            tw.wf(),
            a.len() == 512,
            f8 == fwd_layers(a, 8),
            f9 == fwd_layers(a, 9),
            f8.len() == 512,
            e == pointwise(f9, h_pk_ntt@),
            g == gs_layer(e, 0),
            t_offset == 26390426550272,
            ob.len() == 512,
            scaled_cong(ob, f8, 1),
            forall|x: int| 0 <= x < 512 ==> ob[x] <= 1359175689 + 8 * 12289 + 2047,
            i <= 256,
            forall|x: int| 0 <= x < 2 * i ==> buf[x] <= 2 * 12289 && #[trigger] (buf[x] as int) % q() == g[x] % q(),
            forall|y: int| 0 <= y < i ==> #[trigger] buf[2 * y] < 2 * 12289 && buf[2 * y + 1] < 12289,
            forall|x: int| 2 * i <= x < 512 ==> #[trigger] buf[x] as int == ob[x],
        decreases 256 - i,
    {
        let pair = 2 * i;
        let z = tw.zetas[256 + i] as u64;
        let zi = tw.inv_zetas[256 + i] as u64;
        let prev_low = buf[pair] as u64;
        let prev_high = buf[pair + 1] as u64;
        proof {
            crate::modq::lemma_zeta_izeta(256 + i);
            assert(prev_high * z <= 16702784077824) by (nonlinear_arith)
                requires prev_high <= 1359276048, z <= 12288;
        }
        let t = prev_high * z;
        let s_low = prev_low + t;
        let s_high = prev_low + t_offset - t;
        let hl = h_pk_ntt[pair] as u64;
        let hh = h_pk_ntt[pair + 1] as u64;
        proof {
            assert(hl * s_low <= u64::MAX) by (nonlinear_arith)
                requires hl <= 65535, s_low <= 1359276048 + 16702784077824;
            assert(hh * s_high <= u64::MAX) by (nonlinear_arith)
                requires hh <= 65535, s_high <= 1359276048 + 26390426550272;
        }
        let p_low = hl * s_low % 12289;
        let p_high = hh * s_high % 12289;
        let new_low = p_low + p_high;
        assert((p_low + 12289 - p_high) * zi <= u64::MAX) by (nonlinear_arith)
            requires p_low < 12289, p_high < 12289, zi < 12289;
        let new_high = (p_low + 12289 - p_high) * zi % 12289;
        let ghost pb = buf@;
        buf[pair] = new_low as u32;
        buf[pair + 1] = new_high as u32;
        proof {
            assert forall|y: int| 0 <= y < i + 1 implies #[trigger] buf[2 * y] < 2 * 12289 && buf[2 * y + 1] < 12289 by {
                if y < i {
                    assert(buf[2 * y] == pb[2 * y] && buf[2 * y + 1] == pb[2 * y + 1]);
                }
            }
            let p = pair as int;
            let (ul, uh, zz, zin) = (ob[p], ob[p + 1], z as int, zi as int);
            let (hli, hhi) = (hl as int, hh as int);
            assert(ul % q() == f8[p] % q() && uh % q() == f8[p + 1] % q()) by {
                assert(ul % q() == (1 * f8[p]) % q());
                assert(uh % q() == (1 * f8[p + 1]) % q());
            }
            // The forward butterfly: f9[p] ≡ ul + z·uh and f9[p+1] ≡ ul − z·uh.
            lemma2_to64();
            assert(pow2(0) == 1);
            assert(p % 2 == 0 && p / 2 == i && (p + 1) % 2 == 1 && (p + 1) / 2 == i);
            assert(f9[p] == ct_coeff(f8, 0, p));
            assert(f9[p + 1] == ct_coeff(f8, 0, p + 1));
            lemma_mul_mod_noop_right(zz, uh, q());
            lemma_mul_mod_noop_right(zz, f8[p + 1], q());
            lemma_add_mod_noop(ul, zz * uh, q());
            lemma_add_mod_noop(f8[p], zz * f8[p + 1], q());
            lemma_sub_mod_noop(ul, zz * uh, q());
            lemma_sub_mod_noop(f8[p], zz * f8[p + 1], q());
            assert(t as int == zz * uh) by (nonlinear_arith)
                requires t == prev_high * z, prev_high as int == uh, z as int == zz;
            lemma_mod_twice(ul + zz * uh, q());
            lemma_mod_twice(ul - zz * uh, q());
            assert((zz * uh) % q() == (zz * f8[p + 1]) % q());
            assert((ul + zz * uh) % q() == (f8[p] + zz * f8[p + 1]) % q());
            assert(f9[p] == (f8[p] + zz * f8[p + 1]) % q());
            assert((s_low as int) == ul + zz * uh);
            assert((s_low as int) % q() == f9[p] % q());
            assert(26390426550272int == 12289 * 2147483648);
            lemma_mod_multiples_vanish(2147483648, ul - zz * uh, q());
            assert((s_high as int) % q() == f9[p + 1] % q());
            // The slot-wise products.
            lemma_mul_mod_noop_right(hli, s_low as int, q());
            lemma_mul_mod_noop_right(hli, f9[p], q());
            lemma_mul_mod_noop_right(hhi, s_high as int, q());
            lemma_mul_mod_noop_right(hhi, f9[p + 1], q());
            assert(e[p] == f9[p] * hli && e[p + 1] == f9[p + 1] * hhi);
            assert(hli * f9[p] == f9[p] * hli && hhi * f9[p + 1] == f9[p + 1] * hhi) by (nonlinear_arith);
            assert((p_low as int) == e[p] % q());
            assert((p_high as int) == e[p + 1] % q());
            // The inverse butterfly.
            assert(g[p] == gs_coeff(e, 0, p));
            assert(g[p + 1] == gs_coeff(e, 0, p + 1));
            lemma_add_mod_noop(e[p], e[p + 1], q());
            lemma_mod_twice(e[p] + e[p + 1], q());
            lemma_sub_mod_noop(e[p], e[p + 1], q());
            lemma_mod_add_multiples_vanish((p_low as int) - (p_high as int), q());
            lemma_mul_mod_noop_left((p_low as int) + 12289 - (p_high as int), zin, q());
            lemma_mul_mod_noop_left(e[p] - e[p + 1], zin, q());
            lemma_mod_twice((e[p] - e[p + 1]) * zin, q());
            assert forall|x: int| 2 * i + 2 <= x < 512 implies #[trigger] buf[x] as int == ob[x] by {}
        }
        i += 1;
    }
}

/// Fused forward-last / multiply / inverse-first step (see the `_with` variant).
pub fn fused_last_fwd_mul_first_inv(buf: &mut [u32; N], h_pk_ntt: &[u16; N], Ghost(a): Ghost<Seq<int>>)
    requires
        a.len() == 512,
        scaled_cong(ints(old(buf)@), fwd_layers(a, 8), 1),
        forall|i: int| 0 <= i < 512 ==> old(buf)[i] <= 1359175689 + 8 * 12289 + 2047,
    ensures
        scaled_cong(
            ints(final(buf)@),
            inv_layers_from(pointwise(fwd_layers(a, 9), h_pk_ntt@), 0, 1),
            1,
        ),
        forall|i: int| 0 <= i < 256 ==> #[trigger] final(buf)[2 * i] < 2 * 12289 && final(buf)[2 * i + 1] < 12289,
        forall|i: int| 0 <= i < 512 ==> final(buf)[i] <= 2 * 12289,
{
    let tw = Twiddles::new();
    fused_last_fwd_mul_first_inv_with(buf, h_pk_ntt, &tw, Ghost(a));
}

/// `|x|` for the representative of `x mod q` centred in `(−q/2, q/2]`.
pub open spec fn center_abs(x: int) -> int {
    let r = x % q();
    if r > 6144 {
        q() - r
    } else {
        r
    }
}

/// Contribution of slot `i` to the squared norm of `(c − p, s2)`.
pub open spec fn norm_term(c: Seq<int>, p: Seq<int>, s2: Seq<int>, i: int) -> int {
    center_abs(c[i] - p[i]) * center_abs(c[i] - p[i]) + s2[i] * s2[i]
}

/// `Σ_{i < n} norm_term(c, p, s2, i)`.
pub open spec fn norm_sum(c: Seq<int>, p: Seq<int>, s2: Seq<int>, n: int) -> int
    decreases n,
{
    if n <= 0 {
        0
    } else {
        norm_sum(c, p, s2, n - 1) + norm_term(c, p, s2, n - 1)
    }
}

/// The squared Euclidean norm of `(c − p mod q centred, s2)` over all 512 slots.
pub open spec fn sq_norm(c: Seq<int>, p: Seq<int>, s2: Seq<int>) -> int {
    norm_sum(c, p, s2, 512)
}

/// 16-bit words read as integers.
pub open spec fn u16_ints(s: Seq<u16>) -> Seq<int> {
    s.map_values(|x: u16| x as int)
}

/// Each norm term is bounded.
proof fn lemma_norm_term_bound(c: Seq<int>, p: Seq<int>, s2: Seq<int>, i: int)
    requires
        -32768 <= s2[i] <= 32767,
    ensures
        0 <= norm_term(c, p, s2, i) <= 1111490560,
{
    let a = center_abs(c[i] - p[i]);
    assert(0 <= a <= 6144);
    assert(0 <= a * a <= 6144 * 6144) by (nonlinear_arith)
        requires 0 <= a <= 6144;
    assert(0 <= s2[i] * s2[i] <= 32768 * 32768) by (nonlinear_arith)
        requires -32768 <= s2[i] <= 32767;
}

proof fn lemma_norm_sum_bound(c: Seq<int>, p: Seq<int>, s2: Seq<int>, n: int)
    requires
        0 <= n <= s2.len(),
        forall|i: int| 0 <= i < s2.len() ==> -32768 <= #[trigger] s2[i] <= 32767,
    ensures
        0 <= norm_sum(c, p, s2, n) <= n * 1111490560,
    decreases n,
{
    if n > 0 {
        lemma_norm_sum_bound(c, p, s2, n - 1);
        lemma_norm_term_bound(c, p, s2, n - 1);
        assert((n - 1) * 1111490560 + 1111490560 == n * 1111490560) by (nonlinear_arith);
    }
}

/// The last inverse layer (half-length 256), fused with the squared-norm accumulation:
/// returns whether `‖c − p‖² + ‖s2‖² <= bound`, where `p` is the completed inverse
/// transform, without writing `p` back.
pub fn last_level_fused_norm_with(
    buf: &[u32; N],
    c: &[u16; N],
    s2: &[i16; N],
    bound: u64,
    tw: &Twiddles,
    Ghost(e): Ghost<Seq<int>>,
) -> (ok: bool)
    requires
        tw.wf(),
        e.len() == 512,
        scaled_cong(ints(buf@), inv_layers_from(e, 0, 8), 1),
        forall|i: int| 0 <= i < 512 ==> buf[i] <= 256 * 12289,
    ensures
        ok == (sq_norm(u16_ints(c@), inv_layers(e), sints(s2@)) <= bound as int),
{
    let ghost b8 = inv_layers_from(e, 0, 8);
    let ghost p = inv_layers(e);
    let ghost (ci, si) = (u16_ints(c@), sints(s2@));
    let q64: u64 = 12289;
    let half_q: u64 = 6144;
    let zeta = tw.inv_zetas[1] as u64;
    let big_q: u64 = 103087603712;
    let lazy_offset: u64 = 256 * 12289;
    proof {
        lemma2_to64();
        crate::modq::lemma_zeta_izeta(1);
        lemma_inv_layers_from_len(e, 0, 8);
        lemma_inv_layers_from_snoc(e, 0, 8);
        assert(p == gs_layer(b8, 8));
    }
    let mut norm: u64 = 0;
    let mut j: usize = 0;
    while j < 256
        invariant
            tw.wf(),
            e.len() == 512,
            b8 == inv_layers_from(e, 0, 8),
            b8.len() == 512,
            p == gs_layer(b8, 8),
            ci == u16_ints(c@),
            si == sints(s2@),
            scaled_cong(ints(buf@), b8, 1),
            forall|i: int| 0 <= i < 512 ==> buf[i] <= 256 * 12289,
            zeta == izeta(1),
            zeta < 12289,
            q64 == 12289,
            half_q == 6144,
            big_q == 103087603712,
            lazy_offset == 256 * 12289,
            j <= 256,
            norm as int == norm_sum(ci, p, si, j as int) + norm_sum(ci, p, si, 256 + j) - norm_sum(
                ci,
                p,
                si,
                256,
            ),
            norm_sum(ci, p, si, j as int) <= j * 1111490560,
            norm_sum(ci, p, si, 256 + j) - norm_sum(ci, p, si, 256) <= j * 1111490560,
        decreases 256 - j,
    {
        let u = buf[j] as u64;
        let v = buf[j + 256] as u64;
        let new_lo = u + v;
        assert((u + lazy_offset - v) * zeta <= 512 * 12289 * 12289) by (nonlinear_arith)
            requires u <= 256 * 12289, v <= 256 * 12289, zeta < 12289, lazy_offset == 256 * 12289;
        let new_hi = (u + lazy_offset - v) * zeta;
        let raw_lo = (c[j] as u64 + big_q - new_lo) % q64;
        let raw_hi = (c[j + 256] as u64 + big_q - new_hi) % q64;
        let s1c_lo = if raw_lo > half_q { q64 - raw_lo } else { raw_lo };
        let s1c_hi = if raw_hi > half_q { q64 - raw_hi } else { raw_hi };
        let s2_lo = s2[j] as i64;
        let s2_hi = s2[j + 256] as i64;
        proof {
            let jj = j as int;
            let A = norm_sum(ci, p, si, jj);
            let B = norm_sum(ci, p, si, 256 + jj) - norm_sum(ci, p, si, 256);
            let (ui, vi, zi) = (u as int, v as int, zeta as int);
            lemma2_to64();
            assert(ints(buf@)[jj] == ui && ints(buf@)[jj + 256] == vi);
            assert(ui % q() == (1 * b8[jj]) % q());
            assert(vi % q() == (1 * b8[jj + 256]) % q());
            assert(pow2(8) == 256);
            assert(jj / 512 == 0 && jj % 512 == jj && (jj + 256) / 512 == 0 && (jj + 256) % 512 == jj + 256);
            assert((jj + 256 - 256) == jj);
            assert(p[jj] == gs_coeff(b8, 8, jj));
            assert(p[jj + 256] == gs_coeff(b8, 8, jj + 256));
            // low slot: new_lo ≡ p[j]
            lemma_add_mod_noop(ui, vi, q());
            lemma_add_mod_noop(b8[jj], b8[jj + 256], q());
            lemma_mod_twice(b8[jj] + b8[jj + 256], q());
            assert((new_lo as int) % q() == p[jj] % q());
            // high slot: new_hi ≡ p[j + 256]
            let d = ui + 256 * 12289 - vi;
            lemma_mod_multiples_vanish(256, ui - vi, q());
            lemma_sub_mod_noop(ui, vi, q());
            lemma_sub_mod_noop(b8[jj], b8[jj + 256], q());
            lemma_mul_mod_noop_left(d, zi, q());
            lemma_mul_mod_noop_left(b8[jj] - b8[jj + 256], zi, q());
            lemma_mod_twice((b8[jj] - b8[jj + 256]) * zi, q());
            assert((new_hi as int) % q() == p[jj + 256] % q());
            // the centred differences
            let cl = c[j as int] as int;
            let ch = c[j + 256] as int;
            assert(ci[jj] == cl && ci[jj + 256] == ch);
            lemma_mod_multiples_vanish(8388608, cl - (new_lo as int), q());
            lemma_mod_multiples_vanish(8388608, ch - (new_hi as int), q());
            assert(103087603712int == 12289 * 8388608);
            lemma_sub_mod_noop(cl, new_lo as int, q());
            lemma_sub_mod_noop(cl, p[jj], q());
            lemma_sub_mod_noop(ch, new_hi as int, q());
            lemma_sub_mod_noop(ch, p[jj + 256], q());
            assert(raw_lo as int == (cl - p[jj]) % q());
            assert(raw_hi as int == (ch - p[jj + 256]) % q());
            assert(s1c_lo as int == center_abs(ci[jj] - p[jj]));
            assert(s1c_hi as int == center_abs(ci[jj + 256] - p[jj + 256]));
            assert(si[jj] == s2_lo as int && si[jj + 256] == s2_hi as int);
            lemma_norm_term_bound(ci, p, si, jj);
            lemma_norm_term_bound(ci, p, si, jj + 256);
            assert(norm_sum(ci, p, si, jj + 1) == norm_sum(ci, p, si, jj) + norm_term(ci, p, si, jj));
            assert(norm_sum(ci, p, si, 256 + jj + 1) == norm_sum(ci, p, si, 256 + jj) + norm_term(ci, p, si, 256 + jj));
            assert(s1c_lo * s1c_lo + s1c_hi * s1c_hi <= 2 * 6144 * 6144) by (nonlinear_arith)
                requires s1c_lo <= 6144, s1c_hi <= 6144;
            assert(s2_lo * s2_lo + s2_hi * s2_hi <= 2 * 32768 * 32768) by (nonlinear_arith)
                requires -32768 <= s2_lo <= 32767, -32768 <= s2_hi <= 32767;
            assert(0 <= s2_lo * s2_lo + s2_hi * s2_hi) by (nonlinear_arith);
            assert(norm as int <= 2 * j * 1111490560) by (nonlinear_arith)
                requires
                    norm as int == A + B,
                    A <= j * 1111490560,
                    B <= j * 1111490560;
            assert(norm <= 256 * 2 * 1111490560) by (nonlinear_arith)
                requires norm as int <= 2 * j * 1111490560, j <= 256;
        }
        assert(s1c_lo * s1c_lo <= 6144 * 6144 && s1c_hi * s1c_hi <= 6144 * 6144) by (nonlinear_arith)
            requires s1c_lo <= 6144, s1c_hi <= 6144;
        let add1 = s1c_lo * s1c_lo + s1c_hi * s1c_hi;
        assert(0 <= s2_lo * s2_lo <= 32768 * 32768 && 0 <= s2_hi * s2_hi <= 32768 * 32768) by (nonlinear_arith)
            requires -32768 <= s2_lo <= 32767, -32768 <= s2_hi <= 32767;
        let add2 = (s2_lo * s2_lo + s2_hi * s2_hi) as u64;
        assert(norm <= 569083166720u64);
        assert(add1 <= 75497472u64);
        assert(add2 <= 2147483648u64);
        norm += add1;
        norm += add2;
        j += 1;
    }
    norm <= bound
}


/// The transform that `ntt` computes: slot `i` is `a(root(i)) mod q`.
pub open spec fn ntt_spec(a: Seq<int>) -> Seq<int> {
    Seq::new(512, |i: int| eval(a, root(i)) % q())
}

/// The transform that `inv_ntt` computes.
pub open spec fn inv_ntt_spec(f: Seq<int>) -> Seq<int> {
    Seq::new(512, |i: int| (n_inv() * inv_layers(f)[i]) % q())
}

/// Slot-wise product mod q.
pub open spec fn mul_mod(f: Seq<int>, g: Seq<int>) -> Seq<int> {
    Seq::new(512, |j: int| (f[j] * g[j]) % q())
}

/// Every coefficient reduced mod q.
pub open spec fn reduce(a: Seq<int>) -> Seq<int> {
    Seq::new(512, |j: int| a[j] % q())
}

proof fn lemma_ntt_spec_cong(a: Seq<int>)
    requires
        a.len() == 512,
    ensures
        scaled_cong(ntt_spec(a), fwd_layers(a, 9), 1),
{
    lemma_fwd_is_evaluation(a);
    lemma_fwd_layers_len(a, 9);
    assert forall|i: int| 0 <= i < 512 implies #[trigger] ntt_spec(a)[i] % q() == (1 * fwd_layers(a, 9)[i]) % q() by {
        lemma_mod_twice(eval(a, root(i)), q());
    }
}

/// The inverse transform undoes the forward one: `inv_ntt(ntt(a)) == a` for every
/// polynomial with coefficients below q.
pub proof fn lemma_ntt_round_trip(a: Seq<int>)
    requires
        a.len() == 512,
        forall|i: int| 0 <= i < 512 ==> 0 <= #[trigger] a[i] < q(),
    ensures
        inv_ntt_spec(ntt_spec(a)) == a,
{
    let f = ntt_spec(a);
    let fa = fwd_layers(a, 9);
    lemma_ntt_spec_cong(a);
    lemma_fwd_layers_len(a, 9);
    lemma_inv_layers_from_scaled(f, fa, 1, 0, 9);
    lemma_inv_fwd_layers(a, 9);
    lemma2_to64();
    lemma_scaled_cong_trans(inv_layers(f), inv_layers(fa), a, 1, 512);
    assert forall|i: int| 0 <= i < 512 implies #[trigger] inv_ntt_spec(f)[i] == a[i] by {
        let x = inv_layers(f)[i];
        assert(x % q() == (512 * a[i]) % q());
        lemma_mul_mod_noop_right(n_inv(), x, q());
        lemma_mul_mod_noop_right(n_inv(), 512 * a[i], q());
        lemma_mul_is_associative(n_inv(), 512, a[i]);
        lemma_mul_mod_noop_left(n_inv() * 512, a[i], q());
        assert((n_inv() * 512) % q() == 1);
        lemma_small_mod(a[i] as nat, q() as nat);
    }
    assert(inv_ntt_spec(f) =~= a);
}

/// The forward transform undoes the inverse one: `ntt(inv_ntt(f)) == f` for every
/// transform with slots below q.
pub proof fn lemma_ntt_round_trip_inverse(f: Seq<int>)
    requires
        f.len() == 512,
        forall|i: int| 0 <= i < 512 ==> 0 <= #[trigger] f[i] < q(),
    ensures
        ntt_spec(inv_ntt_spec(f)) == f,
{
    let x = inv_layers(f);
    let g = inv_ntt_spec(f);
    lemma_inv_layers_from_len(f, 0, 9);
    assert(scaled_cong(g, x, n_inv())) by {
        assert forall|i: int| 0 <= i < 512 implies #[trigger] g[i] % q() == (n_inv() * x[i]) % q() by {
            lemma_mod_twice(n_inv() * x[i], q());
        }
    }
    lemma_fwd_layers_scaled(g, x, n_inv(), 9);
    lemma_fwd_inv_layers(f, 9);
    lemma2_to64();
    assert(inv_layers_from(f, 0, 0) == f);
    lemma_ntt_spec_cong(g);
    assert forall|i: int| 0 <= i < 512 implies #[trigger] ntt_spec(g)[i] == f[i] by {
        let fg = fwd_layers(g, 9)[i];
        let fx = fwd_layers(x, 9)[i];
        assert(ntt_spec(g)[i] % q() == (1 * fg) % q());
        assert(fg % q() == (n_inv() * fx) % q());
        assert(fx % q() == (512 * f[i]) % q());
        lemma_mul_mod_noop_right(n_inv(), fx, q());
        lemma_mul_mod_noop_right(n_inv(), 512 * f[i], q());
        lemma_mul_is_associative(n_inv(), 512, f[i]);
        lemma_mul_mod_noop_left(n_inv() * 512, f[i], q());
        assert((n_inv() * 512) % q() == 1);
        lemma_small_mod(f[i] as nat, q() as nat);
        lemma_mod_twice(eval(g, root(i)), q());
    }
    assert(ntt_spec(g) =~= f);
}

/// Multiplying slot by slot between two forward transforms, then transforming back,
/// is the product in `Z_q[x]/(x^512 + 1)`.
pub proof fn lemma_ntt_mul(a: Seq<int>, b: Seq<int>)
    requires
        a.len() == 512,
        b.len() == 512,
    ensures
        inv_ntt_spec(mul_mod(ntt_spec(a), ntt_spec(b))) == reduce(negacyclic_mul(a, b)),
{
    let (fa, fb) = (ntt_spec(a), ntt_spec(b));
    let prod = mul_mod(fa, fb);
    let hp = Seq::new(512, |j: int| n_inv() * fwd_layers(b, 9)[j]);
    let e = Seq::new(512, |j: int| n_inv() * prod[j]);
    lemma_ntt_spec_cong(a);
    lemma_ntt_spec_cong(b);
    lemma_fwd_layers_len(a, 9);
    lemma_fwd_layers_len(b, 9);
    assert forall|i: int| 0 <= i < 512 implies #[trigger] hp[i] % q() == (n_inv() * fwd_layers(b, 9)[i]) % q() by {}
    assert forall|i: int| 0 <= i < 512 implies #[trigger] e[i] % q() == (fwd_layers(a, 9)[i] * hp[i]) % q() by {
        let (x, y, z) = (fwd_layers(a, 9)[i], fwd_layers(b, 9)[i], n_inv());
        assert(fa[i] % q() == x % q() && fb[i] % q() == y % q());
        lemma_mul_mod_noop(fa[i], fb[i], q());
        lemma_mul_mod_noop(x, y, q());
        assert(prod[i] == (x * y) % q());
        lemma_mul_mod_noop_right(z, x * y, q());
        assert(e[i] % q() == (z * (x * y)) % q());
        assert(z * (x * y) == x * (z * y)) by (nonlinear_arith);
    }
    lemma_ntt_product(a, b, hp, e);
    assert(scaled_cong(e, prod, n_inv()));
    lemma_inv_layers_from_scaled(e, prod, n_inv(), 0, 9);
    assert forall|i: int| 0 <= i < 512 implies #[trigger] inv_ntt_spec(prod)[i] == reduce(negacyclic_mul(a, b))[i] by {
        assert(inv_layers(e)[i] % q() == (n_inv() * inv_layers(prod)[i]) % q());
        assert(inv_layers(e)[i] % q() == (1 * negacyclic_mul(a, b)[i]) % q());
    }
    assert(inv_ntt_spec(prod) =~= reduce(negacyclic_mul(a, b)));
}


/// The first inverse layer (half-length 1), fully reducing, for inputs below q.
pub fn inv_ntt_first_level(r: &mut [u32; N])
    requires
        forall|i: int| 0 <= i < 512 ==> old(r)[i] < 12289,
    ensures
        scaled_cong(ints(final(r)@), inv_layers_from(ints(old(r)@), 0, 1), 1),
        forall|i: int| 0 <= i < 512 ==> final(r)[i] < 12289,
{
    let tw = Twiddles::new();
    inv_ntt_first_level_with(r, &tw);
}

/// Inverse layers with half-lengths 2 up to 128, leaving low halves unreduced.
pub fn inv_ntt_main_levels(r: &mut [u32; N], Ghost(e): Ghost<Seq<int>>)
    requires
        e.len() == 512,
        scaled_cong(ints(old(r)@), inv_layers_from(e, 0, 1), 1),
        forall|i: int| 0 <= i < 512 ==> old(r)[i] <= 2 * 12289,
    ensures
        scaled_cong(ints(final(r)@), inv_layers_from(e, 0, 8), 1),
        forall|i: int| 0 <= i < 512 ==> final(r)[i] <= 256 * 12289,
{
    let tw = Twiddles::new();
    inv_ntt_main_levels_with(r, &tw, Ghost(e));
}

/// The last inverse layer (half-length 256), leaving low halves unreduced.
pub fn inv_ntt_last_level(r: &mut [u32; N], Ghost(e): Ghost<Seq<int>>)
    requires
        e.len() == 512,
        scaled_cong(ints(old(r)@), inv_layers_from(e, 0, 8), 1),
        forall|i: int| 0 <= i < 512 ==> old(r)[i] <= 256 * 12289,
    ensures
        scaled_cong(ints(final(r)@), inv_layers(e), 1),
        forall|i: int| 0 <= i < 512 ==> final(r)[i] <= 512 * 12289,
{
    let tw = Twiddles::new();
    inv_ntt_last_level_with(r, &tw, Ghost(e));
}

/// The last inverse layer fused with the squared norm of `(c - p, s2)`, where `p` is
/// the product that the inverse transform yields; `true` exactly when the norm is at
/// most `bound`.
pub fn last_level_fused_norm(
    buf: &[u32; N],
    c: &[u16; N],
    s2: &[i16; N],
    bound: u64,
    Ghost(e): Ghost<Seq<int>>,
) -> (ok: bool)
    requires
        e.len() == 512,
        scaled_cong(ints(buf@), inv_layers_from(e, 0, 8), 1),
        forall|i: int| 0 <= i < 512 ==> buf[i] <= 256 * 12289,
    ensures
        ok == (sq_norm(u16_ints(c@), inv_layers(e), sints(s2@)) <= bound as int),
{
    let tw = Twiddles::new();
    last_level_fused_norm_with(buf, c, s2, bound, &tw, Ghost(e))
}


/// From `y ≡ (k·2^n)·x` with `k·2^n ≡ 1`, the congruence `x ≡ y`.
proof fn lemma_unscale(x: Seq<int>, y: Seq<int>, m: int)
    requires
        scaled_cong(y, x, m),
        m % q() == 1,
    ensures
        scaled_cong(x, y, 1),
{
    assert forall|i: int| 0 <= i < x.len() implies #[trigger] x[i] % q() == (1 * y[i]) % q() by {
        lemma_mul_mod_noop_left(m, x[i], q());
    }
}

/// Every buffer is the first eight forward layers of some polynomial, modulo q: the
/// witness that `fused_last_fwd_mul_first_inv` asks for exists for any input.
pub proof fn lemma_fused_witness(buf: Seq<u32>)
    requires
        buf.len() == 512,
    ensures
        exists|a: Seq<int>| a.len() == 512 && scaled_cong(ints(buf), fwd_layers(a, 8), 1),
{
    let x = ints(buf);
    let b = inv_layers_from(x, 1, 8);
    lemma_inv_layers_from_len(x, 1, 8);
    let a = Seq::new(512, |i: int| 12241 * b[i]);
    assert(scaled_cong(a, b, 12241));
    lemma_fwd_layers_scaled(a, b, 12241, 8);
    lemma_fwd_inv_from(x, 8);
    lemma2_to64();
    lemma_scaled_cong_trans(fwd_layers(a, 8), fwd_layers(b, 8), x, 12241, pow2(8) as int);
    lemma_unscale(x, fwd_layers(a, 8), 12241int * 256);
}

/// Every buffer is the first `n` inverse layers (`n` is 1 or 8) of some array, modulo
/// q: the witness that `inv_ntt_main_levels`, `inv_ntt_last_level` and
/// `last_level_fused_norm` ask for exists for any input.
pub proof fn lemma_inv_levels_witness(buf: Seq<u32>, n: nat)
    requires
        buf.len() == 512,
        n == 1 || n == 8,
    ensures
        exists|e: Seq<int>| e.len() == 512 && scaled_cong(ints(buf), inv_layers_from(e, 0, n), 1),
{
    let x = ints(buf);
    let k: int = if n == 1 { 6145 } else { 12241 };
    let fb = fwd_below(x, n);
    lemma_fwd_below_len(x, n);
    let e = Seq::new(512, |i: int| k * fb[i]);
    assert(scaled_cong(e, fb, k));
    lemma_inv_layers_from_scaled(e, fb, k, 0, n);
    lemma_inv_fwd_below(x, n);
    lemma2_to64();
    lemma_scaled_cong_trans(inv_layers_from(e, 0, n), inv_layers_from(fb, 0, n), x, k, pow2(n) as int);
    lemma_unscale(x, inv_layers_from(e, 0, n), k * pow2(n) as int);
    assert(e.len() == 512);
}

} // verus!
