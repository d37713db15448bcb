//! The negacyclic number-theoretic transform over `Z_q[x]/(x^512 + 1)`, as
//! mathematics: Cooley–Tukey and Gentleman–Sande layers, the evaluation
//! meaning of the forward transform, and the inversion of one by the other.
use vstd::prelude::*;
use vstd::arithmetic::power::*;
use vstd::arithmetic::power2::*;
use vstd::arithmetic::div_mod::*;
use vstd::arithmetic::mul::*;
use crate::modq::{q, zeta, izeta, root, n_inv, lemma_root_pow_block, lemma_block_twiddle_index, lemma_zeta_izeta, lemma_root_is_negacyclic};
use crate::poly::{eval, negacyclic_mul, lemma_eval_split, lemma_eval_combo, lemma_eval_negacyclic};

verus! {

/// Coefficients `[m·len, (m+1)·len)` of `b`.
pub open spec fn block(b: Seq<int>, m: int, len: int) -> Seq<int> {
    b.subrange(m * len, m * len + len)
}

/// Output `i` of the Cooley–Tukey layer with half-block length `2^s`: blocks of length
/// `2^(s+1)` are split with the block's twiddle `z` as `(lo + z·hi, lo − z·hi)`.
pub open spec fn ct_coeff(b: Seq<int>, s: nat, i: int) -> int {
    let l = pow2(s) as int;
    let z = zeta(256int / l + i / (2 * l));
    if i % (2 * l) < l {
        (b[i] + z * b[i + l]) % q()
    } else {
        (b[i - l] - z * b[i]) % q()
    }
}

pub open spec fn ct_layer(b: Seq<int>, s: nat) -> Seq<int> {
    Seq::new(512, |i: int| ct_coeff(b, s, i))
}

/// The first `n` forward layers, with half-block lengths `256, 128, …, 2^(9-n)`.
pub open spec fn fwd_layers(a: Seq<int>, n: nat) -> Seq<int>
    decreases n,
{
    if n == 0 {
        a
    } else {
        ct_layer(fwd_layers(a, (n - 1) as nat), (9 - n) as nat)
    }
}

/// Every block of length `2^s` in `b`, read as a polynomial, agrees with `a` at the
/// roots of the slots it covers.
pub open spec fn evals_match(a: Seq<int>, b: Seq<int>, s: nat) -> bool {
    forall|i: int|
        0 <= i < 512 ==> #[trigger] eval(block(b, i / (pow2(s) as int), pow2(s) as int), root(i))
            % q() == eval(a, root(i)) % q()
}

/// Position arithmetic inside a block pair: slot `m'·l + t` of the half-block `m'`
/// sits at offset `(m' % 2)·l + t` of the double block `m'/2`.
pub proof fn lemma_block_position(mp: int, l: int, t: int)
    requires
        l > 0,
        mp >= 0,
        0 <= t < l,
    ensures
        (mp * l + t) / (2 * l) == mp / 2,
        (mp * l + t) % (2 * l) == (mp % 2) * l + t,
        (mp / 2) * (2 * l) + (mp % 2) * l + t == mp * l + t,
{
    let m = mp / 2;
    let h = mp % 2;
    assert(mp == 2 * m + h);
    assert(mp * l + t == m * (2 * l) + (h * l + t)) by (nonlinear_arith)
        requires mp == 2 * m + h;
    assert(0 <= h * l + t < 2 * l) by (nonlinear_arith)
        requires 0 <= h <= 1, 0 <= t < l;
    lemma_fundamental_div_mod_converse(mp * l + t, 2 * l, m, h * l + t);
}

/// One Cooley–Tukey layer refines the evaluation invariant from blocks of length
/// `2^(s+1)` to blocks of length `2^s`.
pub proof fn lemma_ct_layer_evals(a: Seq<int>, b: Seq<int>, s: nat)
    requires
        b.len() == 512,
        s <= 8,
        evals_match(a, b, s + 1),
    ensures
        evals_match(a, ct_layer(b, s), s),
{
    let l = pow2(s) as int;
    let c = ct_layer(b, s);
    lemma_pow2_pos(s);
    lemma_pow2_unfold(s + 1);
    assert forall|i: int| 0 <= i < 512 implies #[trigger] eval(block(c, i / l, l), root(i)) % q()
        == eval(a, root(i)) % q() by {
        let mp = i / l;
        let m = i / (2 * l);
        let h = mp % 2;
        let x = root(i);
        let k = 256int / l + i / (2 * l);
        let z = zeta(k);
        lemma_div_denominator(i, l, 2);
        assert(m == mp / 2) by {
            assert(l * 2 == 2 * l);
        }
        lemma_div_pos_is_pos(i, l);
        lemma_block_twiddle_index(i, s);
        assert(mp * l <= i) by {
            lemma_fundamental_div_mod(i, l);
            lemma_mod_pos_bound(i, l);
        }
        assert(2 * l * m <= i) by {
            lemma_fundamental_div_mod(i, 2 * l);
            lemma_mod_pos_bound(i, 2 * l);
        }
        assert(i < 2 * l * m + 2 * l) by {
            lemma_fundamental_div_mod(i, 2 * l);
            lemma_mod_pos_bound(i, 2 * l);
        }
        assert(m * (2 * l) + 2 * l <= 512) by {
            lemma_pow2_unfold(s + 1);
            lemma_block_twiddle_index(i, s);
            assert(256int / l == pow2((8 - s) as nat));
            lemma2_to64();
            lemma_pow2_adds(s, (8 - s) as nat);
            assert(m < pow2((8 - s) as nat));
            assert(m * (2 * l) + 2 * l == (m + 1) * (2 * l)) by (nonlinear_arith);
            assert((m + 1) * (2 * l) <= pow2((8 - s) as nat) * (2 * l)) by (nonlinear_arith)
                requires m + 1 <= pow2((8 - s) as nat), l > 0;
            assert(pow2((8 - s) as nat) * (2 * l) == 2 * (l * pow2((8 - s) as nat))) by (nonlinear_arith);
        }
        assert(mp * l + l <= 512) by {
            assert(mp <= 2 * m + 1);
            assert(mp * l + l <= (2 * m + 1) * l + l) by (nonlinear_arith)
                requires mp <= 2 * m + 1, l > 0;
            assert((2 * m + 1) * l + l == m * (2 * l) + 2 * l) by (nonlinear_arith);
        }
        let p = block(b, m, 2 * l);
        let lo = p.subrange(0, l);
        let hi = p.subrange(l, 2 * l);
        let nb = block(c, mp, l);
        let sigma = if h == 0 { z } else { -z };
        assert forall|t: int| 0 <= t < l implies #[trigger] nb[t] % q() == (lo[t] + sigma * hi[t])
            % q() by {
            lemma_block_position(mp, l, t);
            assert(mp * l + t == m * (2 * l) + h * l + t);
            assert(0 <= mp * l + t < 512);
            assert(nb[t] == ct_coeff(b, s, mp * l + t));
            assert(lo[t] == b[m * (2 * l) + t]);
            assert(hi[t] == b[m * (2 * l) + l + t]);
            lemma_mod_twice(lo[t] + sigma * hi[t], q());
            if h != 0 {
                assert(sigma * hi[t] == -(z * hi[t])) by (nonlinear_arith)
                    requires sigma == -z;
            }
        }
        lemma_eval_combo(nb, lo, hi, sigma, x);
        lemma_eval_split(p, l as nat, x);
        assert(p.subrange(0, l) == lo);
        assert(p.subrange(l, p.len() as int) == hi);
        let pw = pow(x, l as nat);
        let eh = eval(hi, x);
        lemma_root_pow_block(i, s);
        assert(pw % q() == sigma % q()) by {
            if h != 0 {
                lemma_mod_twice(-z, q());
                assert((q() - z) % q() == (-z) % q()) by {
                    lemma_mod_add_multiples_vanish(-z, q());
                }
            }
        }
        lemma_mul_mod_noop_left(pw, eh, q());
        lemma_mul_mod_noop_left(sigma, eh, q());
        lemma_add_mod_noop(eval(lo, x), pw * eh, q());
        lemma_add_mod_noop(eval(lo, x), sigma * eh, q());
        assert(i / (2 * l) == i / (pow2(s + 1) as int));
    }
}

pub proof fn lemma_fwd_layers_len(a: Seq<int>, n: nat)
    requires
        a.len() == 512,
    ensures
        fwd_layers(a, n).len() == 512,
{
    if n > 0 {
        assert(fwd_layers(a, n).len() == 512);
    }
}

/// After `n` forward layers, blocks of length `2^(9-n)` agree with `a` at their roots.
pub proof fn lemma_fwd_layers_evals(a: Seq<int>, n: nat)
    requires
        a.len() == 512,
        n <= 9,
    ensures
        evals_match(a, fwd_layers(a, n), (9 - n) as nat),
    decreases n,
{
    if n == 0 {
        lemma2_to64();
        assert forall|i: int| 0 <= i < 512 implies #[trigger] eval(
            block(a, i / (pow2(9) as int), pow2(9) as int),
            root(i),
        ) % q() == eval(a, root(i)) % q() by {
            assert(i / 512 == 0);
            assert(block(a, 0, 512) =~= a);
        }
    } else {
        lemma_fwd_layers_evals(a, (n - 1) as nat);
        lemma_fwd_layers_len(a, (n - 1) as nat);
        lemma_ct_layer_evals(a, fwd_layers(a, (n - 1) as nat), (9 - n) as nat);
    }
}

/// The full forward transform evaluates `a` at the root of each slot.
pub proof fn lemma_fwd_is_evaluation(a: Seq<int>)
    requires
        a.len() == 512,
    ensures
        forall|i: int| 0 <= i < 512 ==> #[trigger] fwd_layers(a, 9)[i] % q() == eval(a, root(i)) % q(),
{
    lemma_fwd_layers_evals(a, 9);
    lemma_fwd_layers_len(a, 9);
    let b = fwd_layers(a, 9);
    assert forall|i: int| 0 <= i < 512 implies #[trigger] b[i] % q() == eval(a, root(i)) % q() by {
        lemma2_to64();
        assert(i / (pow2(0) as int) == i);
        let bl = block(b, i, 1);
        assert(bl.len() == 1);
        assert(bl[0] == b[i]);
        assert(bl.drop_first().len() == 0);
        assert(eval(bl.drop_first(), root(i)) == 0);
        assert(eval(bl, root(i)) == b[i] + root(i) * 0);
    }
}

/// Output `i` of the Gentleman–Sande layer with half-block length `2^s`: each block of
/// length `2^(s+1)` with twiddle `z` is merged as `(lo + hi, (lo − hi)·z⁻¹)`.
pub open spec fn gs_coeff(b: Seq<int>, s: nat, i: int) -> int {
    let l = pow2(s) as int;
    let zi = izeta(256int / l + i / (2 * l));
    if i % (2 * l) < l {
        (b[i] + b[i + l]) % q()
    } else {
        ((b[i - l] - b[i]) * zi) % q()
    }
}

pub open spec fn gs_layer(b: Seq<int>, s: nat) -> Seq<int> {
    Seq::new(512, |i: int| gs_coeff(b, s, i))
}

/// The inverse layers with half-block lengths `2^s0, 2^(s0+1), …` (`cnt` of them).
pub open spec fn inv_layers_from(b: Seq<int>, s0: nat, cnt: nat) -> Seq<int>
    decreases cnt,
{
    if cnt == 0 {
        b
    } else {
        inv_layers_from(gs_layer(b, s0), s0 + 1, (cnt - 1) as nat)
    }
}

/// `x ≡ k·y` coefficient-wise modulo q.
pub open spec fn scaled_cong(x: Seq<int>, y: Seq<int>, k: int) -> bool {
    x.len() == y.len() && forall|i: int| 0 <= i < x.len() ==> #[trigger] x[i] % q() == (k * y[i]) % q()
}

/// Where slot `i` sits in its block of length `2l`.
pub proof fn lemma_slot_in_block(i: int, l: int)
    requires
        0 <= i,
        l > 0,
    ensures
        i % (2 * l) < l ==> (i + l) / (2 * l) == i / (2 * l) && (i + l) % (2 * l) == i % (2 * l) + l,
        i % (2 * l) >= l ==> i >= l && (i - l) / (2 * l) == i / (2 * l) && (i - l) % (2 * l) == i % (2
            * l) - l,
{
    let m = i / (2 * l);
    let o = i % (2 * l);
    lemma_fundamental_div_mod(i, 2 * l);
    lemma_mod_pos_bound(i, 2 * l);
    lemma_div_pos_is_pos(i, 2 * l);
    if o < l {
        lemma_fundamental_div_mod_converse(i + l, 2 * l, m, o + l);
    } else {
        assert(i >= l) by (nonlinear_arith)
            requires i == 2 * l * m + o, m >= 0, o >= l, l > 0;
        lemma_fundamental_div_mod_converse(i - l, 2 * l, m, o - l);
    }
}

/// A Gentleman–Sande layer undoes the Cooley–Tukey layer of the same length, up to a
/// factor 2.
pub proof fn lemma_gs_ct_layer(f: Seq<int>, s: nat)
    requires
        f.len() == 512,
        s <= 8,
    ensures
        scaled_cong(gs_layer(ct_layer(f, s), s), f, 2),
{
    let c = ct_layer(f, s);
    let g = gs_layer(c, s);
    let l = pow2(s) as int;
    lemma_pow2_pos(s);
    assert forall|i: int| 0 <= i < 512 implies #[trigger] g[i] % q() == (2 * f[i]) % q() by {
        let k = 256int / l + i / (2 * l);
        let z = zeta(k);
        let zi = izeta(k);
        lemma_slot_in_block(i, l);
        lemma_block_twiddle_index(i, s);
        lemma_zeta_izeta(k);
        if i % (2 * l) < l {
            assert(i + l < 512) by {
                lemma_block_position_bound(i, s);
            }
            assert(c[i] == (f[i] + z * f[i + l]) % q());
            assert(c[i + l] == (f[i] - z * f[i + l]) % q());
            lemma_add_mod_noop(f[i] + z * f[i + l], f[i] - z * f[i + l], q());
        } else {
            assert(c[i - l] == (f[i - l] + z * f[i]) % q());
            assert(c[i] == (f[i - l] - z * f[i]) % q());
            let d = c[i - l] - c[i];
            lemma_sub_mod_noop(f[i - l] + z * f[i], f[i - l] - z * f[i], q());
            assert(d % q() == (2 * z * f[i]) % q()) by {
                assert((f[i - l] + z * f[i]) - (f[i - l] - z * f[i]) == 2 * z * f[i]) by (nonlinear_arith);
                lemma_mod_twice(d, q());
            }
            lemma_mul_mod_noop_left(d, zi, q());
            lemma_mul_mod_noop_left(2 * z * f[i], zi, q());
            assert((2 * z * f[i]) * zi == (z * zi) * (2 * f[i])) by (nonlinear_arith);
            lemma_mul_mod_noop_left(z * zi, 2 * f[i], q());
        }
    }
}

/// In a block of length `2l` inside 512 slots, the partner of a low slot is in range.
pub proof fn lemma_block_position_bound(i: int, s: nat)
    requires
        0 <= i < 512,
        s <= 8,
        i % (2 * (pow2(s) as int)) < pow2(s) as int,
    ensures
        i + pow2(s) < 512,
{
    let l = pow2(s) as int;
    lemma_pow2_pos(s);
    lemma_block_twiddle_index(i, s);
    lemma2_to64();
    lemma_pow2_adds(s, (8 - s) as nat);
    let m = i / (2 * l);
    lemma_fundamental_div_mod(i, 2 * l);
    assert(m < pow2((8 - s) as nat));
    assert(i + l < 2 * l * m + 2 * l) by (nonlinear_arith)
        requires i == 2 * l * m + i % (2 * l), i % (2 * l) < l;
    assert(2 * l * m + 2 * l <= 512) by (nonlinear_arith)
        requires m + 1 <= pow2((8 - s) as nat), l > 0, l * pow2((8 - s) as nat) == 256;
}

/// A Gentleman–Sande layer is linear modulo q.
pub proof fn lemma_gs_layer_scaled(x: Seq<int>, y: Seq<int>, k: int, s: nat)
    requires
        x.len() == 512,
        s <= 8,
        scaled_cong(x, y, k),
    ensures
        scaled_cong(gs_layer(x, s), gs_layer(y, s), k),
{
    let l = pow2(s) as int;
    lemma_pow2_pos(s);
    assert forall|i: int| 0 <= i < 512 implies #[trigger] gs_layer(x, s)[i] % q() == (k * gs_layer(
        y,
        s,
    )[i]) % q() by {
        let zi = izeta(256int / l + i / (2 * l));
        lemma_slot_in_block(i, l);
        if i % (2 * l) < l {
            lemma_block_position_bound(i, s);
            lemma_add_mod_noop(x[i], x[i + l], q());
            lemma_add_mod_noop(k * y[i], k * y[i + l], q());
            lemma_mod_twice(x[i] + x[i + l], q());
            lemma_mul_mod_noop_right(k, y[i] + y[i + l], q());
            assert(k * y[i] + k * y[i + l] == k * (y[i] + y[i + l])) by (nonlinear_arith);
        } else {
            lemma_sub_mod_noop(x[i - l], x[i], q());
            lemma_sub_mod_noop(k * y[i - l], k * y[i], q());
            assert(k * y[i - l] - k * y[i] == k * (y[i - l] - y[i])) by (nonlinear_arith);
            let dx = x[i - l] - x[i];
            let dy = y[i - l] - y[i];
            assert(dx % q() == (k * dy) % q());
            lemma_mul_mod_noop_left(dx, zi, q());
            lemma_mul_mod_noop_left(k * dy, zi, q());
            assert((k * dy) * zi == k * (dy * zi)) by (nonlinear_arith);
            lemma_mod_twice(dx * zi, q());
            lemma_mul_mod_noop_right(k, dy * zi, q());
        }
    }
}

pub proof fn lemma_inv_layers_from_len(b: Seq<int>, s0: nat, cnt: nat)
    requires
        b.len() == 512,
    ensures
        inv_layers_from(b, s0, cnt).len() == 512,
    decreases cnt,
{
    if cnt > 0 {
        lemma_inv_layers_from_len(gs_layer(b, s0), s0 + 1, (cnt - 1) as nat);
    }
}

/// The inverse layers are linear modulo q.
pub proof fn lemma_inv_layers_from_scaled(x: Seq<int>, y: Seq<int>, k: int, s0: nat, cnt: nat)
    requires
        x.len() == 512,
        s0 + cnt <= 9,
        scaled_cong(x, y, k),
    ensures
        scaled_cong(inv_layers_from(x, s0, cnt), inv_layers_from(y, s0, cnt), k),
    decreases cnt,
{
    if cnt > 0 {
        lemma_gs_layer_scaled(x, y, k, s0);
        lemma_inv_layers_from_scaled(gs_layer(x, s0), gs_layer(y, s0), k, s0 + 1, (cnt - 1) as nat);
    }
}

/// Composing congruences `x ≡ j·y` and `y ≡ k·z` gives `x ≡ (j·k)·z`.
pub proof fn lemma_scaled_cong_trans(x: Seq<int>, y: Seq<int>, z: Seq<int>, j: int, k: int)
    requires
        scaled_cong(x, y, j),
        scaled_cong(y, z, k),
    ensures
        scaled_cong(x, z, j * k),
{
    assert forall|i: int| 0 <= i < x.len() implies #[trigger] x[i] % q() == ((j * k) * z[i]) % q() by {
        lemma_mul_mod_noop_right(j, y[i], q());
        lemma_mul_mod_noop_right(j, k * z[i], q());
        assert(j * (k * z[i]) == (j * k) * z[i]) by (nonlinear_arith);
    }
}

/// The inverse layers undo the first `n` forward layers, up to the factor `2^n`.
pub proof fn lemma_inv_fwd_layers(a: Seq<int>, n: nat)
    requires
        a.len() == 512,
        n <= 9,
    ensures
        scaled_cong(inv_layers_from(fwd_layers(a, n), (9 - n) as nat, n), a, pow2(n) as int),
    decreases n,
{
    lemma2_to64();
    if n == 0 {
        assert forall|i: int| 0 <= i < a.len() implies #[trigger] a[i] % q() == (1 * a[i]) % q() by {}
    } else {
        let m = (n - 1) as nat;
        let f = fwd_layers(a, m);
        let st = (9 - n) as nat;
        lemma_fwd_layers_len(a, m);
        lemma_inv_fwd_layers(a, m);
        lemma_gs_ct_layer(f, st);
        lemma_inv_layers_from_scaled(gs_layer(ct_layer(f, st), st), f, 2, st + 1, m);
        lemma_scaled_cong_trans(
            inv_layers_from(gs_layer(ct_layer(f, st), st), st + 1, m),
            inv_layers_from(f, st + 1, m),
            a,
            2,
            pow2(m) as int,
        );
        lemma_pow2_unfold(n);
    }
}

/// The full inverse transform without the final `1/512` scaling.
pub open spec fn inv_layers(b: Seq<int>) -> Seq<int> {
    inv_layers_from(b, 0, 9)
}

/// Multiplication in the transform domain: if `hp ≡ 512⁻¹·NTT(h)` and
/// `e ≡ NTT(a)·hp` slot-wise, the unscaled inverse transform of `e` is `a·h` in
/// `Z_q[x]/(x^512 + 1)`.
pub proof fn lemma_ntt_product(a: Seq<int>, h: Seq<int>, hp: Seq<int>, e: Seq<int>)
    requires
        a.len() == 512,
        h.len() == 512,
        hp.len() == 512,
        e.len() == 512,
        forall|i: int| 0 <= i < 512 ==> #[trigger] hp[i] % q() == (n_inv() * fwd_layers(h, 9)[i]) % q(),
        forall|i: int| 0 <= i < 512 ==> #[trigger] e[i] % q() == (fwd_layers(a, 9)[i] * hp[i]) % q(),
    ensures
        scaled_cong(inv_layers(e), negacyclic_mul(a, h), 1),
{
    let p = negacyclic_mul(a, h);
    let (fa, fh, fp) = (fwd_layers(a, 9), fwd_layers(h, 9), fwd_layers(p, 9));
    lemma_fwd_is_evaluation(a);
    lemma_fwd_is_evaluation(h);
    lemma_fwd_is_evaluation(p);
    lemma_fwd_layers_len(a, 9);
    lemma_fwd_layers_len(h, 9);
    lemma_fwd_layers_len(p, 9);
    assert forall|i: int| 0 <= i < 512 implies #[trigger] e[i] % q() == (n_inv() * fp[i]) % q() by {
        let x = root(i);
        lemma_root_is_negacyclic(i);
        lemma_eval_negacyclic(a, h, x);
        let (ea, eh) = (eval(a, x), eval(h, x));
        // fp[i] ≡ ea·eh ≡ fa[i]·fh[i]
        lemma_mul_mod_noop(ea, eh, q());
        lemma_mul_mod_noop(fa[i], fh[i], q());
        assert(fp[i] % q() == (fa[i] * fh[i]) % q());
        // e[i] ≡ fa[i]·hp[i] ≡ fa[i]·(n_inv·fh[i])
        lemma_mul_mod_noop_right(fa[i], hp[i], q());
        lemma_mul_mod_noop_right(fa[i], n_inv() * fh[i], q());
        assert(fa[i] * (n_inv() * fh[i]) == n_inv() * (fa[i] * fh[i])) by (nonlinear_arith);
        lemma_mul_mod_noop_right(n_inv(), fa[i] * fh[i], q());
        lemma_mul_mod_noop_right(n_inv(), fp[i], q());
    }
    lemma2_to64();
    lemma_inv_fwd_layers(p, 9);
    lemma_inv_layers_from_scaled(e, fp, n_inv(), 0, 9);
    lemma_scaled_cong_trans(inv_layers(e), inv_layers_from(fp, 0, 9), p, n_inv(), 512);
    assert forall|i: int| 0 <= i < 512 implies #[trigger] inv_layers(e)[i] % q() == (1 * p[i]) % q() by {
        lemma_mul_mod_noop_left(n_inv() * 512, p[i], q());
        assert((n_inv() * 512) % q() == 1);
    }
}

/// The Cooley–Tukey layer only reads its input modulo q.
pub proof fn lemma_ct_layer_cong(x: Seq<int>, y: Seq<int>, s: nat)
    requires
        x.len() == 512,
        s <= 8,
        scaled_cong(x, y, 1),
    ensures
        ct_layer(x, s) == ct_layer(y, s),
{
    let l = pow2(s) as int;
    lemma_pow2_pos(s);
    assert forall|i: int| 0 <= i < 512 implies #[trigger] ct_layer(x, s)[i] == ct_layer(y, s)[i] by {
        let z = zeta(256int / l + i / (2 * l));
        lemma_slot_in_block(i, l);
        if i % (2 * l) < l {
            lemma_block_position_bound(i, s);
            lemma_mul_mod_noop_right(z, x[i + l], q());
            lemma_mul_mod_noop_right(z, y[i + l], q());
            lemma_add_mod_noop(x[i], z * x[i + l], q());
            lemma_add_mod_noop(y[i], z * y[i + l], q());
        } else {
            lemma_mul_mod_noop_right(z, x[i], q());
            lemma_mul_mod_noop_right(z, y[i], q());
            lemma_sub_mod_noop(x[i - l], z * x[i], q());
            lemma_sub_mod_noop(y[i - l], z * y[i], q());
        }
    }
    assert(ct_layer(x, s) =~= ct_layer(y, s));
}

/// Appending one more inverse layer at the end.
pub proof fn lemma_inv_layers_from_snoc(b: Seq<int>, s0: nat, cnt: nat)
    ensures
        inv_layers_from(b, s0, cnt + 1) == gs_layer(inv_layers_from(b, s0, cnt), s0 + cnt),
    decreases cnt,
{
    if cnt > 0 {
        lemma_inv_layers_from_snoc(gs_layer(b, s0), s0 + 1, (cnt - 1) as nat);
        assert(inv_layers_from(b, s0, cnt + 1) == inv_layers_from(gs_layer(b, s0), s0 + 1, cnt));
        assert(inv_layers_from(b, s0, cnt) == inv_layers_from(gs_layer(b, s0), s0 + 1, (cnt - 1) as nat));
    } else {
        assert(inv_layers_from(gs_layer(b, s0), s0 + 1, 0) == gs_layer(b, s0));
    }
}

/// The Gentleman–Sande layer only reads its input modulo q.
pub proof fn lemma_gs_layer_cong(x: Seq<int>, y: Seq<int>, s: nat)
    requires
        x.len() == 512,
        s <= 8,
        scaled_cong(x, y, 1),
    ensures
        gs_layer(x, s) == gs_layer(y, s),
{
    lemma_gs_layer_scaled(x, y, 1, s);
    assert forall|i: int| 0 <= i < 512 implies #[trigger] gs_layer(x, s)[i] == gs_layer(y, s)[i] by {
        let l = pow2(s) as int;
        lemma_pow2_pos(s);
        lemma_mod_twice(gs_layer(x, s)[i], q());
        lemma_mod_twice(gs_layer(y, s)[i], q());
        lemma_slot_in_block(i, l);
    }
    assert(gs_layer(x, s) =~= gs_layer(y, s));
}


/// A Cooley–Tukey layer undoes the Gentleman–Sande layer of the same length, up to a
/// factor 2.
pub proof fn lemma_ct_gs_layer(g: Seq<int>, s: nat)
    requires
        g.len() == 512,
        s <= 8,
    ensures
        scaled_cong(ct_layer(gs_layer(g, s), s), g, 2),
{
    let d = gs_layer(g, s);
    let c = ct_layer(d, s);
    let l = pow2(s) as int;
    lemma_pow2_pos(s);
    assert forall|i: int| 0 <= i < 512 implies #[trigger] c[i] % q() == (2 * g[i]) % q() by {
        let k = 256int / l + i / (2 * l);
        let z = zeta(k);
        let zi = izeta(k);
        lemma_slot_in_block(i, l);
        lemma_block_twiddle_index(i, s);
        lemma_zeta_izeta(k);
        if i % (2 * l) < l {
            assert(i + l < 512) by {
                lemma_block_position_bound(i, s);
            }
            let (u, v) = (g[i], g[i + l]);
            assert(d[i] == (u + v) % q());
            assert(d[i + l] == ((u - v) * zi) % q());
            assert(c[i] == (d[i] + z * d[i + l]) % q());
            lemma_mul_mod_noop_right(z, (u - v) * zi, q());
            lemma_add_mod_noop(u + v, z * ((u - v) * zi), q());
            lemma_mod_twice(u + v, q());
            lemma_mod_twice(z * ((u - v) * zi), q());
            lemma_add_mod_noop(d[i], z * d[i + l], q());
            assert(z * ((u - v) * zi) == (z * zi) * (u - v)) by (nonlinear_arith);
            lemma_mul_mod_noop_left(z * zi, u - v, q());
            lemma_add_mod_noop(u + v, u - v, q());
            lemma_mod_twice(u - v, q());
            assert((u + v) + (u - v) == 2 * u);
        } else {
            let (u, v) = (g[i - l], g[i]);
            assert(d[i - l] == (u + v) % q());
            assert(d[i] == ((u - v) * zi) % q());
            assert(c[i] == (d[i - l] - z * d[i]) % q());
            lemma_mul_mod_noop_right(z, (u - v) * zi, q());
            lemma_sub_mod_noop(u + v, z * ((u - v) * zi), q());
            lemma_mod_twice(u + v, q());
            lemma_mod_twice(z * ((u - v) * zi), q());
            lemma_sub_mod_noop(d[i - l], z * d[i], q());
            assert(z * ((u - v) * zi) == (z * zi) * (u - v)) by (nonlinear_arith);
            lemma_mul_mod_noop_left(z * zi, u - v, q());
            lemma_sub_mod_noop(u + v, u - v, q());
            lemma_mod_twice(u - v, q());
            assert((u + v) - (u - v) == 2 * v);
        }
    }
}

/// A Cooley–Tukey layer is linear modulo q.
pub proof fn lemma_ct_layer_scaled(x: Seq<int>, y: Seq<int>, k: int, s: nat)
    requires
        x.len() == 512,
        s <= 8,
        scaled_cong(x, y, k),
    ensures
        scaled_cong(ct_layer(x, s), ct_layer(y, s), k),
{
    let l = pow2(s) as int;
    lemma_pow2_pos(s);
    assert forall|i: int| 0 <= i < 512 implies #[trigger] ct_layer(x, s)[i] % q() == (k * ct_layer(
        y,
        s,
    )[i]) % q() by {
        let z = zeta(256int / l + i / (2 * l));
        lemma_slot_in_block(i, l);
        if i % (2 * l) < l {
            lemma_block_position_bound(i, s);
            lemma_ct_pair_scaled(x[i], x[i + l], y[i], y[i + l], z, k, 1);
        } else {
            lemma_ct_pair_scaled(x[i - l], x[i], y[i - l], y[i], z, k, -1);
        }
    }
}

proof fn lemma_ct_pair_scaled(xa: int, xb: int, ya: int, yb: int, z: int, k: int, sg: int)
    requires
        xa % q() == (k * ya) % q(),
        xb % q() == (k * yb) % q(),
        sg == 1 || sg == -1,
    ensures
        ((if sg == 1 { xa + z * xb } else { xa - z * xb }) % q()) % q() == (k * ((if sg == 1 {
            ya + z * yb
        } else {
            ya - z * yb
        }) % q())) % q(),
{
    lemma_mul_mod_noop_right(z, xb, q());
    lemma_mul_mod_noop_right(z, k * yb, q());
    assert(z * (k * yb) == k * (z * yb)) by (nonlinear_arith);
    let ex = xa + sg * (z * xb);
    let ey = ya + sg * (z * yb);
    assert(ex == if sg == 1 { xa + z * xb } else { xa - z * xb });
    assert(ey == if sg == 1 { ya + z * yb } else { ya - z * yb });
    lemma_mul_mod_noop_right(sg, z * xb, q());
    lemma_mul_mod_noop_right(sg, k * (z * yb), q());
    lemma_add_mod_noop(xa, sg * (z * xb), q());
    lemma_add_mod_noop(k * ya, sg * (k * (z * yb)), q());
    assert(k * ya + sg * (k * (z * yb)) == k * ey) by (nonlinear_arith)
        requires ey == ya + sg * (z * yb);
    lemma_mod_twice(ex, q());
    lemma_mul_mod_noop_right(k, ey, q());
}

/// The first `n` forward layers undo the last `n` inverse layers, up to `2^n`.
pub proof fn lemma_fwd_inv_layers(b: Seq<int>, n: nat)
    requires
        b.len() == 512,
        n <= 9,
    ensures
        scaled_cong(fwd_layers(inv_layers_from(b, 0, 9), n), inv_layers_from(b, 0, (9 - n) as nat), pow2(n) as int),
    decreases n,
{
    lemma2_to64();
    let x = inv_layers_from(b, 0, 9);
    lemma_inv_layers_from_len(b, 0, 9);
    if n == 0 {
        assert forall|i: int| 0 <= i < x.len() implies #[trigger] x[i] % q() == (1 * x[i]) % q() by {}
    } else {
        let m = (n - 1) as nat;
        let st = (9 - n) as nat;
        let w = inv_layers_from(b, 0, st);
        lemma_inv_layers_from_len(b, 0, st);
        lemma_inv_layers_from_snoc(b, 0, st);
        assert(inv_layers_from(b, 0, (9 - m) as nat) == gs_layer(w, st));
        lemma_fwd_inv_layers(b, m);
        lemma_fwd_layers_len(x, m);
        lemma_ct_layer_scaled(fwd_layers(x, m), gs_layer(w, st), pow2(m) as int, st);
        lemma_ct_gs_layer(w, st);
        lemma_scaled_cong_trans(
            ct_layer(fwd_layers(x, m), st),
            ct_layer(gs_layer(w, st), st),
            w,
            pow2(m) as int,
            2,
        );
        lemma_pow2_unfold(n);
        assert(pow2(m) as int * 2 == pow2(n) as int);
    }
}


/// The forward layers are linear modulo q.
pub proof fn lemma_fwd_layers_scaled(x: Seq<int>, y: Seq<int>, k: int, n: nat)
    requires
        x.len() == 512,
        n <= 9,
        scaled_cong(x, y, k),
    ensures
        scaled_cong(fwd_layers(x, n), fwd_layers(y, n), k),
    decreases n,
{
    if n > 0 {
        let m = (n - 1) as nat;
        lemma_fwd_layers_scaled(x, y, k, m);
        lemma_fwd_layers_len(x, m);
        lemma_ct_layer_scaled(fwd_layers(x, m), fwd_layers(y, m), k, (9 - n) as nat);
    }
}


/// The Cooley–Tukey layers with half-block lengths `2^(n-1)` down to `1`: the layers
/// that the first `n` inverse layers undo.
pub open spec fn fwd_below(x: Seq<int>, n: nat) -> Seq<int>
    decreases n,
{
    if n == 0 {
        x
    } else {
        fwd_below(ct_layer(x, (n - 1) as nat), (n - 1) as nat)
    }
}

pub proof fn lemma_fwd_below_len(x: Seq<int>, n: nat)
    requires
        x.len() == 512,
    ensures
        fwd_below(x, n).len() == 512,
    decreases n,
{
    if n > 0 {
        lemma_fwd_below_len(ct_layer(x, (n - 1) as nat), (n - 1) as nat);
    }
}

/// The first `n` inverse layers undo `fwd_below(·, n)`, up to `2^n`.
pub proof fn lemma_inv_fwd_below(x: Seq<int>, n: nat)
    requires
        x.len() == 512,
        n <= 9,
    ensures
        scaled_cong(inv_layers_from(fwd_below(x, n), 0, n), x, pow2(n) as int),
    decreases n,
{
    lemma2_to64();
    if n == 0 {
        assert forall|i: int| 0 <= i < x.len() implies #[trigger] x[i] % q() == (1 * x[i]) % q() by {}
    } else {
        let m = (n - 1) as nat;
        let c = ct_layer(x, m);
        let fb = fwd_below(c, m);
        lemma_inv_fwd_below(c, m);
        lemma_fwd_below_len(c, m);
        lemma_inv_layers_from_len(fb, 0, m);
        lemma_inv_layers_from_snoc(fb, 0, m);
        lemma_gs_layer_scaled(inv_layers_from(fb, 0, m), c, pow2(m) as int, m);
        lemma_gs_ct_layer(x, m);
        lemma_scaled_cong_trans(gs_layer(inv_layers_from(fb, 0, m), m), gs_layer(c, m), x, pow2(m) as int, 2);
        lemma_pow2_unfold(n);
        assert(pow2(m) as int * 2 == pow2(n) as int);
    }
}

/// The first `n` forward layers undo the last `n` inverse layers, up to `2^n`.
pub proof fn lemma_fwd_inv_from(b: Seq<int>, n: nat)
    requires
        b.len() == 512,
        n <= 9,
    ensures
        scaled_cong(fwd_layers(inv_layers_from(b, (9 - n) as nat, n), n), b, pow2(n) as int),
    decreases n,
{
    lemma2_to64();
    if n == 0 {
        assert forall|i: int| 0 <= i < b.len() implies #[trigger] b[i] % q() == (1 * b[i]) % q() by {}
    } else {
        let m = (n - 1) as nat;
        let st = (9 - n) as nat;
        let g = gs_layer(b, st);
        let x = inv_layers_from(g, st + 1, m);
        assert(inv_layers_from(b, st, n) == x);
        assert((9 - m) as nat == st + 1);
        lemma_fwd_inv_from(g, m);
        lemma_inv_layers_from_len(g, st + 1, m);
        lemma_fwd_layers_len(x, m);
        lemma_ct_layer_scaled(fwd_layers(x, m), g, pow2(m) as int, st);
        lemma_ct_gs_layer(b, st);
        lemma_scaled_cong_trans(ct_layer(fwd_layers(x, m), st), ct_layer(g, st), b, pow2(m) as int, 2);
        lemma_pow2_unfold(n);
        assert(pow2(m) as int * 2 == pow2(n) as int);
    }
}

} // verus!
