//! Polynomials over the integers, evaluated modulo q.
use vstd::prelude::*;
use vstd::arithmetic::power::*;
use vstd::arithmetic::div_mod::*;
use vstd::arithmetic::mul::*;
use crate::modq::q;

verus! {

/// `c[0] + c[1]·x + c[2]·x² + …`, as an exact integer.
pub open spec fn eval(c: Seq<int>, x: int) -> int
    decreases c.len(),
{
    if c.len() == 0 {
        0
    } else {
        c[0] + x * eval(c.drop_first(), x)
    }
}

/// Splitting a polynomial into its low `l` and its high coefficients.
pub proof fn lemma_eval_split(c: Seq<int>, l: nat, x: int)
    requires
        l <= c.len(),
    ensures
        eval(c, x) == eval(c.subrange(0, l as int), x) + pow(x, l) * eval(
            c.subrange(l as int, c.len() as int),
            x,
        ),
    decreases l,
{
    if l == 0 {
        lemma_pow0(x);
        assert(c.subrange(0, 0) =~= Seq::<int>::empty());
        assert(c.subrange(0, c.len() as int) =~= c);
    } else {
        let d = c.drop_first();
        lemma_eval_split(d, (l - 1) as nat, x);
        assert(d.subrange(0, l - 1) =~= c.subrange(0, l as int).drop_first());
        assert(d.subrange(l - 1, d.len() as int) =~= c.subrange(l as int, c.len() as int));
        let e1 = eval(d.subrange(0, l - 1), x);
        let e2 = eval(c.subrange(l as int, c.len() as int), x);
        let p = pow(x, (l - 1) as nat);
        lemma_pow_adds(x, 1, (l - 1) as nat);
        lemma_pow1(x);
        assert(x * (e1 + p * e2) == x * e1 + (x * p) * e2) by (nonlinear_arith);
    }
}

/// Evaluation respects coefficient-wise congruences of the form `c ≡ u + k·v`.
pub proof fn lemma_eval_combo(c: Seq<int>, u: Seq<int>, v: Seq<int>, k: int, x: int)
    requires
        c.len() == u.len(),
        c.len() == v.len(),
        forall|t: int| 0 <= t < c.len() ==> #[trigger] c[t] % q() == (u[t] + k * v[t]) % q(),
    ensures
        eval(c, x) % q() == (eval(u, x) + k * eval(v, x)) % q(),
    decreases c.len(),
{
    if c.len() > 0 {
        let (c1, u1, v1) = (c.drop_first(), u.drop_first(), v.drop_first());
        assert forall|t: int| 0 <= t < c1.len() implies #[trigger] c1[t] % q() == (u1[t] + k
            * v1[t]) % q() by {
            assert(c1[t] == c[t + 1]);
        }
        lemma_eval_combo(c1, u1, v1, k, x);
        let (ec, eu, ev) = (eval(c1, x), eval(u1, x), eval(v1, x));
        assert(c[0] % q() == (u[0] + k * v[0]) % q());
        lemma_mul_mod_noop_right(x, ec, q());
        lemma_mul_mod_noop_right(x, eu + k * ev, q());
        lemma_add_mod_noop(c[0], x * ec, q());
        lemma_add_mod_noop(u[0] + k * v[0], x * (eu + k * ev), q());
        assert(u[0] + k * v[0] + x * (eu + k * ev) == (u[0] + x * eu) + k * (v[0] + x * ev))
            by (nonlinear_arith);
    }
}

/// Evaluation only depends on the point modulo q.
pub proof fn lemma_eval_point_mod(c: Seq<int>, x: int)
    ensures
        eval(c, x) % q() == eval(c, x % q()) % q(),
    decreases c.len(),
{
    if c.len() > 0 {
        let d = c.drop_first();
        lemma_eval_point_mod(d, x);
        let (e1, e2) = (eval(d, x), eval(d, x % q()));
        lemma_mul_mod_noop(x, e1, q());
        lemma_mul_mod_noop(x % q(), e2, q());
        lemma_mod_twice(x, q());
        lemma_add_mod_noop(c[0], x * e1, q());
        lemma_add_mod_noop(c[0], (x % q()) * e2, q());
    }
}

/// Exact linearity: `c = j·u + k·v` coefficient-wise gives `eval(c) = j·eval(u) + k·eval(v)`.
pub proof fn lemma_eval_linear(c: Seq<int>, u: Seq<int>, v: Seq<int>, j: int, k: int, x: int)
    requires
        c.len() == u.len(),
        c.len() == v.len(),
        forall|t: int| 0 <= t < c.len() ==> #[trigger] c[t] == j * u[t] + k * v[t],
    ensures
        eval(c, x) == j * eval(u, x) + k * eval(v, x),
    decreases c.len(),
{
    if c.len() > 0 {
        let (c1, u1, v1) = (c.drop_first(), u.drop_first(), v.drop_first());
        assert forall|t: int| 0 <= t < c1.len() implies #[trigger] c1[t] == j * u1[t] + k * v1[t] by {
            assert(c1[t] == c[t + 1]);
        }
        lemma_eval_linear(c1, u1, v1, j, k, x);
        let (eu, ev) = (eval(u1, x), eval(v1, x));
        assert(j * u[0] + k * v[0] + x * (j * eu + k * ev) == j * (u[0] + x * eu) + k * (v[0] + x
            * ev)) by (nonlinear_arith);
    }
}

/// `b` followed by zeros up to length `n`.
pub open spec fn pad(b: Seq<int>, n: nat) -> Seq<int> {
    Seq::new(n, |k: int| if k < b.len() { b[k] } else { 0 })
}

pub proof fn lemma_eval_pad(b: Seq<int>, n: nat, x: int)
    requires
        b.len() <= n,
    ensures
        eval(pad(b, n), x) == eval(b, x),
    decreases n,
{
    if n > 0 {
        let p = pad(b, n);
        if b.len() == 0 {
            assert(p.drop_first() =~= pad(b, (n - 1) as nat));
            lemma_eval_pad(b, (n - 1) as nat, x);
        } else {
            assert(p.drop_first() =~= pad(b.drop_first(), (n - 1) as nat));
            lemma_eval_pad(b.drop_first(), (n - 1) as nat, x);
        }
    }
}

/// The full (non-reduced) product of two polynomials, of length `|a| + |b|`.
pub open spec fn mul_full(a: Seq<int>, b: Seq<int>) -> Seq<int>
    decreases a.len(),
{
    if a.len() == 0 {
        Seq::new(b.len(), |k: int| 0)
    } else {
        let r = mul_full(a.drop_first(), b);
        Seq::new(
            a.len() + b.len(),
            |k: int|
                a[0] * (if k < b.len() {
                    b[k]
                } else {
                    0
                }) + (if k >= 1 {
                    r[k - 1]
                } else {
                    0
                }),
        )
    }
}

pub proof fn lemma_mul_full_len(a: Seq<int>, b: Seq<int>)
    ensures
        mul_full(a, b).len() == a.len() + b.len(),
    decreases a.len(),
{
    if a.len() > 0 {
        lemma_mul_full_len(a.drop_first(), b);
    }
}

/// Evaluation turns the polynomial product into the product of values.
pub proof fn lemma_eval_mul_full(a: Seq<int>, b: Seq<int>, x: int)
    ensures
        eval(mul_full(a, b), x) == eval(a, x) * eval(b, x),
    decreases a.len(),
{
    let m = mul_full(a, b);
    lemma_mul_full_len(a, b);
    if a.len() == 0 {
        let z = Seq::new(b.len(), |k: int| 0);
        assert forall|t: int| 0 <= t < z.len() implies #[trigger] z[t] == 0int * z[t] + 0int * z[t] by {}
        lemma_eval_linear(z, z, z, 0, 0, x);
    } else {
        let r = mul_full(a.drop_first(), b);
        lemma_mul_full_len(a.drop_first(), b);
        lemma_eval_mul_full(a.drop_first(), b, x);
        let n = (a.len() + b.len()) as nat;
        let pb = pad(b, n);
        let sr = Seq::new(n, |k: int| if k >= 1 { r[k - 1] } else { 0 });
        assert forall|t: int| 0 <= t < m.len() implies #[trigger] m[t] == a[0] * pb[t] + 1 * sr[t] by {}
        lemma_eval_linear(m, pb, sr, a[0], 1, x);
        lemma_eval_pad(b, n, x);
        assert(sr.drop_first() =~= r);
        assert(eval(sr, x) == x * eval(r, x));
        let (ea, eb) = (eval(a.drop_first(), x), eval(b, x));
        assert(a[0] * eb + x * (ea * eb) == (a[0] + x * ea) * eb) by (nonlinear_arith);
    }
}

/// The product in `Z[x]/(x^512 + 1)`: coefficient `k` is the full product's `k`-th
/// coefficient minus its `(k+512)`-th.
pub open spec fn negacyclic_mul(a: Seq<int>, b: Seq<int>) -> Seq<int> {
    let m = mul_full(a, b);
    Seq::new(512, |k: int| m[k] - m[k + 512])
}

/// At a point with `x^512 ≡ −1`, evaluation is multiplicative for the negacyclic product.
pub proof fn lemma_eval_negacyclic(a: Seq<int>, b: Seq<int>, x: int)
    requires
        a.len() == 512,
        b.len() == 512,
        pow(x, 512) % q() == q() - 1,
    ensures
        eval(negacyclic_mul(a, b), x) % q() == (eval(a, x) * eval(b, x)) % q(),
{
    let m = mul_full(a, b);
    lemma_mul_full_len(a, b);
    lemma_eval_mul_full(a, b, x);
    let lo = m.subrange(0, 512);
    let hi = m.subrange(512, 1024);
    let c = negacyclic_mul(a, b);
    lemma_eval_split(m, 512, x);
    assert forall|t: int| 0 <= t < c.len() implies #[trigger] c[t] == 1 * lo[t] + (-1) * hi[t] by {}
    lemma_eval_linear(c, lo, hi, 1, -1, x);
    let (el, eh, p) = (eval(lo, x), eval(hi, x), pow(x, 512));
    lemma_mul_mod_noop_left(p, eh, q());
    lemma_mul_mod_noop_left(q() - 1, eh, q());
    assert((q() - 1) * eh == q() * eh + (-1) * eh) by (nonlinear_arith);
    lemma_mod_multiples_vanish(eh, (-1) * eh, q());
    lemma_add_mod_noop(el, p * eh, q());
    lemma_add_mod_noop(el, (-1) * eh, q());
}

} // verus!
