//! Falcon-512 signature verification (compressed signatures, header `0x39`), with
//! machine-checked contracts from the wire formats down to the NTT arithmetic.
use vstd::prelude::*;
use vstd::arithmetic::div_mod::{
    lemma_mul_mod_noop_left, lemma_mul_mod_noop_right, lemma_sub_mod_noop_right, lemma_mod_twice,
};
use solana_program_error::ProgramError;
use crate::codec::{
    decode_pubkey_u32, decompress_signature, hash_to_point, pk_decodes, pk_poly, decompress_spec,
    hash_to_point_spec,
};
use crate::modq::{q, root, n_inv};
use crate::ntt::{
    N, Q, Twiddles, ntt_spec, lemma_ntt_round_trip, ntt, ints, sints, u16_ints, pointwise, sq_norm, norm_sum, norm_term, center_abs,
    ntt_main_levels_from_signed_with, fused_last_fwd_mul_first_inv_with, inv_ntt_main_levels_with,
    last_level_fused_norm_with,
};
use crate::ntt_spec::{fwd_layers, inv_layers, scaled_cong, lemma_ntt_product, lemma_fwd_is_evaluation,
    lemma_fwd_layers_len, lemma_inv_layers_from_len, lemma_ct_layer_cong, lemma_fwd_inv_layers};
use crate::poly::{eval, negacyclic_mul};

pub mod modq;
pub mod poly;
pub mod ntt_spec;
pub mod ntt;
pub mod bits;
pub mod codec;
pub mod keccak;
pub mod keccak_rc;

verus! {

/// The Solana program error, returned by the slice conversions; opaque here.
#[verifier::external_type_specification]
#[verifier::external_body]
pub struct ExProgramError(ProgramError);

/// Builds `ProgramError::InvalidArgument`, the error of every length check. Nothing is
/// stated of the value: the type is opaque here.
#[verifier::external_body]
fn invalid_argument() -> (e: ProgramError) {
    ProgramError::InvalidArgument
}

/// Wire-encoded Falcon-512 pubkey length, including the 1-byte header.
pub const FALCON_512_PUBKEY_LEN: usize = 897;

/// Falcon-512 compressed-signature buffer length: 1 header byte, a 40-byte nonce and
/// up to 625 bytes of Golomb–Rice-encoded `s2`, zero-padded.
pub const FALCON_512_SIGNATURE_LEN: usize = 666;

/// Serialised length of a prepared pubkey: 512 little-endian `u16` coefficients.
pub const FALCON_512_PREPARED_PUBKEY_LEN: usize = 1024;

/// Length of the nonce that follows the signature header.
pub const NONCE_LEN: usize = 40;

/// Bound on the squared norm of `(s1, s2)`.
pub const L2_BOUND: u64 = 34_034_726;

/// Header byte of a Falcon-512 pubkey.
pub const PUBKEY_HEADER: u8 = 0x09;

/// Header byte of a compressed Falcon-512 signature.
pub const SIG_HEADER: u8 = 0x39;

/// `512⁻¹ mod q`.
const N_INV: u64 = 12265;

// ---------------------------------------------------------------------------
// What verification computes.
// ---------------------------------------------------------------------------

/// The polynomial `h` of a wire-encoded pubkey (coefficients after the header byte).
pub open spec fn pubkey_poly(pk: Seq<u8>) -> Seq<int> {
    pk_poly(pk.skip(1))
}

/// A wire-encoded pubkey that `prepare_pubkey` accepts: header `0x09` and 512
/// coefficients below q.
pub open spec fn pubkey_valid(pk: Seq<u8>) -> bool {
    pk.len() == FALCON_512_PUBKEY_LEN && pk[0] == PUBKEY_HEADER && pk_decodes(pk.skip(1))
}

/// The prepared form of `h`: slot `i` is `512⁻¹ · h(root(i)) mod q`.
pub open spec fn prepared_of(h: Seq<int>) -> Seq<u16> {
    Seq::new(512, |i: int| ((n_inv() * eval(h, root(i))) % q()) as u16)
}

/// The nonce of a signature buffer.
pub open spec fn sig_nonce(sig: Seq<u8>) -> Seq<u8> {
    sig.subrange(1, 1 + NONCE_LEN as int)
}

/// The compressed `s2` of a signature buffer.
pub open spec fn sig_body(sig: Seq<u8>) -> Seq<u8> {
    sig.skip(1 + NONCE_LEN as int)
}

/// The point `c` that the message hashes to under the signature's nonce.
pub open spec fn sig_point(sig: Seq<u8>, message: Seq<u8>) -> Seq<u16> {
    hash_to_point_spec(sig_nonce(sig), message, Seq::new(512, |i: int| 0u16))
}

/// The norm condition: `‖(c − p mod q, s2)‖² ≤ L2_BOUND`, each coefficient of
/// `c − p` taken centred in `(−q/2, q/2]`.
pub open spec fn norm_accepts(c: Seq<u16>, p: Seq<int>, s2: Seq<int>) -> bool {
    sq_norm(u16_ints(c), p, s2) <= L2_BOUND as int
}

/// Falcon-512 verification against a wire-encoded pubkey: both headers are right, the
/// signature decompresses to `s2`, the pubkey decodes to `h`, and with `c` the hashed
/// point, `‖(c − s2·h mod (q, x^512 + 1), s2)‖² ≤ L2_BOUND`.
pub open spec fn verify_spec(sig: Seq<u8>, message: Seq<u8>, pk: Seq<u8>) -> bool {
    &&& sig[0] == SIG_HEADER
    &&& pk[0] == PUBKEY_HEADER
    &&& decompress_spec(sig_body(sig)) is Some
    &&& pk_decodes(pk.skip(1))
    &&& norm_accepts(
        sig_point(sig, message),
        negacyclic_mul(decompress_spec(sig_body(sig)).unwrap(), pubkey_poly(pk)),
        decompress_spec(sig_body(sig)).unwrap(),
    )
}

/// The product that verification with a prepared pubkey `hp` forms: the inverse
/// transform layers applied to the slot-wise product of `s2`'s transform with `hp`.
pub open spec fn prepared_product(s2: Seq<int>, hp: Seq<u16>) -> Seq<int> {
    inv_layers(pointwise(fwd_layers(s2, 9), hp))
}

/// `h` has coefficients in `[0, q)` and its prepared form is `hp` modulo q.
pub open spec fn is_prepared_poly(h: Seq<int>, hp: Seq<u16>) -> bool {
    &&& h.len() == 512
    &&& forall|i: int| 0 <= i < 512 ==> 0 <= #[trigger] h[i] < q()
    &&& forall|i: int| 0 <= i < 512 ==> #[trigger] prepared_of(h)[i] as int == (hp[i] as int) % q()
}

/// The polynomial that the prepared pubkey `hp` stands for: the one (there is exactly
/// one) with coefficients in `[0, q)` whose prepared form is `hp` modulo q.
pub open spec fn prepared_poly(hp: Seq<u16>) -> Seq<int> {
    choose|h: Seq<int>| is_prepared_poly(h, hp)
}

/// Verification against a prepared pubkey `hp`: as `verify_spec`, with the polynomial
/// that `hp` stands for in place of the decoded pubkey.
pub open spec fn verify_prepared_spec(sig: Seq<u8>, message: Seq<u8>, hp: Seq<u16>) -> bool {
    &&& sig[0] == SIG_HEADER
    &&& decompress_spec(sig_body(sig)) is Some
    &&& norm_accepts(
        sig_point(sig, message),
        negacyclic_mul(decompress_spec(sig_body(sig)).unwrap(), prepared_poly(hp)),
        decompress_spec(sig_body(sig)).unwrap(),
    )
}


/// The norm sees the product only modulo q.
proof fn lemma_sq_norm_cong(c: Seq<int>, p: Seq<int>, p2: Seq<int>, s2: Seq<int>, n: int)
    requires
        0 <= n <= 512,
        forall|i: int| 0 <= i < 512 ==> #[trigger] p[i] % q() == p2[i] % q(),
    ensures
        norm_sum(c, p, s2, n) == norm_sum(c, p2, s2, n),
    decreases n,
{
    if n > 0 {
        lemma_sq_norm_cong(c, p, p2, s2, n - 1);
        let i = n - 1;
        lemma_sub_mod_noop_right(c[i], p[i], q());
        lemma_sub_mod_noop_right(c[i], p2[i], q());
        assert(center_abs(c[i] - p[i]) == center_abs(c[i] - p2[i]));
        assert(norm_term(c, p, s2, i) == norm_term(c, p2, s2, i));
    }
}

/// Forward transform of `h` in place, then each slot scaled by `512⁻¹` mod q and
/// narrowed to 16 bits.
fn prepared_from_poly(h: &mut [u32; N]) -> (hp: [u16; N])
    requires
        forall|i: int| 0 <= i < 512 ==> old(h)[i] < 12289,
    ensures
        hp@ == prepared_of(ints(old(h)@)),
{
    let ghost a = ints(h@);
    ntt(h);
    let mut hp = [0u16; N];
    let mut i: usize = 0;
    while i < N
        invariant
            i <= N,
            forall|k: int| 0 <= k < 512 ==> #[trigger] h[k] as int == eval(a, root(k)) % q(),
            forall|k: int| 0 <= k < i ==> #[trigger] hp@[k] == prepared_of(a)[k],
        decreases N - i,
    {
        proof {
            lemma_mul_mod_noop_right(n_inv(), eval(a, root(i as int)), q());
        }
        hp[i] = ((h[i] as u64) * N_INV % (Q as u64)) as u16;
        i += 1;
    }
    assert(hp@ =~= prepared_of(a));
    hp
}

/// The product that a prepared pubkey yields is, modulo q, the negacyclic product
/// with the polynomial it was prepared from.
proof fn lemma_prepared_product(s2: Seq<int>, h: Seq<int>)
    requires
        s2.len() == 512,
        h.len() == 512,
    ensures
        forall|i: int| 0 <= i < 512 ==> #[trigger] prepared_product(s2, prepared_of(h))[i] % q()
            == negacyclic_mul(s2, h)[i] % q(),
        prepared_product(s2, prepared_of(h)).len() == 512,
{
    let hp = prepared_of(h);
    let hpi = u16_ints(hp);
    let e = pointwise(fwd_layers(s2, 9), hp);
    lemma_fwd_is_evaluation(h);
    lemma_fwd_layers_len(h, 9);
    assert forall|i: int| 0 <= i < 512 implies #[trigger] hpi[i] % q() == (n_inv() * fwd_layers(h, 9)[i]) % q() by {
        let v = eval(h, root(i));
        lemma_mul_mod_noop_right(n_inv(), v, q());
        lemma_mul_mod_noop_right(n_inv(), fwd_layers(h, 9)[i], q());
        lemma_mod_twice(n_inv() * v, q());
    }
    assert forall|i: int| 0 <= i < 512 implies #[trigger] e[i] % q() == (fwd_layers(s2, 9)[i] * hpi[i]) % q() by {}
    lemma_ntt_product(s2, h, hpi, e);
    lemma_inv_layers_from_len(e, 0, 9);
}

/// Applying the forward layers to two congruent inputs gives the same result.
proof fn lemma_fwd_layers_cong(x: Seq<int>, y: Seq<int>, n: nat)
    requires
        x.len() == 512,
        1 <= n <= 9,
        scaled_cong(x, y, 1),
    ensures
        fwd_layers(x, n) == fwd_layers(y, n),
    decreases n,
{
    if n == 1 {
        assert(fwd_layers(x, 0) == x && fwd_layers(y, 0) == y);
        lemma_ct_layer_cong(x, y, 8);
    } else {
        lemma_fwd_layers_cong(x, y, (n - 1) as nat);
    }
}

/// Every prepared pubkey stands for a polynomial: the inverse layers applied to it,
/// reduced mod q.
proof fn lemma_prepared_poly_exists(hp: Seq<u16>)
    requires
        hp.len() == 512,
    ensures
        is_prepared_poly(prepared_poly(hp), hp),
{
    let hpi = u16_ints(hp);
    let x = inv_layers(hpi);
    lemma_inv_layers_from_len(hpi, 0, 9);
    let h = Seq::new(512, |i: int| x[i] % q());
    assert(scaled_cong(h, x, 1)) by {
        assert forall|i: int| 0 <= i < 512 implies #[trigger] h[i] % q() == (1 * x[i]) % q() by {
            lemma_mod_twice(x[i], q());
        }
    }
    lemma_fwd_layers_cong(h, x, 9);
    lemma_fwd_inv_layers(hpi, 9);
    lemma_fwd_is_evaluation(h);
    vstd::arithmetic::power2::lemma2_to64();
    assert forall|i: int| 0 <= i < 512 implies #[trigger] prepared_of(h)[i] as int == (hp[i] as int) % q() by {
        let v = eval(h, root(i));
        let f = fwd_layers(x, 9)[i];
        assert(f % q() == (512 * hpi[i]) % q());
        assert(v % q() == f % q());
        lemma_mul_mod_noop_right(n_inv(), v, q());
        lemma_mul_mod_noop_right(n_inv(), f, q());
        lemma_mul_mod_noop_right(n_inv(), 512 * hpi[i], q());
        assert(n_inv() * (512 * hpi[i]) == (n_inv() * 512) * hpi[i]) by (nonlinear_arith);
        lemma_mul_mod_noop_left(n_inv() * 512, hpi[i], q());
        assert((n_inv() * 512) % q() == 1);
    }
    assert(is_prepared_poly(h, hp));
}

/// The product formed with a prepared pubkey is, modulo q, the negacyclic product
/// with the polynomial it stands for.
proof fn lemma_prepared_poly_product(s2: Seq<int>, hp: Seq<u16>)
    requires
        s2.len() == 512,
        hp.len() == 512,
    ensures
        forall|i: int| 0 <= i < 512 ==> #[trigger] prepared_product(s2, hp)[i] % q()
            == negacyclic_mul(s2, prepared_poly(hp))[i] % q(),
{
    lemma_prepared_poly_exists(hp);
    let h = prepared_poly(hp);
    let hpi = u16_ints(hp);
    let e = pointwise(fwd_layers(s2, 9), hp);
    lemma_fwd_is_evaluation(h);
    lemma_fwd_layers_len(h, 9);
    assert forall|i: int| 0 <= i < 512 implies #[trigger] hpi[i] % q() == (n_inv() * fwd_layers(h, 9)[i]) % q() by {
        let v = eval(h, root(i));
        assert(prepared_of(h)[i] as int == (n_inv() * v) % q());
        lemma_mul_mod_noop_right(n_inv(), v, q());
        lemma_mul_mod_noop_right(n_inv(), fwd_layers(h, 9)[i], q());
        lemma_mod_twice(hpi[i], q());
    }
    assert forall|i: int| 0 <= i < 512 implies #[trigger] e[i] % q() == (fwd_layers(s2, 9)[i] * hpi[i]) % q() by {}
    lemma_ntt_product(s2, h, hpi, e);
}

/// The norm check against a prepared pubkey: forward transform of `s2`, slot-wise
/// product with `h_pk_ntt`, inverse transform, and the norm of `(c − product, s2)`.
fn norm_check_with_prepared(h_pk_ntt: &[u16; N], s2: &[i16; N], c: &[u16; N]) -> (ok: bool)
    requires
        forall|i: int| 0 <= i < 512 ==> -2047 <= #[trigger] s2[i] <= 2047,
    ensures
        ok == norm_accepts(c@, prepared_product(sints(s2@), h_pk_ntt@), sints(s2@)),
{
    let tw = Twiddles::new();
    let ghost a = sints(s2@);
    let ghost e = pointwise(fwd_layers(a, 9), h_pk_ntt@);
    let mut buf = [0u32; N];
    ntt_main_levels_from_signed_with(&mut buf, s2, &tw);
    proof {
        assert(a.len() == 512);
    }
    fused_last_fwd_mul_first_inv_with(&mut buf, h_pk_ntt, &tw, Ghost(a));
    inv_ntt_main_levels_with(&mut buf, &tw, Ghost(e));
    last_level_fused_norm_with(&buf, c, s2, L2_BOUND, &tw, Ghost(e))
}

/// The norm check against a pubkey body: decode `h`, prepare it, and check the norm.
/// `false` when the body does not decode.
fn check_norm(pk_data: &[u8], s2: &[i16; N], c: &[u16; N]) -> (ok: bool)
    requires
        forall|i: int| 0 <= i < 512 ==> -2047 <= #[trigger] s2[i] <= 2047,
    ensures
        ok == (pk_decodes(pk_data@) && norm_accepts(c@, negacyclic_mul(sints(s2@), pk_poly(pk_data@)), sints(s2@))),
{
    let mut h_ntt = [0u32; N];
    if !decode_pubkey_u32(pk_data, &mut h_ntt) {
        return false;
    }
    let ghost h = ints(h_ntt@);
    proof {
        assert(h =~= pk_poly(pk_data@));
    }
    let hp = prepared_from_poly(&mut h_ntt);
    let ok = norm_check_with_prepared(&hp, s2, c);
    proof {
        let a = sints(s2@);
        lemma_prepared_product(a, h);
        lemma_sq_norm_cong(u16_ints(c@), prepared_product(a, hp@), negacyclic_mul(a, h), a, 512);
    }
    ok
}


// ---------------------------------------------------------------------------
// Pubkey.
// ---------------------------------------------------------------------------

/// Wire-encoded Falcon-512 public key: header byte `0x09` and the 14-bit-packed
/// polynomial `h ∈ Z_q[x]/(x^512 + 1)`.
#[derive(Clone, PartialEq, Eq)]
pub struct Falcon512Pubkey([u8; FALCON_512_PUBKEY_LEN]);

impl View for Falcon512Pubkey {
    type V = Seq<u8>;

    closed spec fn view(&self) -> Seq<u8> {
        self.0@
    }
}

impl From<[u8; FALCON_512_PUBKEY_LEN]> for Falcon512Pubkey {
    fn from(value: [u8; FALCON_512_PUBKEY_LEN]) -> (r: Self) {
        Self(value)
    }
}

impl vstd::std_specs::convert::FromSpecImpl<[u8; FALCON_512_PUBKEY_LEN]> for Falcon512Pubkey {
    open spec fn obeys_from_spec() -> bool {
        true
    }

    closed spec fn from_spec(v: [u8; FALCON_512_PUBKEY_LEN]) -> Self {
        Falcon512Pubkey(v)
    }
}

impl<'a> TryFrom<&'a [u8]> for Falcon512Pubkey {
    type Error = ProgramError;

    fn try_from(value: &'a [u8]) -> (r: Result<Self, Self::Error>)
        ensures
            r.is_ok() <==> value@.len() == FALCON_512_PUBKEY_LEN,
            r.is_ok() ==> r.unwrap()@ == value@,
    {
        Self::try_from_slice(value)
    }
}

/// The conversion's contract stands on `try_from`; the trait's own specification
/// function is not claimed.
impl<'a> vstd::std_specs::convert::TryFromSpecImpl<&'a [u8]> for Falcon512Pubkey {
    open spec fn obeys_try_from_spec() -> bool {
        false
    }

    open spec fn try_from_spec(v: &'a [u8]) -> Result<Self, ProgramError> {
        arbitrary()
    }
}

/// Copies a slice of exactly `L` bytes into an array.
fn copy_exact<const L: usize>(value: &[u8]) -> (bytes: [u8; L])
    requires
        value@.len() == L,
    ensures
        bytes@ == value@,
{
    let mut bytes = [0u8; L];
    let mut i: usize = 0;
    while i < L
        invariant
            i <= L,
            value@.len() == L,
            bytes@.len() == L,
            forall|j: int| 0 <= j < i ==> bytes@[j] == value@[j],
        decreases L - i,
    {
        bytes[i] = value[i];
        i += 1;
    }
    assert(bytes@ =~= value@);
    bytes
}

impl Falcon512Pubkey {
    /// Wraps a 897-byte buffer without validation.
    pub fn from_bytes(value: [u8; FALCON_512_PUBKEY_LEN]) -> (r: Self)
        ensures
            r@ == value@,
    {
        Self(value)
    }

    /// A pubkey from a slice; `InvalidArgument` unless it is exactly 897 bytes long.
    pub fn try_from_slice(value: &[u8]) -> (r: Result<Self, ProgramError>)
        ensures
            r.is_ok() <==> value@.len() == FALCON_512_PUBKEY_LEN,
            r.is_ok() ==> r.unwrap()@ == value@,
    {
        if value.len() != FALCON_512_PUBKEY_LEN {
            return Err(invalid_argument());
        }
        Ok(Self(copy_exact(value)))
    }

    /// The raw 897-byte wire encoding.
    pub fn as_bytes(&self) -> (r: &[u8; FALCON_512_PUBKEY_LEN])
        ensures
            r@ == self@,
    {
        &self.0
    }

    /// Decodes the pubkey polynomial and transforms it into the prepared form that
    /// `verify_with_prepared` uses. The pubkey must be well formed (header `0x09`,
    /// every coefficient below q).
    pub fn prepare_pubkey(&self) -> (r: Falcon512PreparedPubkey)
        requires
            pubkey_valid(self@),
        ensures
            r@ == prepared_of(pubkey_poly(self@)),
    {
        let bytes = &self.0;
        let body = vstd::slice::slice_subrange(bytes.as_slice(), 1, FALCON_512_PUBKEY_LEN);
        let mut h = [0u32; N];
        let ok = decode_pubkey_u32(body, &mut h);
        proof {
            assert(body@ =~= self@.skip(1));
            assert(ok);
            assert(ints(h@) =~= pubkey_poly(self@));
        }
        Falcon512PreparedPubkey(prepared_from_poly(&mut h))
    }
}

// ---------------------------------------------------------------------------
// Prepared pubkey.
// ---------------------------------------------------------------------------

/// The 512 coefficients read from 1024 bytes, two little-endian bytes each.
pub open spec fn le_u16s(b: Seq<u8>) -> Seq<u16> {
    Seq::new(512, |i: int| (b[2 * i] as int + 256 * (b[2 * i + 1] as int)) as u16)
}

/// Every coefficient of a prepared pubkey is below q.
pub open spec fn prepared_in_range(h: Seq<u16>) -> bool {
    forall|i: int| 0 <= i < h.len() ==> #[trigger] h[i] < 12289
}

/// The 1024 bytes of 512 coefficients, two little-endian bytes each.
pub open spec fn le_bytes(h: Seq<u16>) -> Seq<u8> {
    Seq::new(
        1024,
        |k: int| if k % 2 == 0 { (h[k / 2] as int % 256) as u8 } else { (h[k / 2] as int / 256) as u8 },
    )
}

/// A pubkey in prepared (transformed and scaled) form: slot `i` holds
/// `512⁻¹ · h(root(i)) mod q`.
#[derive(Clone, PartialEq, Eq)]
pub struct Falcon512PreparedPubkey([u16; N]);

impl View for Falcon512PreparedPubkey {
    type V = Seq<u16>;

    closed spec fn view(&self) -> Seq<u16> {
        self.0@
    }
}

impl Falcon512PreparedPubkey {
    /// Reads 512 little-endian `u16` coefficients, as `as_bytes` writes them. No
    /// validation is done.
    pub fn from_bytes(bytes: [u8; FALCON_512_PREPARED_PUBKEY_LEN]) -> (r: Self)
        ensures
            r@ == le_u16s(bytes@),
            r@.len() == 512,
            forall|i: int| 0 <= i < 512 ==> #[trigger] r@[i] as int == bytes@[2 * i] as int + 256 * (bytes@[2 * i + 1] as int),
    {
        let mut h = [0u16; N];
        let mut i: usize = 0;
        while i < N
            invariant
                i <= N,
                forall|k: int| 0 <= k < i ==> #[trigger] h@[k] == le_u16s(bytes@)[k],
            decreases N - i,
        {
            h[i] = (bytes[2 * i] as u16) + (bytes[2 * i + 1] as u16) * 256;
            i += 1;
        }
        assert(h@ =~= le_u16s(bytes@));
        Self(h)
    }

    /// The 1024-byte little-endian serialisation; `from_bytes` reads it back.
    pub fn as_bytes(&self) -> (out: [u8; FALCON_512_PREPARED_PUBKEY_LEN])
        ensures
            out@ == le_bytes(self@),
            forall|i: int| 0 <= i < 512 ==> #[trigger] out@[2 * i] as int == self@[i] as int % 256 && out@[2 * i + 1] as int
                == self@[i] as int / 256,
    {
        let mut out = [0u8; FALCON_512_PREPARED_PUBKEY_LEN];
        let mut i: usize = 0;
        while i < N
            invariant
                i <= N,
                forall|k: int| 0 <= k < 2 * i ==> #[trigger] out@[k] == le_bytes(self@)[k],
            decreases N - i,
        {
            let coeff = self.0[i];
            proof {
                assert((2 * i) as int % 2 == 0 && (2 * i) as int / 2 == i);
                assert((2 * i + 1) as int % 2 == 1 && (2 * i + 1) as int / 2 == i);
            }
            out[2 * i] = (coeff % 256) as u8;
            out[2 * i + 1] = (coeff / 256) as u8;
            i += 1;
        }
        assert(out@ =~= le_bytes(self@));
        out
    }

    /// Every coefficient is below q, as in every prepared pubkey that
    /// `prepare_pubkey` makes.
    pub fn validate(&self) -> (ok: bool)
        ensures
            ok == prepared_in_range(self@),
            ok <==> forall|i: int| 0 <= i < 512 ==> #[trigger] self@[i] < 12289,
    {
        let mut i: usize = 0;
        while i < N
            invariant
                i <= N,
                forall|k: int| 0 <= k < i ==> #[trigger] self@[k] < 12289,
            decreases N - i,
        {
            if self.0[i] >= Q as u16 {
                return false;
            }
            i += 1;
        }
        true
    }

    /// A prepared pubkey from a slice; `InvalidArgument` unless it is exactly 1024
    /// bytes long and every coefficient it holds is below q.
    pub fn try_from_slice(value: &[u8]) -> (r: Result<Self, ProgramError>)
        ensures
            r.is_ok() <==> (value@.len() == FALCON_512_PREPARED_PUBKEY_LEN && prepared_in_range(le_u16s(value@))),
            r.is_ok() ==> r.unwrap()@ == le_u16s(value@),
            r.is_ok() <==> (value@.len() == FALCON_512_PREPARED_PUBKEY_LEN && forall|i: int|
                0 <= i < 512 ==> #[trigger] value@[2 * i] as int + 256 * (value@[2 * i + 1] as int) < 12289),
            r.is_ok() ==> forall|i: int| 0 <= i < 512 ==> #[trigger] r.unwrap()@[i] as int == value@[2 * i] as int + 256 * (
                value@[2 * i + 1] as int),
    {
        if value.len() != FALCON_512_PREPARED_PUBKEY_LEN {
            return Err(invalid_argument());
        }
        let prepared = Self::from_bytes(copy_exact(value));
        if !prepared.validate() {
            proof {
                let i = choose|i: int| 0 <= i < 512 && !(prepared@[i] < 12289);
                assert(!(value@[2 * i] as int + 256 * (value@[2 * i + 1] as int) < 12289));
            }
            return Err(invalid_argument());
        }
        proof {
            assert forall|i: int| 0 <= i < 512 implies #[trigger] value@[2 * i] as int + 256 * (value@[2 * i + 1] as int)
                < 12289 by {
                assert(prepared@[i] < 12289);
            }
        }
        Ok(prepared)
    }
}

impl<'a> TryFrom<&'a [u8]> for Falcon512PreparedPubkey {
    type Error = ProgramError;

    /// Checks the length only, like `from_bytes` on an array.
    fn try_from(value: &'a [u8]) -> (r: Result<Self, Self::Error>)
        ensures
            r.is_ok() <==> value@.len() == FALCON_512_PREPARED_PUBKEY_LEN,
            r.is_ok() ==> r.unwrap()@ == le_u16s(value@),
            r.is_ok() ==> forall|i: int| 0 <= i < 512 ==> #[trigger] r.unwrap()@[i] as int == value@[2 * i] as int + 256 * (
                value@[2 * i + 1] as int),
    {
        if value.len() != FALCON_512_PREPARED_PUBKEY_LEN {
            return Err(invalid_argument());
        }
        Ok(Self::from_bytes(copy_exact(value)))
    }
}

/// The conversion's contract stands on `try_from`; the trait's own specification
/// function is not claimed.
impl<'a> vstd::std_specs::convert::TryFromSpecImpl<&'a [u8]> for Falcon512PreparedPubkey {
    open spec fn obeys_try_from_spec() -> bool {
        false
    }

    open spec fn try_from_spec(v: &'a [u8]) -> Result<Self, ProgramError> {
        arbitrary()
    }
}

// ---------------------------------------------------------------------------
// Signature.
// ---------------------------------------------------------------------------

/// Wire-encoded compressed Falcon-512 signature: header `0x39`, 40-byte nonce and the
/// Golomb–Rice-encoded `s2`, zero-padded to 666 bytes.
#[derive(Clone, PartialEq, Eq)]
pub struct Falcon512Signature([u8; FALCON_512_SIGNATURE_LEN]);

impl View for Falcon512Signature {
    type V = Seq<u8>;

    closed spec fn view(&self) -> Seq<u8> {
        self.0@
    }
}

impl From<[u8; FALCON_512_SIGNATURE_LEN]> for Falcon512Signature {
    fn from(value: [u8; FALCON_512_SIGNATURE_LEN]) -> (r: Self) {
        Self(value)
    }
}

impl vstd::std_specs::convert::FromSpecImpl<[u8; FALCON_512_SIGNATURE_LEN]> for Falcon512Signature {
    open spec fn obeys_from_spec() -> bool {
        true
    }

    closed spec fn from_spec(v: [u8; FALCON_512_SIGNATURE_LEN]) -> Self {
        Falcon512Signature(v)
    }
}

impl<'a> TryFrom<&'a [u8]> for Falcon512Signature {
    type Error = ProgramError;

    fn try_from(value: &'a [u8]) -> (r: Result<Self, Self::Error>)
        ensures
            r.is_ok() <==> value@.len() == FALCON_512_SIGNATURE_LEN,
            r.is_ok() ==> r.unwrap()@ == value@,
    {
        Self::try_from_slice(value)
    }
}

/// The conversion's contract stands on `try_from`; the trait's own specification
/// function is not claimed.
impl<'a> vstd::std_specs::convert::TryFromSpecImpl<&'a [u8]> for Falcon512Signature {
    open spec fn obeys_try_from_spec() -> bool {
        false
    }

    open spec fn try_from_spec(v: &'a [u8]) -> Result<Self, ProgramError> {
        arbitrary()
    }
}

impl Falcon512Signature {
    /// Wraps a 666-byte buffer without validation.
    pub fn from_bytes(value: [u8; FALCON_512_SIGNATURE_LEN]) -> (r: Self)
        ensures
            r@ == value@,
    {
        Self(value)
    }

    /// A signature from a slice; `InvalidArgument` unless it is exactly 666 bytes long.
    pub fn try_from_slice(value: &[u8]) -> (r: Result<Self, ProgramError>)
        ensures
            r.is_ok() <==> value@.len() == FALCON_512_SIGNATURE_LEN,
            r.is_ok() ==> r.unwrap()@ == value@,
    {
        if value.len() != FALCON_512_SIGNATURE_LEN {
            return Err(invalid_argument());
        }
        Ok(Self(copy_exact(value)))
    }

    /// The raw 666-byte wire encoding.
    pub fn as_bytes(&self) -> (r: &[u8; FALCON_512_SIGNATURE_LEN])
        ensures
            r@ == self@,
    {
        &self.0
    }

    /// Verifies against a prepared pubkey. `false` on a wrong header, a signature that
    /// does not decompress, or a norm above the bound; never panics.
    pub fn verify_with_prepared(&self, message: &[u8], prepared: &Falcon512PreparedPubkey) -> (ok: bool)
        ensures
            ok == verify_prepared_spec(self@, message@, prepared@),
    {
        let sig = &self.0;
        if sig[0] != SIG_HEADER {
            return false;
        }
        let nonce = vstd::slice::slice_subrange(sig.as_slice(), 1, 1 + NONCE_LEN);
        let comp = vstd::slice::slice_subrange(sig.as_slice(), 1 + NONCE_LEN, FALCON_512_SIGNATURE_LEN);
        proof {
            assert(nonce@ =~= sig_nonce(self@));
            assert(comp@ =~= sig_body(self@));
        }
        let mut s2 = [0i16; N];
        if !decompress_signature(comp, &mut s2) {
            return false;
        }
        let mut c = [0u16; N];
        proof {
            assert(c@ =~= Seq::new(512, |i: int| 0u16));
        }
        hash_to_point(nonce, message, &mut c);
        let ok = norm_check_with_prepared(&prepared.0, &s2, &c);
        proof {
            let a = sints(s2@);
            lemma_prepared_poly_product(a, prepared@);
            lemma_sq_norm_cong(u16_ints(c@), prepared_product(a, prepared@), negacyclic_mul(a, prepared_poly(prepared@)), a, 512);
        }
        ok
    }

    /// Verifies against a wire-encoded pubkey, decoding and transforming it on every
    /// call. `false` on a wrong header, a malformed pubkey or signature, or a norm above
    /// the bound; never panics.
    pub fn verify(&self, message: &[u8], pubkey: &Falcon512Pubkey) -> (ok: bool)
        ensures
            ok == verify_spec(self@, message@, pubkey@),
    {
        let sig = &self.0;
        let pk = &pubkey.0;
        if sig[0] != SIG_HEADER || pk[0] != PUBKEY_HEADER {
            return false;
        }
        let nonce = vstd::slice::slice_subrange(sig.as_slice(), 1, 1 + NONCE_LEN);
        let comp = vstd::slice::slice_subrange(sig.as_slice(), 1 + NONCE_LEN, FALCON_512_SIGNATURE_LEN);
        proof {
            assert(nonce@ =~= sig_nonce(self@));
            assert(comp@ =~= sig_body(self@));
        }
        let mut s2 = [0i16; N];
        if !decompress_signature(comp, &mut s2) {
            return false;
        }
        let mut c = [0u16; N];
        proof {
            assert(c@ =~= Seq::new(512, |i: int| 0u16));
        }
        hash_to_point(nonce, message, &mut c);
        let pk_data = vstd::slice::slice_subrange(pk.as_slice(), 1, FALCON_512_PUBKEY_LEN);
        proof {
            assert(pk_data@ =~= pubkey@.skip(1));
        }
        check_norm(pk_data, &s2, &c)
    }
}


// ---------------------------------------------------------------------------
// Laws.
// ---------------------------------------------------------------------------

/// Verifying against the prepared form of a well-formed pubkey gives the same answer
/// as verifying against the pubkey itself, for every signature and message.
pub proof fn lemma_prepared_verify_matches(sig: Seq<u8>, message: Seq<u8>, pk: Seq<u8>)
    requires
        pubkey_valid(pk),
    ensures
        verify_prepared_spec(sig, message, prepared_of(pubkey_poly(pk))) == verify_spec(sig, message, pk),
{
    if decompress_spec(sig_body(sig)) is Some {
        let a = decompress_spec(sig_body(sig)).unwrap();
        let h = pubkey_poly(pk);
        crate::codec::lemma_decompress_len(sig_body(sig));
        let hp = prepared_of(h);
        let c = u16_ints(sig_point(sig, message));
        lemma_prepared_product(a, h);
        lemma_prepared_poly_product(a, hp);
        lemma_sq_norm_cong(c, prepared_product(a, hp), negacyclic_mul(a, h), a, 512);
        lemma_sq_norm_cong(c, prepared_product(a, hp), negacyclic_mul(a, prepared_poly(hp)), a, 512);
    }
}

/// Reading back the serialised prepared pubkey gives the same coefficients.
pub proof fn lemma_prepared_bytes_round_trip(h: Seq<u16>)
    requires
        h.len() == 512,
    ensures
        le_u16s(le_bytes(h)) == h,
{
    assert forall|i: int| 0 <= i < 512 implies #[trigger] le_u16s(le_bytes(h))[i] == h[i] by {
        assert((2 * i) % 2 == 0 && (2 * i) / 2 == i);
        assert((2 * i + 1) % 2 == 1 && (2 * i + 1) / 2 == i);
    }
    assert(le_u16s(le_bytes(h)) =~= h);
}

/// Serialising the coefficients read from 1024 bytes gives those bytes back.
pub proof fn lemma_prepared_bytes_inverse(b: Seq<u8>)
    requires
        b.len() == 1024,
    ensures
        le_bytes(le_u16s(b)) == b,
{
    assert forall|k: int| 0 <= k < 1024 implies #[trigger] le_bytes(le_u16s(b))[k] == b[k] by {
        let i = k / 2;
        assert(k == 2 * i + k % 2);
        let v = b[2 * i] as int + 256 * (b[2 * i + 1] as int);
        assert(v % 256 == b[2 * i] as int && v / 256 == b[2 * i + 1] as int) by {
            vstd::arithmetic::div_mod::lemma_fundamental_div_mod_converse(v, 256, b[2 * i + 1] as int, b[2 * i] as int);
        }
    }
    assert(le_bytes(le_u16s(b)) =~= b);
}


/// Every prepared pubkey that `prepare_pubkey` makes passes `validate`.
pub proof fn lemma_prepared_in_range(h: Seq<int>)
    ensures
        prepared_in_range(prepared_of(h)),
{
    assert forall|i: int| 0 <= i < 512 implies #[trigger] prepared_of(h)[i] < 12289 by {
        let v = (n_inv() * eval(h, root(i))) % q();
        assert(0 <= v < 12289);
    }
}


/// A polynomial with coefficients in `[0, q)` is the one its prepared form stands for.
pub proof fn lemma_prepared_poly_of(h: Seq<int>)
    requires
        h.len() == 512,
        forall|i: int| 0 <= i < 512 ==> 0 <= #[trigger] h[i] < q(),
    ensures
        prepared_poly(prepared_of(h)) == h,
{
    let hp = prepared_of(h);
    assert forall|i: int| 0 <= i < 512 implies #[trigger] prepared_of(h)[i] as int == (hp[i] as int) % q() by {
        lemma_mod_twice(n_inv() * eval(h, root(i)), q());
    }
    assert(is_prepared_poly(h, hp));
    let g = prepared_poly(hp);
    assert(is_prepared_poly(g, hp));
    lemma_prepared_injective(g, h);
}

/// Two polynomials with coefficients in `[0, q)` and the same prepared form are equal.
proof fn lemma_prepared_injective(g: Seq<int>, h: Seq<int>)
    requires
        g.len() == 512,
        h.len() == 512,
        forall|i: int| 0 <= i < 512 ==> 0 <= #[trigger] g[i] < q(),
        forall|i: int| 0 <= i < 512 ==> 0 <= #[trigger] h[i] < q(),
        forall|i: int| 0 <= i < 512 ==> #[trigger] prepared_of(g)[i] as int == prepared_of(h)[i] as int,
    ensures
        g == h,
{
    assert forall|i: int| 0 <= i < 512 implies #[trigger] ntt_spec(g)[i] == ntt_spec(h)[i] by {
        let (u, v) = (eval(g, root(i)), eval(h, root(i)));
        // 512 · (512⁻¹ · x) ≡ x, so the evaluations are recovered from the prepared slots.
        assert(prepared_of(g)[i] as int == (n_inv() * u) % q());
        assert(prepared_of(h)[i] as int == (n_inv() * v) % q());
        lemma_mul_mod_noop_right(512, n_inv() * u, q());
        lemma_mul_mod_noop_right(512, n_inv() * v, q());
        assert(512 * (n_inv() * u) == (512 * n_inv()) * u) by (nonlinear_arith);
        assert(512 * (n_inv() * v) == (512 * n_inv()) * v) by (nonlinear_arith);
        lemma_mul_mod_noop_left(512 * n_inv(), u, q());
        lemma_mul_mod_noop_left(512 * n_inv(), v, q());
        assert((512 * n_inv()) % q() == 1);
    }
    assert(ntt_spec(g) =~= ntt_spec(h));
    lemma_ntt_round_trip(g);
    lemma_ntt_round_trip(h);
}


/// The prepared-pubkey layout: coefficient `i` is read from bytes `2i` (low) and
/// `2i + 1` (high) of the 1024-byte buffer.
pub proof fn lemma_le_u16s_layout(b: Seq<u8>)
    requires
        b.len() == 1024,
    ensures
        le_u16s(b).len() == 512,
        forall|i: int| 0 <= i < 512 ==> #[trigger] le_u16s(b)[i] as int == b[2 * i] as int + 256 * (b[2 * i + 1] as int),
{
}

/// The prepared-pubkey layout when writing: byte `2i` holds the low byte and byte
/// `2i + 1` the high byte of coefficient `i`.
pub proof fn lemma_le_bytes_layout(h: Seq<u16>)
    requires
        h.len() == 512,
    ensures
        le_bytes(h).len() == 1024,
        forall|i: int| 0 <= i < 512 ==> #[trigger] le_bytes(h)[2 * i] as int == h[i] as int % 256 && le_bytes(h)[2
            * i + 1] as int == h[i] as int / 256,
{
    assert forall|i: int| 0 <= i < 512 implies #[trigger] le_bytes(h)[2 * i] as int == h[i] as int % 256 && le_bytes(h)[2
        * i + 1] as int == h[i] as int / 256 by {
        assert((2 * i) % 2 == 0 && (2 * i) / 2 == i);
        assert((2 * i + 1) % 2 == 1 && (2 * i + 1) / 2 == i);
    }
}

/// A prepared pubkey is in range exactly when each of its 512 coefficients is below q.
pub proof fn lemma_prepared_in_range_slots(h: Seq<u16>)
    requires
        h.len() == 512,
    ensures
        prepared_in_range(h) <==> forall|i: int| 0 <= i < 512 ==> #[trigger] h[i] < 12289,
{
}

} // verus!
