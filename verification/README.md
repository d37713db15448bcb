# solana_falcon512

Falcon-512 signature verification (compressed signatures, header `0x39`) written in
Verus: every executable function carries a contract that the verifier proves, from
the byte-level wire formats down to the modular arithmetic of the NTT.

## Layout

- `src/lib.rs` — the public types (`Falcon512Pubkey`, `Falcon512PreparedPubkey`,
  `Falcon512Signature`), `verify` / `verify_with_prepared`, and the statement of what
  verification computes: `‖(c − s2·h mod (q, x^512 + 1), s2)‖² ≤ 34 034 726`.
- `src/codec.rs` — the 14-bit pubkey packing, the Golomb–Rice signature compression,
  and hashing a nonce and message to a point by SHAKE256 rejection sampling.
- `src/keccak.rs`, `src/keccak_rc.rs` — Keccak-f[1600] (lane-complementing form),
  a step-by-step textbook form proved equal to it, the round constants proved equal
  to the FIPS 202 LFSR, and the SHAKE256 sponge.
- `src/ntt.rs` — the in-place transforms and the fused kernels of the verification
  path, with lazy reduction whose bounds are proved free of overflow.
- `src/ntt_spec.rs`, `src/poly.rs`, `src/modq.rs`, `src/bits.rs` — the mathematics the
  contracts are stated in: layers of butterflies, polynomial evaluation and the
  negacyclic product, roots of `x^512 + 1` modulo 12289, and MSB-first bit strings.

## Main results

- `verify` returns exactly `verify_spec`; `verify_with_prepared` against
  `prepare_pubkey(pk)` agrees with `verify` against `pk` (`lemma_prepared_verify_matches`).
- `ntt` evaluates at the 512 roots of `x^512 + 1`; `inv_ntt` undoes it
  (`lemma_ntt_round_trip`) and is undone by it (`lemma_ntt_round_trip_inverse`), and
  slot-wise products transform back to the negacyclic
  product (`lemma_ntt_mul`).
- `keccak_f1600` equals the textbook permutation with LFSR-derived constants on every
  state (`lemma_keccak_f1600_matches_reference`); chunked absorbing and squeezing
  compose (`lemma_absorb_split`, `lemma_absorb_parts`, `lemma_squeeze_split`).
- The compressed encoding of a coefficient decodes back to it (`lemma_coeff_at_encoded`,
  `lemma_decompress_encoded`), and the pubkey packing is one-to-one
  (`lemma_pk_encoding_injective`).

Tests under `tests/` cross-check against the NIST SHAKE256 vectors, the `sha3` crate
and signatures made with `pqcrypto-falcon`.
