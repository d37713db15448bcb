//! Keccak-f[1600] and the SHAKE256 sponge (FIPS 202).
use vstd::prelude::*;
use crate::keccak_rc::lemma_rc_matches_lfsr;
use vstd::arithmetic::power2::pow2;

verus! {

/// Keccak-f[1600] round constants (FIPS 202, §3.2.5).
pub const RC: [u64; 24] = [
    0x0000000000000001,
    0x0000000000008082,
    0x800000000000808a,
    0x8000000080008000,
    0x000000000000808b,
    0x0000000080000001,
    0x8000000080008081,
    0x8000000000008009,
    0x000000000000008a,
    0x0000000000000088,
    0x0000000080008009,
    0x000000008000000a,
    0x000000008000808b,
    0x800000000000008b,
    0x8000000000008089,
    0x8000000000008003,
    0x8000000000008002,
    0x8000000000000080,
    0x000000000000800a,
    0x800000008000000a,
    0x8000000080008081,
    0x8000000000008080,
    0x0000000080000001,
    0x8000000080008008,
];

/// Left rotation of a lane by `n` bits.
pub open spec fn rotl(x: u64, n: u64) -> u64 {
    if n == 0 {
        x
    } else {
        ((x << n) | (x >> ((64 - n) as u64))) as u64
    }
}

/// The rotation offsets `r[x][y]` of the ρ step.
pub open spec fn rho(x: int, y: int) -> u64 {
    if x == 0 {
        if y == 0 {
            0
        } else if y == 1 {
            36
        } else if y == 2 {
            3
        } else if y == 3 {
            41
        } else {
            18
        }
    } else if x == 1 {
        if y == 0 {
            1
        } else if y == 1 {
            44
        } else if y == 2 {
            10
        } else if y == 3 {
            45
        } else {
            2
        }
    } else if x == 2 {
        if y == 0 {
            62
        } else if y == 1 {
            6
        } else if y == 2 {
            43
        } else if y == 3 {
            15
        } else {
            61
        }
    } else if x == 3 {
        if y == 0 {
            28
        } else if y == 1 {
            55
        } else if y == 2 {
            25
        } else if y == 3 {
            21
        } else {
            56
        }
    } else {
        if y == 0 {
            27
        } else if y == 1 {
            20
        } else if y == 2 {
            39
        } else if y == 3 {
            8
        } else {
            14
        }
    }
}

/// θ: parity of column `x`.
pub open spec fn theta_c(t: Seq<u64>, x: int) -> u64 {
    t[x] ^ t[x + 5] ^ t[x + 10] ^ t[x + 15] ^ t[x + 20]
}

/// θ: the value XORed into every lane of column `x`.
pub open spec fn theta_d(t: Seq<u64>, x: int) -> u64 {
    theta_c(t, (x + 4) % 5) ^ rotl(theta_c(t, (x + 1) % 5), 1)
}

/// θ, ρ and π: lane `(x, y)` of the permuted state comes from lane `((x + 3y) mod 5, x)`.
pub open spec fn theta_rho_pi(t: Seq<u64>, x: int, y: int) -> u64 {
    let sx = (x + 3 * y) % 5;
    rotl(t[sx + 5 * x] ^ theta_d(t, sx), rho(sx, x))
}

/// χ applied to lane `(x, y)`.
pub open spec fn chi(t: Seq<u64>, x: int, y: int) -> u64 {
    theta_rho_pi(t, x, y) ^ (!theta_rho_pi(t, (x + 1) % 5, y) & theta_rho_pi(t, (x + 2) % 5, y))
}

/// One round of Keccak-f[1600]: θ, ρ, π, χ, then ι with round constant `rc`.
pub open spec fn round_spec(t: Seq<u64>, rc: u64) -> Seq<u64> {
    Seq::new(25, |i: int| if i == 0 { chi(t, 0, 0) ^ rc } else { chi(t, i % 5, i / 5) })
}

/// The first `n` rounds, with constants from `rcs`.
pub open spec fn rounds_spec(t: Seq<u64>, rcs: Seq<u64>, n: nat) -> Seq<u64>
    decreases n,
{
    if n == 0 {
        t
    } else {
        round_spec(rounds_spec(t, rcs, (n - 1) as nat), rcs[n - 1])
    }
}

/// Keccak-f[1600]: 24 rounds with the FIPS 202 round constants.
pub open spec fn keccak_f_spec(t: Seq<u64>) -> Seq<u64> {
    rounds_spec(t, RC@, 24)
}

/// The lanes that the lane-complementing implementation stores inverted.
pub open spec fn complemented(i: int) -> bool {
    i == 1 || i == 2 || i == 8 || i == 12 || i == 17 || i == 20
}

/// The state as the lane-complementing rounds store it.
pub open spec fn comp(t: Seq<u64>) -> Seq<u64> {
    Seq::new(25, |i: int| if complemented(i) { !t[i] } else { t[i] })
}

/// Complements commute with XOR and with rotation.
proof fn lemma_not_xor_rotl(a: u64, b: u64, n: u64)
    by (bit_vector)
    requires
        0 < n < 64,
    ensures
        (!a) ^ b == !(a ^ b),
        a ^ (!b) == !(a ^ b),
        (!a) ^ (!b) == a ^ b,
        !(!a) == a,
        rotl(!a, n) == !rotl(a, n),
        rotl(!a, 1) == !rotl(a, 1),
{
}

/// Column parities with the complemented lanes of each column.
proof fn lemma_parity_patterns(a: u64, b: u64, c: u64, d: u64, e: u64)
    by (bit_vector)
    ensures
        a ^ b ^ c ^ d ^ (!e) == !(a ^ b ^ c ^ d ^ e),
        (!a) ^ b ^ c ^ d ^ e == !(a ^ b ^ c ^ d ^ e),
        (!a) ^ b ^ (!c) ^ (!d) ^ e == !(a ^ b ^ c ^ d ^ e),
        a ^ (!b) ^ c ^ d ^ e == !(a ^ b ^ c ^ d ^ e),
{
}

/// The five χ rows of the lane-complementing round, each with its complemented inputs
/// and outputs, against the plain χ row `o_x = b_x ^ (!b_(x+1) & b_(x+2))`.
proof fn lemma_chi_rows(b0: u64, b1: u64, b2: u64, b3: u64, b4: u64, rc: u64)
    by (bit_vector)
    ensures
        (!b0) ^ (b1 | (!b2)) ^ rc == (b0 ^ (!b1 & b2)) ^ rc,
        b1 ^ ((!(!b2)) | (!b3)) == !(b1 ^ (!b2 & b3)),
        (!b2) ^ ((!b3) & b4) == !(b2 ^ (!b3 & b4)),
        (!b3) ^ (b4 | (!b0)) == b3 ^ (!b4 & b0),
        b4 ^ ((!b0) & b1) == b4 ^ (!b0 & b1),
        (!b0) ^ (b1 | (!b2)) == b0 ^ (!b1 & b2),
        b1 ^ ((!b2) & b3) == b1 ^ (!b2 & b3),
        (!(!b2)) ^ b4 ^ (b3 & b4) == b2 ^ (!b3 & b4),
        b3 ^ (b4 | (!b0)) == !(b3 ^ (!b4 & b0)),
        b4 ^ ((!b0) & b1) == b4 ^ (!b0 & b1),
        (!b2) ^ b4 ^ (b3 & b4) == !(b2 ^ (!b3 & b4)),
        b3 ^ !(b4 | (!b0)) == b3 ^ (!b4 & b0),
        b0 ^ ((!b1) & b2) == b0 ^ (!b1 & b2),
        (!b1) ^ (b2 | (!b3)) == b1 ^ (!b2 & b3),
        b2 ^ ((!(!b3)) | (!b4)) == !(b2 ^ (!b3 & b4)),
        (!(!b3)) ^ ((!b4) & b0) == b3 ^ (!b4 & b0),
        (!b4) ^ (b0 | (!b1)) == b4 ^ (!b0 & b1),
        (!b0) ^ b2 ^ (b1 & b2) == !(b0 ^ (!b1 & b2)),
        b1 ^ !(b2 | (!b3)) == b1 ^ (!b2 & b3),
        b2 ^ ((!b3) & b4) == b2 ^ (!b3 & b4),
        (!b3) ^ (b4 | (!b0)) == b3 ^ (!b4 & b0),
        b4 ^ ((!b0) & b1) == b4 ^ (!b0 & b1),
{
}

/// Left rotation of a lane by `n` bits, `0 < n < 64`.
fn rotl_exec(x: u64, n: u64) -> (r: u64)
    requires
        0 < n < 64,
    ensures
        r == rotl(x, n),
{
    (x << n) | (x >> (64 - n))
}

/// One lane-complemented round. The lanes in `complemented` are stored inverted
/// before and after; θ's column parities and the χ rows are adjusted so that no
/// extra inversions are needed inside the round.
#[verifier::rlimit(100)]
#[verifier::spinoff_prover]
fn keccak_round(s: &mut [u64; 25], rc: u64, Ghost(t): Ghost<Seq<u64>>)
    requires
        t.len() == 25,
        old(s)@ == comp(t),
    ensures
        final(s)@ == comp(round_spec(t, rc)),
{
    let ghost o = s@;
    let c0 = s[0] ^ s[5] ^ s[10] ^ s[15] ^ s[20];
    let c1 = s[1] ^ s[6] ^ s[11] ^ s[16] ^ s[21];
    let c2 = s[2] ^ s[7] ^ s[12] ^ s[17] ^ s[22];
    let c3 = s[3] ^ s[8] ^ s[13] ^ s[18] ^ s[23];
    let c4 = s[4] ^ s[9] ^ s[14] ^ s[19] ^ s[24];
    let d0 = c4 ^ rotl_exec(c1, 1);
    let d1 = c0 ^ rotl_exec(c2, 1);
    let d2 = c1 ^ rotl_exec(c3, 1);
    let d3 = c2 ^ rotl_exec(c4, 1);
    let d4 = c3 ^ rotl_exec(c0, 1);
    proof {
        lemma_round_theta(t, o, c0, c1, c2, c3, c4, d0, d1, d2, d3, d4);
    }
    let s3 = s[3];
    let s1 = s[1];
    let s4 = s[4];
    let s2 = s[2];
    // Row 0.
    let y0b0 = s[0] ^ d0;
    let y0b1 = rotl_exec(s[6] ^ d1, 44);
    let y0b2 = rotl_exec(s[12] ^ d2, 43);
    let y0b3 = rotl_exec(s[18] ^ d3, 21);
    let y0b4 = rotl_exec(s[24] ^ d4, 14);
    proof {
        assert(y0b0 == !theta_rho_pi(t, 0, 0)) by {
            lemma_not_xor_rotl(t[0], theta_d(t, 0), 1);
        }
        assert(y0b1 == theta_rho_pi(t, 1, 0)) by {
            lemma_not_xor_rotl(t[6], theta_d(t, 1), 44);
            lemma_not_xor_rotl(t[6] ^ theta_d(t, 1), 0, 44);
        }
        assert(y0b2 == !theta_rho_pi(t, 2, 0)) by {
            lemma_not_xor_rotl(t[12], theta_d(t, 2), 43);
            lemma_not_xor_rotl(t[12] ^ theta_d(t, 2), 0, 43);
        }
        assert(y0b3 == !theta_rho_pi(t, 3, 0)) by {
            lemma_not_xor_rotl(t[18], theta_d(t, 3), 21);
            lemma_not_xor_rotl(t[18] ^ theta_d(t, 3), 0, 21);
        }
        assert(y0b4 == theta_rho_pi(t, 4, 0)) by {
            lemma_not_xor_rotl(t[24], theta_d(t, 4), 14);
            lemma_not_xor_rotl(t[24] ^ theta_d(t, 4), 0, 14);
        }
    }
    s[0] = y0b0 ^ (y0b1 | y0b2) ^ rc;
    s[1] = y0b1 ^ ((!y0b2) | y0b3);
    s[2] = y0b2 ^ (y0b3 & y0b4);
    s[3] = y0b3 ^ (y0b4 | y0b0);
    s[4] = y0b4 ^ (y0b0 & y0b1);
    proof {
        lemma_chi_rows(theta_rho_pi(t, 0, 0), theta_rho_pi(t, 1, 0), theta_rho_pi(t, 2, 0), theta_rho_pi(t, 3, 0), theta_rho_pi(t, 4, 0), rc);
        assert(s[0] == comp(round_spec(t, rc))[0]);
        assert(s[1] == comp(round_spec(t, rc))[1]);
        assert(s[2] == comp(round_spec(t, rc))[2]);
        assert(s[3] == comp(round_spec(t, rc))[3]);
        assert(s[4] == comp(round_spec(t, rc))[4]);
    }
    let s7 = s[7];
    let s5 = s[5];
    let s8 = s[8];
    // Row 1.
    let y1b0 = rotl_exec(s3 ^ d3, 28);
    let y1b1 = rotl_exec(s[9] ^ d4, 20);
    let y1b2 = rotl_exec(s[10] ^ d0, 3);
    let y1b3 = rotl_exec(s[16] ^ d1, 45);
    let y1b4 = rotl_exec(s[22] ^ d2, 61);
    proof {
        assert(y1b0 == !theta_rho_pi(t, 0, 1)) by {
            lemma_not_xor_rotl(t[3], theta_d(t, 3), 28);
            lemma_not_xor_rotl(t[3] ^ theta_d(t, 3), 0, 28);
        }
        assert(y1b1 == theta_rho_pi(t, 1, 1)) by {
            lemma_not_xor_rotl(t[9], theta_d(t, 4), 20);
            lemma_not_xor_rotl(t[9] ^ theta_d(t, 4), 0, 20);
        }
        assert(y1b2 == !theta_rho_pi(t, 2, 1)) by {
            lemma_not_xor_rotl(t[10], theta_d(t, 0), 3);
            lemma_not_xor_rotl(t[10] ^ theta_d(t, 0), 0, 3);
        }
        assert(y1b3 == theta_rho_pi(t, 3, 1)) by {
            lemma_not_xor_rotl(t[16], theta_d(t, 1), 45);
            lemma_not_xor_rotl(t[16] ^ theta_d(t, 1), 0, 45);
        }
        assert(y1b4 == theta_rho_pi(t, 4, 1)) by {
            lemma_not_xor_rotl(t[22], theta_d(t, 2), 61);
            lemma_not_xor_rotl(t[22] ^ theta_d(t, 2), 0, 61);
        }
    }
    s[5] = y1b0 ^ (y1b1 | y1b2);
    s[6] = y1b1 ^ (y1b2 & y1b3);
    s[7] = (!y1b2) ^ y1b4 ^ (y1b3 & y1b4);
    s[8] = y1b3 ^ (y1b4 | y1b0);
    s[9] = y1b4 ^ (y1b0 & y1b1);
    proof {
        lemma_chi_rows(theta_rho_pi(t, 0, 1), theta_rho_pi(t, 1, 1), theta_rho_pi(t, 2, 1), theta_rho_pi(t, 3, 1), theta_rho_pi(t, 4, 1), rc);
        assert(s[5] == comp(round_spec(t, rc))[5]);
        assert(s[6] == comp(round_spec(t, rc))[6]);
        assert(s[7] == comp(round_spec(t, rc))[7]);
        assert(s[8] == comp(round_spec(t, rc))[8]);
        assert(s[9] == comp(round_spec(t, rc))[9]);
    }
    let s11 = s[11];
    let s14 = s[14];
    // Row 2.
    let y2b0 = rotl_exec(s1 ^ d1, 1);
    let y2b1 = rotl_exec(s7 ^ d2, 6);
    let y2b2 = rotl_exec(s[13] ^ d3, 25);
    let y2b3 = rotl_exec(s[19] ^ d4, 8);
    let y2b4 = rotl_exec(s[20] ^ d0, 18);
    proof {
        assert(y2b0 == !theta_rho_pi(t, 0, 2)) by {
            lemma_not_xor_rotl(t[1], theta_d(t, 1), 1);
            lemma_not_xor_rotl(t[1] ^ theta_d(t, 1), 0, 1);
        }
        assert(y2b1 == theta_rho_pi(t, 1, 2)) by {
            lemma_not_xor_rotl(t[7], theta_d(t, 2), 6);
            lemma_not_xor_rotl(t[7] ^ theta_d(t, 2), 0, 6);
        }
        assert(y2b2 == !theta_rho_pi(t, 2, 2)) by {
            lemma_not_xor_rotl(t[13], theta_d(t, 3), 25);
            lemma_not_xor_rotl(t[13] ^ theta_d(t, 3), 0, 25);
        }
        assert(y2b3 == theta_rho_pi(t, 3, 2)) by {
            lemma_not_xor_rotl(t[19], theta_d(t, 4), 8);
            lemma_not_xor_rotl(t[19] ^ theta_d(t, 4), 0, 8);
        }
        assert(y2b4 == theta_rho_pi(t, 4, 2)) by {
            lemma_not_xor_rotl(t[20], theta_d(t, 0), 18);
            lemma_not_xor_rotl(t[20] ^ theta_d(t, 0), 0, 18);
        }
    }
    s[10] = y2b0 ^ (y2b1 | y2b2);
    s[11] = y2b1 ^ (y2b2 & y2b3);
    s[12] = y2b2 ^ y2b4 ^ (y2b3 & y2b4);
    s[13] = y2b3 ^ !(y2b4 | y2b0);
    s[14] = y2b4 ^ (y2b0 & y2b1);
    proof {
        lemma_chi_rows(theta_rho_pi(t, 0, 2), theta_rho_pi(t, 1, 2), theta_rho_pi(t, 2, 2), theta_rho_pi(t, 3, 2), theta_rho_pi(t, 4, 2), rc);
        assert(s[10] == comp(round_spec(t, rc))[10]);
        assert(s[11] == comp(round_spec(t, rc))[11]);
        assert(s[12] == comp(round_spec(t, rc))[12]);
        assert(s[13] == comp(round_spec(t, rc))[13]);
        assert(s[14] == comp(round_spec(t, rc))[14]);
    }
    let s15 = s[15];
    // Row 3.
    let y3b0 = rotl_exec(s4 ^ d4, 27);
    let y3b1 = rotl_exec(s5 ^ d0, 36);
    let y3b2 = rotl_exec(s11 ^ d1, 10);
    let y3b3 = rotl_exec(s[17] ^ d2, 15);
    let y3b4 = rotl_exec(s[23] ^ d3, 56);
    proof {
        assert(y3b0 == theta_rho_pi(t, 0, 3)) by {
            lemma_not_xor_rotl(t[4], theta_d(t, 4), 27);
            lemma_not_xor_rotl(t[4] ^ theta_d(t, 4), 0, 27);
        }
        assert(y3b1 == !theta_rho_pi(t, 1, 3)) by {
            lemma_not_xor_rotl(t[5], theta_d(t, 0), 36);
            lemma_not_xor_rotl(t[5] ^ theta_d(t, 0), 0, 36);
        }
        assert(y3b2 == theta_rho_pi(t, 2, 3)) by {
            lemma_not_xor_rotl(t[11], theta_d(t, 1), 10);
            lemma_not_xor_rotl(t[11] ^ theta_d(t, 1), 0, 10);
        }
        assert(y3b3 == !theta_rho_pi(t, 3, 3)) by {
            lemma_not_xor_rotl(t[17], theta_d(t, 2), 15);
            lemma_not_xor_rotl(t[17] ^ theta_d(t, 2), 0, 15);
        }
        assert(y3b4 == !theta_rho_pi(t, 4, 3)) by {
            lemma_not_xor_rotl(t[23], theta_d(t, 3), 56);
            lemma_not_xor_rotl(t[23] ^ theta_d(t, 3), 0, 56);
        }
    }
    s[15] = y3b0 ^ (y3b1 & y3b2);
    s[16] = y3b1 ^ (y3b2 | y3b3);
    s[17] = y3b2 ^ ((!y3b3) | y3b4);
    s[18] = (!y3b3) ^ (y3b4 & y3b0);
    s[19] = y3b4 ^ (y3b0 | y3b1);
    proof {
        lemma_chi_rows(theta_rho_pi(t, 0, 3), theta_rho_pi(t, 1, 3), theta_rho_pi(t, 2, 3), theta_rho_pi(t, 3, 3), theta_rho_pi(t, 4, 3), rc);
        assert(s[15] == comp(round_spec(t, rc))[15]);
        assert(s[16] == comp(round_spec(t, rc))[16]);
        assert(s[17] == comp(round_spec(t, rc))[17]);
        assert(s[18] == comp(round_spec(t, rc))[18]);
        assert(s[19] == comp(round_spec(t, rc))[19]);
    }
    // Row 4.
    let y4b0 = rotl_exec(s2 ^ d2, 62);
    let y4b1 = rotl_exec(s8 ^ d3, 55);
    let y4b2 = rotl_exec(s14 ^ d4, 39);
    let y4b3 = rotl_exec(s15 ^ d0, 41);
    let y4b4 = rotl_exec(s[21] ^ d1, 2);
    proof {
        assert(y4b0 == !theta_rho_pi(t, 0, 4)) by {
            lemma_not_xor_rotl(t[2], theta_d(t, 2), 62);
            lemma_not_xor_rotl(t[2] ^ theta_d(t, 2), 0, 62);
        }
        assert(y4b1 == theta_rho_pi(t, 1, 4)) by {
            lemma_not_xor_rotl(t[8], theta_d(t, 3), 55);
            lemma_not_xor_rotl(t[8] ^ theta_d(t, 3), 0, 55);
        }
        assert(y4b2 == theta_rho_pi(t, 2, 4)) by {
            lemma_not_xor_rotl(t[14], theta_d(t, 4), 39);
            lemma_not_xor_rotl(t[14] ^ theta_d(t, 4), 0, 39);
        }
        assert(y4b3 == !theta_rho_pi(t, 3, 4)) by {
            lemma_not_xor_rotl(t[15], theta_d(t, 0), 41);
            lemma_not_xor_rotl(t[15] ^ theta_d(t, 0), 0, 41);
        }
        assert(y4b4 == theta_rho_pi(t, 4, 4)) by {
            lemma_not_xor_rotl(t[21], theta_d(t, 1), 2);
            lemma_not_xor_rotl(t[21] ^ theta_d(t, 1), 0, 2);
        }
    }
    s[20] = y4b0 ^ y4b2 ^ (y4b1 & y4b2);
    s[21] = y4b1 ^ !(y4b2 | y4b3);
    s[22] = y4b2 ^ (y4b3 & y4b4);
    s[23] = y4b3 ^ (y4b4 | y4b0);
    s[24] = y4b4 ^ (y4b0 & y4b1);
    proof {
        lemma_chi_rows(theta_rho_pi(t, 0, 4), theta_rho_pi(t, 1, 4), theta_rho_pi(t, 2, 4), theta_rho_pi(t, 3, 4), theta_rho_pi(t, 4, 4), rc);
        assert(s[20] == comp(round_spec(t, rc))[20]);
        assert(s[21] == comp(round_spec(t, rc))[21]);
        assert(s[22] == comp(round_spec(t, rc))[22]);
        assert(s[23] == comp(round_spec(t, rc))[23]);
        assert(s[24] == comp(round_spec(t, rc))[24]);
    }
    proof {
        assert(s@ =~= comp(round_spec(t, rc)));
    }
}

/// θ on the lane-complemented state: the column parities and θ offsets come out
/// complemented exactly for columns 0–3 and offsets 0 and 3.
proof fn lemma_round_theta(
    t: Seq<u64>,
    o: Seq<u64>,
    c0: u64,
    c1: u64,
    c2: u64,
    c3: u64,
    c4: u64,
    d0: u64,
    d1: u64,
    d2: u64,
    d3: u64,
    d4: u64,
)
    requires
        t.len() == 25,
        o == comp(t),
        c0 == o[0] ^ o[5] ^ o[10] ^ o[15] ^ o[20],
        c1 == o[1] ^ o[6] ^ o[11] ^ o[16] ^ o[21],
        c2 == o[2] ^ o[7] ^ o[12] ^ o[17] ^ o[22],
        c3 == o[3] ^ o[8] ^ o[13] ^ o[18] ^ o[23],
        c4 == o[4] ^ o[9] ^ o[14] ^ o[19] ^ o[24],
        d0 == c4 ^ rotl(c1, 1),
        d1 == c0 ^ rotl(c2, 1),
        d2 == c1 ^ rotl(c3, 1),
        d3 == c2 ^ rotl(c4, 1),
        d4 == c3 ^ rotl(c0, 1),
    ensures
        d0 == !theta_d(t, 0),
        d1 == theta_d(t, 1),
        d2 == theta_d(t, 2),
        d3 == !theta_d(t, 3),
        d4 == theta_d(t, 4),
        forall|i: int| 0 <= i < 25 ==> #[trigger] o[i] == if complemented(i) { !t[i] } else { t[i] },
{
    lemma_parity_patterns(t[0], t[5], t[10], t[15], t[20]);
    lemma_parity_patterns(t[1], t[6], t[11], t[16], t[21]);
    lemma_parity_patterns(t[2], t[7], t[12], t[17], t[22]);
    lemma_parity_patterns(t[3], t[8], t[13], t[18], t[23]);
    assert(c0 == !theta_c(t, 0));
    assert(c1 == !theta_c(t, 1));
    assert(c2 == !theta_c(t, 2));
    assert(c3 == !theta_c(t, 3));
    assert(c4 == theta_c(t, 4));
    lemma_not_xor_rotl(theta_c(t, 1), theta_c(t, 4), 1);
    lemma_not_xor_rotl(theta_c(t, 4), rotl(theta_c(t, 1), 1), 1);
    lemma_not_xor_rotl(theta_c(t, 2), theta_c(t, 0), 1);
    lemma_not_xor_rotl(theta_c(t, 0), rotl(theta_c(t, 2), 1), 1);
    lemma_not_xor_rotl(theta_c(t, 3), theta_c(t, 1), 1);
    lemma_not_xor_rotl(theta_c(t, 1), rotl(theta_c(t, 3), 1), 1);
    lemma_not_xor_rotl(theta_c(t, 2), rotl(theta_c(t, 4), 1), 1);
    lemma_not_xor_rotl(theta_c(t, 0), theta_c(t, 3), 1);
    lemma_not_xor_rotl(theta_c(t, 3), rotl(theta_c(t, 0), 1), 1);
}

/// Keccak-f[1600] on a 25-lane state, computed with lane complementing: six lanes are
/// inverted on entry and exit so that the rounds need fewer inversions.
#[verifier::spinoff_prover]
pub fn keccak_f1600(s: &mut [u64; 25])
    ensures
        final(s)@ == keccak_f_spec(old(s)@),
{
    let ghost t0 = s@;
    s[1] = !s[1];
    s[2] = !s[2];
    s[8] = !s[8];
    s[12] = !s[12];
    s[17] = !s[17];
    s[20] = !s[20];
    proof {
        assert(s@ =~= comp(t0)) by {
            lemma_not_xor_rotl(t0[1], 0, 1);
            lemma_not_xor_rotl(t0[2], 0, 1);
            lemma_not_xor_rotl(t0[8], 0, 1);
            lemma_not_xor_rotl(t0[12], 0, 1);
            lemma_not_xor_rotl(t0[17], 0, 1);
            lemma_not_xor_rotl(t0[20], 0, 1);
        }
    }
    let mut r: usize = 0;
    while r < 24
        invariant
            r <= 24,
            t0.len() == 25,
            s@ == comp(rounds_spec(t0, RC@, r as nat)),
        decreases 24 - r,
    {
        proof {
            lemma_rounds_spec_len(t0, RC@, r as nat);
        }
        keccak_round(s, RC[r], Ghost(rounds_spec(t0, RC@, r as nat)));
        r += 1;
    }
    let ghost t = rounds_spec(t0, RC@, 24);
    s[1] = !s[1];
    s[2] = !s[2];
    s[8] = !s[8];
    s[12] = !s[12];
    s[17] = !s[17];
    s[20] = !s[20];
    proof {
        lemma_rounds_spec_len(t0, RC@, 24);
        assert(s@ =~= t) by {
            lemma_not_xor_rotl(t[1], 0, 1);
            lemma_not_xor_rotl(t[2], 0, 1);
            lemma_not_xor_rotl(t[8], 0, 1);
            lemma_not_xor_rotl(t[12], 0, 1);
            lemma_not_xor_rotl(t[17], 0, 1);
            lemma_not_xor_rotl(t[20], 0, 1);
        }
    }
}

pub proof fn lemma_rounds_spec_len(t: Seq<u64>, rcs: Seq<u64>, n: nat)
    requires
        t.len() == 25,
    ensures
        rounds_spec(t, rcs, n).len() == 25,
    decreases n,
{
    if n > 0 {
        lemma_rounds_spec_len(t, rcs, (n - 1) as nat);
    }
}


/// One step of the round-constant LFSR of FIPS 202, §3.2.5, on its 8-bit state
/// (feedback polynomial `x^8 + x^6 + x^5 + x^4 + 1`).
pub open spec fn lfsr_step(r: u8) -> u8 {
    if r & 0x80 != 0 {
        ((r << 1u8) ^ 0x71) as u8
    } else {
        (r << 1u8) as u8
    }
}

/// The LFSR state after `k` steps from the initial state `1`.
pub open spec fn lfsr_state(k: nat) -> u8
    decreases k,
{
    if k == 0 {
        1
    } else {
        lfsr_step(lfsr_state((k - 1) as nat))
    }
}

/// Bit `rc(t)` of the LFSR output sequence.
pub open spec fn lfsr_bit(t: nat) -> u64 {
    (lfsr_state(t) & 1) as u64
}

/// Round constant `i` after its first `j` bits: bit `2^m - 1` (for `m < j`) is `rc(7i + m)`.
pub open spec fn rc_partial(i: nat, j: nat) -> u64
    decreases j,
{
    if j == 0 {
        0
    } else {
        let m = (j - 1) as nat;
        let prev = rc_partial(i, m);
        if lfsr_bit(7 * i + m) != 0 {
            prev ^ (1u64 << ((pow2(m) - 1) as u64))
        } else {
            prev
        }
    }
}

/// The round constants as FIPS 202 derives them from the LFSR.
pub open spec fn lfsr_round_constants() -> Seq<u64> {
    Seq::new(24, |i: int| rc_partial(i as nat, 7))
}

/// Advances the LFSR by one step and returns its output bit.
pub fn keccak_lfsr_next_bit(r: &mut u8) -> (bit: u64)
    ensures
        bit == (*old(r) & 1) as u64,
        *final(r) == lfsr_step(*old(r)),
{
    let bit = (*r & 1) as u64;
    if (*r & 0x80) != 0 {
        *r = (*r << 1u8) ^ 0x71;
    } else {
        *r = *r << 1u8;
    }
    bit
}

/// Sets bit `position` of `rc` when `bit` is nonzero.
pub fn rc_if_bit_set(rc: &mut u64, bit: u64, position: usize)
    requires
        position < 64,
    ensures
        *final(rc) == if bit != 0 { *old(rc) ^ (1u64 << (position as u64)) } else { *old(rc) },
{
    if bit != 0 {
        *rc ^= 1u64 << (position as u64);
    }
}

/// The 24 round constants computed with the LFSR of FIPS 202, §3.2.5.
pub fn spec_round_constants() -> (constants: [u64; 24])
    ensures
        constants@ == lfsr_round_constants(),
{
    let mut constants = [0u64; 24];
    let mut lfsr: u8 = 0x01;
    let mut i: usize = 0;
    while i < 24
        invariant
            i <= 24,
            lfsr == lfsr_state((7 * i) as nat),
            forall|k: int| 0 <= k < i ==> constants@[k] == #[trigger] rc_partial(k as nat, 7),
        decreases 24 - i,
    {
        let mut rc: u64 = 0;
        let mut j: usize = 0;
        while j <= 6
            invariant
                i < 24,
                j <= 7,
                lfsr == lfsr_state((7 * i + j) as nat),
                rc == rc_partial(i as nat, j as nat),
            decreases 7 - j,
        {
            proof {
                vstd::arithmetic::power2::lemma2_to64();
                vstd::bits::lemma_usize_shl_is_mul(1, j);
                vstd::arithmetic::power2::lemma_pow2_pos(j as nat);
            }
            let position: usize = (1usize << j) - 1;
            assert(position < 64) by {
                assert(pow2(j as nat) <= 64) by {
                    vstd::arithmetic::power2::lemma_pow2_strictly_increases(j as nat, 7);
                }
            }
            let bit = keccak_lfsr_next_bit(&mut lfsr);
            rc_if_bit_set(&mut rc, bit, position);
            j += 1;
        }
        constants[i] = rc;
        i += 1;
    }
    assert(constants@ =~= lfsr_round_constants());
    constants
}


/// The ρ offsets as a table indexed `[x][y]`.
const RHO: [[u32; 5]; 5] = [
    [0, 36, 3, 41, 18],
    [1, 44, 10, 45, 2],
    [62, 6, 43, 15, 61],
    [28, 55, 25, 21, 56],
    [27, 20, 39, 8, 14],
];

/// Left rotation by any offset below 64, zero included.
fn rotl_by(x: u64, n: u32) -> (r: u64)
    requires
        n < 64,
    ensures
        r == rotl(x, n as u64),
{
    if n == 0 {
        x
    } else {
        (x << n) | (x >> (64 - n))
    }
}

/// Position in the π-permuted state that lane `k = x + 5y` is moved to.
pub open spec fn pi_dest(k: int) -> int {
    k / 5 + 5 * ((2 * (k % 5) + 3 * (k / 5)) % 5)
}

/// One textbook round: θ, ρ and π into a scratch state, then χ and ι.
fn keccak_round_ref(s: &mut [u64; 25], rc: u64)
    ensures
        final(s)@ == round_spec(old(s)@, rc),
{
    let ghost t = s@;
    let mut c = [0u64; 5];
    let mut x: usize = 0;
    while x < 5
        invariant
            x <= 5,
            s@ == t,
            forall|k: int| 0 <= k < x ==> c@[k] == #[trigger] theta_c(t, k),
        decreases 5 - x,
    {
        c[x] = s[x] ^ s[x + 5] ^ s[x + 10] ^ s[x + 15] ^ s[x + 20];
        x += 1;
    }
    let mut d = [0u64; 5];
    let mut x: usize = 0;
    while x < 5
        invariant
            x <= 5,
            forall|k: int| 0 <= k < 5 ==> c@[k] == #[trigger] theta_c(t, k),
            forall|k: int| 0 <= k < x ==> d@[k] == #[trigger] theta_d(t, k),
        decreases 5 - x,
    {
        d[x] = c[(x + 4) % 5] ^ rotl_by(c[(x + 1) % 5], 1);
        x += 1;
    }
    let mut y: usize = 0;
    while y < 5
        invariant
            y <= 5,
            t.len() == 25,
            forall|k: int| 0 <= k < 5 ==> d@[k] == #[trigger] theta_d(t, k),
            forall|k: int|
                0 <= k < 25 ==> #[trigger] s@[k] == if k < 5 * y {
                    t[k] ^ theta_d(t, k % 5)
                } else {
                    t[k]
                },
        decreases 5 - y,
    {
        let mut x: usize = 0;
        while x < 5
            invariant
                x <= 5,
                y < 5,
                t.len() == 25,
                forall|k: int| 0 <= k < 5 ==> d@[k] == #[trigger] theta_d(t, k),
                forall|k: int|
                    0 <= k < 25 ==> #[trigger] s@[k] == if k < 5 * y + x {
                        t[k] ^ theta_d(t, k % 5)
                    } else {
                        t[k]
                    },
            decreases 5 - x,
        {
            s[x + 5 * y] ^= d[x];
            x += 1;
        }
        y += 1;
    }
    let mut b = [0u64; 25];
    let mut y: usize = 0;
    while y < 5
        invariant
            y <= 5,
            t.len() == 25,
            forall|k: int| 0 <= k < 25 ==> #[trigger] s@[k] == t[k] ^ theta_d(t, k % 5),
            forall|k: int|
                0 <= k < 5 * y ==> #[trigger] b@[pi_dest(k)] == rotl(
                    t[k] ^ theta_d(t, k % 5),
                    rho(k % 5, k / 5),
                ),
        decreases 5 - y,
    {
        let mut x: usize = 0;
        while x < 5
            invariant
                x <= 5,
                y < 5,
                t.len() == 25,
                forall|k: int| 0 <= k < 25 ==> #[trigger] s@[k] == t[k] ^ theta_d(t, k % 5),
                forall|k: int|
                    0 <= k < 5 * y + x ==> #[trigger] b@[pi_dest(k)] == rotl(
                        t[k] ^ theta_d(t, k % 5),
                        rho(k % 5, k / 5),
                    ),
            decreases 5 - x,
        {
            let dst_x = y;
            let dst_y = (2 * x + 3 * y) % 5;
            proof {
                let k0 = x + 5 * y;
                assert(k0 % 5 == x && k0 / 5 == y);
                assert(dst_x + 5 * dst_y == pi_dest(k0));
                lemma_pi_dest_inverse();
                assert(RHO[x as int][y as int] as u64 == rho(x as int, y as int));
            }
            b[dst_x + 5 * dst_y] = rotl_by(s[x + 5 * y], RHO[x][y]);
            x += 1;
        }
        y += 1;
    }
    proof {
        lemma_pi_dest_onto(b@, t);
    }
    let mut y: usize = 0;
    while y < 5
        invariant
            y <= 5,
            t.len() == 25,
            forall|k: int| 0 <= k < 25 ==> #[trigger] b@[k] == theta_rho_pi(t, k % 5, k / 5),
            forall|k: int| 0 <= k < 5 * y ==> #[trigger] s@[k] == chi(t, k % 5, k / 5),
        decreases 5 - y,
    {
        let mut x: usize = 0;
        while x < 5
            invariant
                x <= 5,
                y < 5,
                t.len() == 25,
                forall|k: int| 0 <= k < 25 ==> #[trigger] b@[k] == theta_rho_pi(t, k % 5, k / 5),
                forall|k: int|
                    0 <= k < 5 * y + x ==> #[trigger] s@[k] == chi(t, k % 5, k / 5),
            decreases 5 - x,
        {
            proof {
                lemma_chi_lane(b@, t, x as int, y as int);
            }
            s[x + 5 * y] = b[x + 5 * y] ^ ((!b[((x + 1) % 5) + 5 * y]) & b[((x + 2) % 5) + 5 * y]);
            x += 1;
        }
        y += 1;
    }
    let ghost sc = s@;
    s[0] ^= rc;
    proof {
        assert forall|k: int| 0 <= k < 25 implies #[trigger] s@[k] == round_spec(t, rc)[k] by {
            assert(sc[k] == chi(t, k % 5, k / 5));
        }
        assert(s@ =~= round_spec(t, rc));
    }
}

/// Keccak-f[1600] written step by step as FIPS 202 §3.2 gives it (θ, ρ, π, χ, ι),
/// with round constants from the LFSR.
pub fn keccak_f1600_ref(s: &mut [u64; 25])
    ensures
        final(s)@ == rounds_spec(old(s)@, lfsr_round_constants(), 24),
{
    let ghost t0 = s@;
    let round_constants = spec_round_constants();
    let mut r: usize = 0;
    while r < 24
        invariant
            r <= 24,
            t0.len() == 25,
            round_constants@ == lfsr_round_constants(),
            s@ == rounds_spec(t0, lfsr_round_constants(), r as nat),
        decreases 24 - r,
    {
        keccak_round_ref(s, round_constants[r]);
        proof {
            lemma_rounds_spec_len(t0, lfsr_round_constants(), r as nat);
        }
        r += 1;
    }
}

/// χ on lane `(x, y)`, read from a state that holds the θ-ρ-π values.
proof fn lemma_chi_lane(b: Seq<u64>, t: Seq<u64>, x: int, y: int)
    requires
        0 <= x < 5,
        0 <= y < 5,
        b.len() == 25,
        forall|k: int| 0 <= k < 25 ==> #[trigger] b[k] == theta_rho_pi(t, k % 5, k / 5),
    ensures
        (x + 5 * y) % 5 == x && (x + 5 * y) / 5 == y,
        b[x + 5 * y] ^ (!b[(x + 1) % 5 + 5 * y] & b[(x + 2) % 5 + 5 * y]) == chi(t, x, y),
{
    let x1 = (x + 1) % 5;
    let x2 = (x + 2) % 5;
    assert((x + 5 * y) % 5 == x && (x + 5 * y) / 5 == y);
    assert((x1 + 5 * y) % 5 == x1 && (x1 + 5 * y) / 5 == y);
    assert((x2 + 5 * y) % 5 == x2 && (x2 + 5 * y) / 5 == y);
    assert(b[x1 + 5 * y] == theta_rho_pi(t, x1, y));
    assert(b[x2 + 5 * y] == theta_rho_pi(t, x2, y));
}

/// Inverse of `pi_dest`: the lane that is moved to position `i`.
pub open spec fn pi_src(i: int) -> int {
    (i % 5 + 3 * (i / 5)) % 5 + 5 * (i % 5)
}

proof fn lemma_pi_dest_inverse()
    ensures
        forall|k: int| 0 <= k < 25 ==> 0 <= #[trigger] pi_dest(k) < 25 && pi_src(pi_dest(k)) == k,
{
    assert forall|k: int| 0 <= k < 25 implies 0 <= #[trigger] pi_dest(k) < 25 && pi_src(pi_dest(k)) == k by {
        let x = k % 5;
        let y = k / 5;
        assert(k == x + 5 * y);
        let z = (2 * x + 3 * y) % 5;
        assert(pi_dest(k) == y + 5 * z);
        assert((y + 5 * z) % 5 == y && (y + 5 * z) / 5 == z);
        assert((y + 3 * z) % 5 == x) by (nonlinear_arith)
            requires
                0 <= x < 5,
                0 <= y < 5,
                z == (2 * x + 3 * y) % 5,
        ;
    }
}

/// The π permutation reaches every lane: a state written at `pi_dest(k)` for every
/// lane `k` holds the θ-ρ-π value at each position.
proof fn lemma_pi_dest_onto(b: Seq<u64>, t: Seq<u64>)
    requires
        t.len() == 25,
        forall|k: int|
            0 <= k < 25 ==> #[trigger] b[pi_dest(k)] == rotl(
                t[k] ^ theta_d(t, k % 5),
                rho(k % 5, k / 5),
            ),
    ensures
        forall|k: int| 0 <= k < 25 ==> #[trigger] b[k] == theta_rho_pi(t, k % 5, k / 5),
{
    assert forall|k: int| 0 <= k < 25 implies #[trigger] b[k] == theta_rho_pi(t, k % 5, k / 5) by {
        let x = k % 5;
        let y = k / 5;
        let src = (x + 3 * y) % 5 + 5 * x;
        assert(0 <= src < 25);
        assert(pi_dest(src) == k) by {
            assert(0 <= x < 5 && 0 <= y < 5 && k == x + 5 * y);
            assert(src % 5 == (x + 3 * y) % 5 && src / 5 == x);
            assert((2 * ((x + 3 * y) % 5) + 3 * x) % 5 == y) by (nonlinear_arith)
                requires
                    0 <= x < 5,
                    0 <= y < 5,
            ;
        }
    }
}


/// The permutation with the literal constants is the textbook permutation with the
/// LFSR-derived constants, on every state.
pub proof fn lemma_keccak_f1600_matches_reference(t: Seq<u64>)
    ensures
        keccak_f_spec(t) == rounds_spec(t, lfsr_round_constants(), 24),
{
    lemma_rc_matches_lfsr();
}


/// SHAKE256's rate in bytes: capacity 512 bits, so `(1600 - 512) / 8` (FIPS 202, §6.2).
pub const RATE: usize = 136;

/// The SHAKE domain bits `1111` followed by the first padding bit, as a byte.
pub const SHAKE256_DOMAIN_SUFFIX: u64 = 0x1f;

/// The last padding bit, set in the last byte of the rate.
pub const SHAKE256_FINAL_RATE_BIT: u64 = 0x80;

/// The sponge as a value: the 25 lanes and the byte position in the rate.
pub type SpongeView = (Seq<u64>, nat);

/// XOR the byte value `x` into the state at byte position `pos`; bytes are
/// little-endian within a lane.
pub open spec fn xor_byte_at(st: Seq<u64>, pos: nat, x: u64) -> Seq<u64> {
    st.update((pos / 8) as int, st[(pos / 8) as int] ^ (x << ((8 * (pos % 8)) as u64)))
}

/// The initial sponge: all lanes zero, position zero.
pub open spec fn sponge_init() -> SpongeView {
    (Seq::new(25, |i: int| 0u64), 0)
}

/// 25 lanes, and a position inside the rate.
pub open spec fn sponge_wf(v: SpongeView) -> bool {
    v.0.len() == 25 && v.1 < RATE
}

/// Absorbing one byte: XOR it in at the position, and permute when the rate is full.
pub open spec fn absorb_byte(v: SpongeView, b: u8) -> SpongeView {
    let st = xor_byte_at(v.0, v.1, b as u64);
    if v.1 + 1 == RATE {
        (keccak_f_spec(st), 0)
    } else {
        (st, v.1 + 1)
    }
}

/// Absorbing a byte string, one byte after the other.
pub open spec fn absorb_spec(v: SpongeView, data: Seq<u8>) -> SpongeView
    decreases data.len(),
{
    if data.len() == 0 {
        v
    } else {
        absorb_byte(absorb_spec(v, data.drop_last()), data.last())
    }
}

/// Padding for SHAKE256 (domain suffix at the position, final bit in the last rate
/// byte), then the permutation; squeezing starts at position zero.
pub open spec fn finalize_spec(v: SpongeView) -> SpongeView {
    let st1 = xor_byte_at(v.0, v.1, SHAKE256_DOMAIN_SUFFIX);
    let st2 = xor_byte_at(st1, (RATE - 1) as nat, SHAKE256_FINAL_RATE_BIT);
    (keccak_f_spec(st2), 0)
}

/// The state after `n` further permutations.
pub open spec fn permute_n(st: Seq<u64>, n: nat) -> Seq<u64>
    decreases n,
{
    if n == 0 {
        st
    } else {
        keccak_f_spec(permute_n(st, (n - 1) as nat))
    }
}

/// The block of the output stream that byte `m` lies in.
pub open spec fn block_of(m: nat) -> nat {
    m / (RATE as nat)
}

/// The offset of byte `m` of the output stream within its block.
pub open spec fn offset_of(m: nat) -> nat {
    m % (RATE as nat)
}

/// Byte `m` of the output stream that starts at the beginning of the rate of `st`:
/// block `m / RATE` is `st` permuted that many times.
pub open spec fn stream_byte(st: Seq<u64>, m: nat) -> u8 {
    let blk = permute_n(st, block_of(m));
    let o = offset_of(m);
    (blk[(o / 8) as int] >> ((8 * (o % 8)) as u64)) as u8
}

/// Squeezing `n` bytes from position `v.1`: the next `n` bytes of the stream, and the
/// sponge that many bytes further on.
pub open spec fn squeeze_spec(v: SpongeView, n: nat) -> (Seq<u8>, SpongeView) {
    (
        Seq::new(n, |k: int| stream_byte(v.0, (v.1 + k) as nat)),
        (permute_n(v.0, block_of(v.1 + n)), offset_of(v.1 + n)),
    )
}

/// SHAKE256 of `msg`: its first `n` output bytes.
pub open spec fn shake256_spec(msg: Seq<u8>, n: nat) -> Seq<u8> {
    squeeze_spec(finalize_spec(absorb_spec(sponge_init(), msg)), n).0
}

/// An incremental SHAKE256 sponge.
pub struct Shake256 {
    state: [u64; 25],
    pos: usize,
}

impl View for Shake256 {
    type V = SpongeView;

    closed spec fn view(&self) -> SpongeView {
        (self.state@, self.pos as nat)
    }
}

impl Shake256 {
    /// The position is inside the rate.
    pub open spec fn wf(&self) -> bool {
        sponge_wf(self@)
    }

    /// An empty sponge: all lanes zero, position zero.
    pub fn new() -> (s: Self)
        ensures
            s@ == sponge_init(),
            s.wf(),
    {
        let s = Self { state: [0; 25], pos: 0 };
        assert(s.state@ =~= sponge_init().0);
        s
    }

    /// Pads the absorbed input and permutes; the sponge is then ready to squeeze.
    pub fn finalize(&mut self)
        requires
            old(self).wf(),
        ensures
            final(self).wf(),
            final(self)@ == finalize_spec(old(self)@),
    {
        let lane = self.pos / 8;
        let shift = 8 * (self.pos % 8);
        self.state[lane] ^= SHAKE256_DOMAIN_SUFFIX << (shift as u64);
        let last = RATE - 1;
        self.state[last / 8] ^= SHAKE256_FINAL_RATE_BIT << ((8 * (last % 8)) as u64);
        keccak_f1600(&mut self.state);
        self.pos = 0;
    }

    /// The 17 lanes of the rate: byte `b` of lane `l` is byte `8 l + b` of the block.
    pub fn rate_lanes(&self) -> (lanes: &[u64])
        requires
            self.wf(),
        ensures
            lanes@ == self@.0.subrange(0, 17),
    {
        vstd::slice::slice_subrange(self.state.as_slice(), 0, 17)
    }

    /// Applies Keccak-f[1600] to the state; the position is unchanged.
    pub fn permute(&mut self)
        requires
            old(self).wf(),
        ensures
            final(self).wf(),
            final(self)@ == (keccak_f_spec(old(self)@.0), old(self)@.1),
    {
        keccak_f1600(&mut self.state);
        proof {
            lemma_keccak_len(old(self)@.0);
        }
    }
}

impl Shake256 {
    /// Squeezes `out.len()` bytes of output.
    pub fn squeeze(&mut self, out: &mut [u8])
        requires
            old(self).wf(),
        ensures
            final(self).wf(),
            final(out)@.len() == old(out)@.len(),
            (final(out)@, final(self)@) == squeeze_spec(old(self)@, old(out)@.len()),
    {
        let ghost st0 = self@.0;
        let ghost p0 = self@.1;
        let n = out.len();
        let mut k: usize = 0;
        while k < n
            invariant
                n == out@.len(),
                k <= n,
                st0.len() == 25,
                p0 < RATE,
                self.wf(),
                self@.0 == permute_n(st0, block_of((p0 + k) as nat)),
                self@.1 == offset_of((p0 + k) as nat),
                forall|j: int| 0 <= j < k ==> out@[j] == #[trigger] stream_byte(st0, (p0 + j) as nat),
            decreases n - k,
        {
            proof {
                lemma_stream_step(st0, p0, k as nat);
                assert(offset_of((p0 + k) as nat) == self.pos);
            }
            let lane = self.pos / 8;
            let shift = 8 * (self.pos % 8);
            out[k] = (self.state[lane] >> (shift as u64)) as u8;
            self.pos += 1;
            if self.pos == RATE {
                keccak_f1600(&mut self.state);
                self.pos = 0;
            }
            k += 1;
        }
        proof {
            assert(out@ =~= squeeze_spec(old(self)@, n as nat).0);
        }
    }
}

impl Shake256 {
    /// Absorbs `data`: byte by byte up to a lane boundary, then whole lanes of eight
    /// little-endian bytes, then the remaining bytes.
    pub fn absorb(&mut self, data: &[u8])
        requires
            old(self).wf(),
        ensures
            final(self).wf(),
            final(self)@ == absorb_spec(old(self)@, data@),
    {
        let ghost v0 = self@;
        let mut i: usize = 0;
        let len = data.len();
        while i < len && self.pos % 8 != 0
            invariant
                i <= len,
                len == data@.len(),
                self.wf(),
                self@ == absorb_spec(v0, data@.take(i as int)),
            decreases len - i,
        {
            proof {
                lemma_absorb_take_step(v0, data@, i as int);
            }
            let lane = self.pos / 8;
            let shift = 8 * (self.pos % 8);
            self.state[lane] ^= (data[i] as u64) << (shift as u64);
            self.pos += 1;
            if self.pos == RATE {
                keccak_f1600(&mut self.state);
                self.pos = 0;
            }
            i += 1;
            proof {
                lemma_keccak_len(self@.0);
            }
        }
        while len - i >= 8
            invariant
                i <= len,
                len == data@.len(),
                self.wf(),
                i == len || self.pos % 8 == 0,
                self@ == absorb_spec(v0, data@.take(i as int)),
            decreases len - i,
        {
            let chunk: u64 = (data[i] as u64) | ((data[i + 1] as u64) << 8u64) | ((data[i + 2] as u64)
                << 16u64) | ((data[i + 3] as u64) << 24u64) | ((data[i + 4] as u64) << 32u64) | ((
            data[i + 5] as u64) << 40u64) | ((data[i + 6] as u64) << 48u64) | ((data[i + 7] as u64)
                << 56u64);
            proof {
                let c = data@.subrange(i as int, i + 8);
                lemma_absorb_split(v0, data@.take(i as int), c);
                assert(data@.take(i as int) + c =~= data@.take(i + 8));
                lemma_absorb_lane(self@, c, chunk);
            }
            let lane = self.pos / 8;
            self.state[lane] ^= chunk;
            self.pos += 8;
            i += 8;
            if self.pos == RATE {
                keccak_f1600(&mut self.state);
                self.pos = 0;
            }
            proof {
                lemma_keccak_len(self@.0);
            }
        }
        while i < len
            invariant
                i <= len,
                len == data@.len(),
                self.wf(),
                self@ == absorb_spec(v0, data@.take(i as int)),
            decreases len - i,
        {
            proof {
                lemma_absorb_take_step(v0, data@, i as int);
            }
            let lane = self.pos / 8;
            let shift = 8 * (self.pos % 8);
            self.state[lane] ^= (data[i] as u64) << (shift as u64);
            self.pos += 1;
            if self.pos == RATE {
                keccak_f1600(&mut self.state);
                self.pos = 0;
            }
            i += 1;
            proof {
                lemma_keccak_len(self@.0);
            }
        }
        assert(data@.take(i as int) =~= data@);
    }
}

/// Absorbing one byte more of `d`.
proof fn lemma_absorb_take_step(v: SpongeView, d: Seq<u8>, i: int)
    requires
        0 <= i < d.len(),
    ensures
        absorb_spec(v, d.take(i + 1)) == absorb_byte(absorb_spec(v, d.take(i)), d[i]),
{
    assert(d.take(i + 1).drop_last() =~= d.take(i));
}

/// Absorbing `a` and then `b` is absorbing their concatenation.
pub proof fn lemma_absorb_split(v: SpongeView, a: Seq<u8>, b: Seq<u8>)
    ensures
        absorb_spec(v, a + b) == absorb_spec(absorb_spec(v, a), b),
    decreases b.len(),
{
    if b.len() == 0 {
        assert(a + b =~= a);
    } else {
        assert((a + b).drop_last() =~= a + b.drop_last());
        lemma_absorb_split(v, a, b.drop_last());
    }
}

proof fn lemma_lane_bytes(st: u64, b0: u64, b1: u64, b2: u64, b3: u64, b4: u64, b5: u64, b6: u64, b7: u64)
    by (bit_vector)
    requires
        b0 < 256,
        b1 < 256,
        b2 < 256,
        b3 < 256,
        b4 < 256,
        b5 < 256,
        b6 < 256,
        b7 < 256,
    ensures
        ((((((((st ^ (b0 << 0u64)) ^ (b1 << 8u64)) ^ (b2 << 16u64)) ^ (b3 << 24u64)) ^ (b4 << 32u64))
            ^ (b5 << 40u64)) ^ (b6 << 48u64)) ^ (b7 << 56u64)) == st ^ (b0 | (b1 << 8u64) | (b2
            << 16u64) | (b3 << 24u64) | (b4 << 32u64) | (b5 << 40u64) | (b6 << 48u64) | (b7
            << 56u64)),
{
}

/// Absorbing eight bytes at a lane boundary XORs their little-endian value into that lane.
proof fn lemma_absorb_lane(v: SpongeView, c: Seq<u8>, chunk: u64)
    requires
        sponge_wf(v),
        v.1 % 8 == 0,
        c.len() == 8,
        chunk == (c[0] as u64) | ((c[1] as u64) << 8u64) | ((c[2] as u64) << 16u64) | ((c[3] as u64)
            << 24u64) | ((c[4] as u64) << 32u64) | ((c[5] as u64) << 40u64) | ((c[6] as u64) << 48u64)
            | ((c[7] as u64) << 56u64),
    ensures
        v.1 + 8 <= RATE,
        ({
            let st = v.0.update((v.1 / 8) as int, v.0[(v.1 / 8) as int] ^ chunk);
            absorb_spec(v, c) == if v.1 + 8 == RATE {
                (keccak_f_spec(st), 0nat)
            } else {
                (st, v.1 + 8)
            }
        }),
{
    let p = v.1;
    let l = (p / 8) as int;
    lemma_absorb_lane_prefix(v, c, 7);
    lemma_absorb_take_step(v, c, 7);
    assert((p + 7) / 8 == l && (p + 7) % 8 == 7);
    let acc = lane_prefix(v.0[l], c, 7);
    assert(v.0.update(l, acc).update(l, lane_prefix(v.0[l], c, 8)) =~= v.0.update(l, lane_prefix(v.0[l], c, 8)));
    assert(c.take(8) =~= c);
    lemma_lane_bytes(v.0[l], c[0] as u64, c[1] as u64, c[2] as u64, c[3] as u64, c[4] as u64, c[5] as u64, c[6] as u64, c[7] as u64);
    assert(lane_prefix(v.0[l], c, 8) == v.0[l] ^ chunk) by {
        reveal_with_fuel(lane_prefix, 9);
    }
}

/// The first `k < 8` bytes at a lane boundary go into that lane, with no permutation.
proof fn lemma_absorb_lane_prefix(v: SpongeView, c: Seq<u8>, k: int)
    requires
        sponge_wf(v),
        v.1 % 8 == 0,
        c.len() == 8,
        0 <= k < 8,
    ensures
        absorb_spec(v, c.take(k)) == (
            v.0.update((v.1 / 8) as int, lane_prefix(v.0[(v.1 / 8) as int], c, k)),
            (v.1 + k) as nat,
        ),
    decreases k,
{
    let p = v.1;
    let l = (p / 8) as int;
    if k == 0 {
        assert(c.take(0) =~= Seq::<u8>::empty());
        assert(v.0.update(l, v.0[l]) =~= v.0);
    } else {
        lemma_absorb_lane_prefix(v, c, k - 1);
        lemma_absorb_take_step(v, c, k - 1);
        assert((p + k - 1) / 8 == l && (p + k - 1) % 8 == k - 1);
        assert(p + k < RATE);
        let acc = lane_prefix(v.0[l], c, k - 1);
        assert(v.0.update(l, acc).update(l, lane_prefix(v.0[l], c, k)) =~= v.0.update(l, lane_prefix(v.0[l], c, k)));
    }
}

/// The lane `x` after XORing in the first `k` bytes of `c` at shifts `0, 8, ..`.
pub open spec fn lane_prefix(x: u64, c: Seq<u8>, k: int) -> u64
    decreases k,
{
    if k <= 0 {
        x
    } else {
        lane_prefix(x, c, k - 1) ^ ((c[k - 1] as u64) << ((8 * (k - 1)) as u64))
    }
}

pub proof fn lemma_permute_n_len(st: Seq<u64>, n: nat)
    requires
        st.len() == 25,
    ensures
        permute_n(st, n).len() == 25,
    decreases n,
{
    if n > 0 {
        lemma_permute_n_len(st, (n - 1) as nat);
        lemma_keccak_len(permute_n(st, (n - 1) as nat));
    }
}

/// One step along the stream: the byte at `p0 + k` is read from the block that the
/// sponge holds at that point, and the next position either stays in that block or
/// starts the next one.
proof fn lemma_stream_step(st0: Seq<u64>, p0: nat, k: nat)
    requires
        st0.len() == 25,
        p0 < RATE,
    ensures
        permute_n(st0, block_of((p0 + k) as nat)).len() == 25,
        offset_of((p0 + k) as nat) < RATE,
        offset_of((p0 + k) as nat) + 1 < RATE ==> block_of((p0 + k + 1) as nat) == block_of((p0 + k) as nat)
            && offset_of((p0 + k + 1) as nat) == offset_of((p0 + k) as nat) + 1,
        offset_of((p0 + k) as nat) + 1 == RATE ==> block_of((p0 + k + 1) as nat) == block_of((p0 + k) as nat) + 1
            && offset_of((p0 + k + 1) as nat) == 0,
{
    let m = p0 + k;
    lemma_permute_n_len(st0, block_of(m));
    vstd::arithmetic::div_mod::lemma_fundamental_div_mod(m as int, RATE as int);
    vstd::arithmetic::div_mod::lemma_fundamental_div_mod((m + 1) as int, RATE as int);
    vstd::arithmetic::div_mod::lemma_mod_bound(m as int, RATE as int);
    vstd::arithmetic::div_mod::lemma_mod_bound((m + 1) as int, RATE as int);
}

pub proof fn lemma_keccak_len(t: Seq<u64>)
    requires
        t.len() == 25,
    ensures
        keccak_f_spec(t).len() == 25,
{
    lemma_rounds_spec_len(t, RC@, 24);
}


proof fn lemma_permute_n_add(st: Seq<u64>, a: nat, b: nat)
    ensures
        permute_n(permute_n(st, a), b) == permute_n(st, a + b),
    decreases b,
{
    if b > 0 {
        lemma_permute_n_add(st, a, (b - 1) as nat);
    }
}

/// Position `o + k` of the stream that starts `blk` blocks in is position
/// `RATE · blk + o + k` of the whole stream.
proof fn lemma_stream_shift(blk: nat, o: nat, k: nat)
    requires
        o < RATE,
    ensures
        blk + block_of(o + k) == block_of(RATE as nat * blk + o + k),
        offset_of(o + k) == offset_of(RATE as nat * blk + o + k),
{
    let m = o + k;
    vstd::arithmetic::div_mod::lemma_fundamental_div_mod(m as int, RATE as int);
    vstd::arithmetic::div_mod::lemma_mod_bound(m as int, RATE as int);
    vstd::arithmetic::div_mod::lemma_fundamental_div_mod_converse(
        (RATE as nat * blk + m) as int,
        RATE as int,
        (blk + m / (RATE as nat)) as int,
        (m % (RATE as nat)) as int,
    );
}

/// Squeezing `a` bytes and then `b` bytes gives the same bytes, and the same sponge,
/// as squeezing `a + b` bytes at once.
pub proof fn lemma_squeeze_split(v: SpongeView, a: nat, b: nat)
    requires
        sponge_wf(v),
    ensures
        ({
            let (out_a, v1) = squeeze_spec(v, a);
            let (out_b, v2) = squeeze_spec(v1, b);
            squeeze_spec(v, a + b) == (out_a + out_b, v2)
        }),
{
    let (st, p) = v;
    let (out_a, v1) = squeeze_spec(v, a);
    let (out_b, v2) = squeeze_spec(v1, b);
    let b1 = block_of(p + a);
    let o1 = offset_of(p + a);
    vstd::arithmetic::div_mod::lemma_fundamental_div_mod((p + a) as int, RATE as int);
    vstd::arithmetic::div_mod::lemma_mod_bound((p + a) as int, RATE as int);
    assert(p + a == RATE as nat * b1 + o1);
    assert forall|k: int| 0 <= k < b implies #[trigger] out_b[k] == stream_byte(st, (p + a + k) as nat) by {
        lemma_stream_shift(b1, o1, k as nat);
        lemma_permute_n_add(st, b1, block_of((o1 + k) as nat));
    }
    lemma_stream_shift(b1, o1, b);
    lemma_permute_n_add(st, b1, block_of(o1 + b));
    assert(squeeze_spec(v, a + b).0 =~= out_a + out_b);
}

/// Right after a permutation (position zero), the next `RATE` squeezed bytes are the
/// 17 rate lanes, each little-endian, and the sponge is then permuted once more.
pub proof fn lemma_rate_lanes_squeeze(st: Seq<u64>)
    requires
        st.len() == 25,
    ensures
        squeeze_spec((st, 0), RATE as nat).1 == (keccak_f_spec(st), 0nat),
        forall|k: int| 0 <= k < RATE ==> #[trigger] squeeze_spec((st, 0), RATE as nat).0[k] == (st[k / 8] >> ((8 * (k % 8)) as u64)) as u8,
{
    assert(block_of(RATE as nat) == 1 && offset_of(RATE as nat) == 0);
    assert(permute_n(st, 1) == keccak_f_spec(permute_n(st, 0)));
    assert forall|k: int| 0 <= k < RATE implies #[trigger] squeeze_spec((st, 0), RATE as nat).0[k] == (st[k / 8] >> ((8 * (k % 8)) as u64)) as u8 by {
        assert(block_of(k as nat) == 0 && offset_of(k as nat) == k);
        assert((k % 136) % 8 == k % 8);
    }
}


/// The parts joined in order.
pub open spec fn join_parts(parts: Seq<Seq<u8>>) -> Seq<u8>
    decreases parts.len(),
{
    if parts.len() == 0 {
        Seq::empty()
    } else {
        join_parts(parts.drop_last()) + parts.last()
    }
}

/// Absorbing the parts one after the other.
pub open spec fn absorb_parts(v: SpongeView, parts: Seq<Seq<u8>>) -> SpongeView
    decreases parts.len(),
{
    if parts.len() == 0 {
        v
    } else {
        absorb_spec(absorb_parts(v, parts.drop_last()), parts.last())
    }
}

/// Absorbing any number of parts, of any lengths, leaves the sponge as absorbing their
/// concatenation does; so whatever is squeezed afterwards is the same.
pub proof fn lemma_absorb_parts(v: SpongeView, parts: Seq<Seq<u8>>)
    ensures
        absorb_parts(v, parts) == absorb_spec(v, join_parts(parts)),
    decreases parts.len(),
{
    if parts.len() == 0 {
        assert(absorb_spec(v, Seq::<u8>::empty()) == v);
    } else {
        lemma_absorb_parts(v, parts.drop_last());
        lemma_absorb_split(v, join_parts(parts.drop_last()), parts.last());
    }
}

/// Byte `b` of lane `l` after `k` further permutations is byte `136·k + 8·l + b` of the
/// output stream: reading the rate lanes block by block gives the squeezed bytes.
pub proof fn lemma_rate_lanes_block(st: Seq<u64>, k: nat, l: int, b: int)
    requires
        st.len() == 25,
        0 <= l < 17,
        0 <= b < 8,
    ensures
        stream_byte(st, (RATE * k + 8 * l + b) as nat) == (permute_n(st, k)[l] >> ((8 * b) as u64)) as u8,
{
    let m = (RATE * k + 8 * l + b) as nat;
    let o = 8 * l + b;
    vstd::arithmetic::div_mod::lemma_fundamental_div_mod_converse(m as int, RATE as int, k as int, o);
    assert(block_of(m) == k && offset_of(m) == o);
    assert(o / 8 == l && o % 8 == b);
}

/// The SHAKE256 output of `msg`, block by block: byte `136·k + 8·l + b` is byte `b` of
/// lane `l` of the sponge after finalizing and `k` further permutations.
pub proof fn lemma_shake256_rate_lanes(msg: Seq<u8>, n: nat, k: nat, l: int, b: int)
    requires
        0 <= l < 17,
        0 <= b < 8,
        RATE * k + 8 * l + b < n,
    ensures
        shake256_spec(msg, n)[RATE * k + 8 * l + b] == (permute_n(
            finalize_spec(absorb_spec(sponge_init(), msg)).0,
            k,
        )[l] >> ((8 * b) as u64)) as u8,
{
    let st = finalize_spec(absorb_spec(sponge_init(), msg)).0;
    lemma_absorb_wf(sponge_init(), msg);
    lemma_keccak_len(xor_byte_at(
        xor_byte_at(absorb_spec(sponge_init(), msg).0, absorb_spec(sponge_init(), msg).1, SHAKE256_DOMAIN_SUFFIX),
        (RATE - 1) as nat,
        SHAKE256_FINAL_RATE_BIT,
    ));
    lemma_rate_lanes_block(st, k, l, b);
}

/// Absorbing keeps the sponge well formed.
pub proof fn lemma_absorb_wf(v: SpongeView, data: Seq<u8>)
    requires
        sponge_wf(v),
    ensures
        sponge_wf(absorb_spec(v, data)),
    decreases data.len(),
{
    if data.len() > 0 {
        lemma_absorb_wf(v, data.drop_last());
        let w = absorb_spec(v, data.drop_last());
        lemma_keccak_len(xor_byte_at(w.0, w.1, data.last() as u64));
    }
}

} // verus!
