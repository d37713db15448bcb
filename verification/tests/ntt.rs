use solana_falcon512::ntt::{bitrev9, find_psi, inv_ntt, ntt, pow_mod, N, Q};

#[test]
fn ntt_round_trip() {
    let mut a = [0u32; N];
    for (i, slot) in a.iter_mut().enumerate() {
        *slot = ((i * 17 + 3) as u32) % Q;
    }
    let before = a;
    ntt(&mut a);
    inv_ntt(&mut a);
    assert_eq!(a, before);
}

#[test]
fn ntt_multiplication_matches_schoolbook() {
    let mut a = [0u32; N];
    let mut b = [0u32; N];
    for i in 0..N {
        a[i] = ((i * 31 + 7) as u32) % Q;
        b[i] = ((i * 19 + 11) as u32) % Q;
    }

    let mut c_school = [0i64; N];
    for i in 0..N {
        for j in 0..N {
            let prod = (a[i] as i64) * (b[j] as i64);
            let k = i + j;
            if k < N {
                c_school[k] += prod;
            } else {
                c_school[k - N] -= prod;
            }
        }
    }
    let mut c_school_q = [0u32; N];
    for i in 0..N {
        c_school_q[i] = c_school[i].rem_euclid(Q as i64) as u32;
    }

    let mut a_ntt = a;
    let mut b_ntt = b;
    ntt(&mut a_ntt);
    ntt(&mut b_ntt);
    let mut prod = [0u32; N];
    for i in 0..N {
        prod[i] = (a_ntt[i] as u64 * b_ntt[i] as u64 % Q as u64) as u32;
    }
    inv_ntt(&mut prod);

    assert_eq!(prod, c_school_q);
}

#[test]
fn pow_mod_values() {
    assert_eq!(pow_mod(3, 0, 7), 1);
    assert_eq!(pow_mod(2, 10, 1000), 24);
    assert_eq!(pow_mod(49, 512, Q), Q - 1);
    assert_eq!(pow_mod(12288, 2, Q), 1);
}

#[test]
fn bitrev9_values() {
    assert_eq!(bitrev9(0), 0);
    assert_eq!(bitrev9(1), 256);
    assert_eq!(bitrev9(2), 128);
    assert_eq!(bitrev9(511), 511);
    assert_eq!(bitrev9(3), 384);
}

#[test]
fn psi_is_49() {
    assert_eq!(find_psi(), 49);
}

#[test]
fn ntt_of_constant_polynomial() {
    // A constant polynomial evaluates to itself at every root.
    let mut a = [0u32; N];
    a[0] = 5;
    ntt(&mut a);
    assert!(a.iter().all(|&x| x == 5));
}

#[test]
fn ntt_of_x_is_the_roots() {
    // h = x evaluates to psi^(2 brv9(i) + 1) at slot i; slot 0 is psi = 49.
    let mut a = [0u32; N];
    a[1] = 1;
    ntt(&mut a);
    assert_eq!(a[0], 49);
    assert_eq!(a[1], pow_mod(49, 2 * 256 + 1, Q));
}

#[test]
fn inv_ntt_then_ntt_round_trip() {
    let mut f = [0u32; N];
    for (i, slot) in f.iter_mut().enumerate() {
        *slot = ((i * 101 + 5) as u32) % Q;
    }
    let before = f;
    inv_ntt(&mut f);
    assert!(f.iter().all(|&x| x < Q));
    ntt(&mut f);
    assert_eq!(f, before);
}

#[test]
fn pow_mod_zero_exponent_any_modulus() {
    assert_eq!(pow_mod(5, 0, 0), 1);
    assert_eq!(pow_mod(0, 0, 7), 1);
}
