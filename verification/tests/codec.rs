use solana_falcon512::codec::{
    decode_pubkey_u32, decompress_signature, encode_coeff_into_bytes, hash_to_point,
};
use solana_falcon512::keccak::Shake256;
use solana_falcon512::ntt::{N, Q};

#[test]
fn pubkey_decode_round_trip() {
    let mut packed = [0u8; (N * 14) / 8];
    let mut acc: u32 = 0;
    let mut acc_len: u32 = 0;
    let mut idx = 0;
    for i in 0..N {
        let w = (i as u32) % Q;
        acc = (acc << 14) | w;
        acc_len += 14;
        while acc_len >= 8 {
            acc_len -= 8;
            packed[idx] = (acc >> acc_len) as u8;
            idx += 1;
        }
    }
    if acc_len > 0 {
        packed[idx] = (acc << (8 - acc_len)) as u8;
    }
    let mut h = [0u32; N];
    assert!(decode_pubkey_u32(&packed, &mut h));
    for (i, &coeff) in h.iter().enumerate() {
        assert_eq!(coeff, (i as u32) % Q);
    }
}

#[test]
fn pubkey_decode_rejects_short_buffer() {
    let packed = [0u8; 895];
    let mut h = [7u32; N];
    assert!(!decode_pubkey_u32(&packed, &mut h));
    assert!(h.iter().all(|&x| x == 7));
}

#[test]
fn pubkey_decode_rejects_coefficient_at_q() {
    // First coefficient 12289 = 0b11_0000_0000_0001: bytes 0xC0 0x04 carry its 14 bits.
    let mut packed = [0u8; 896];
    packed[0] = 0xC0;
    packed[1] = 0x04;
    let mut h = [0u32; N];
    assert!(!decode_pubkey_u32(&packed, &mut h));
    // 12288 is accepted.
    packed[1] = 0x00;
    packed[0] = 0xC0;
    assert!(decode_pubkey_u32(&packed, &mut h));
    assert_eq!(h[0], 12288);
}

/// Packs bits most significant first.
fn push_bits(bits: &mut Vec<bool>, value: u32, width: u32) {
    for k in (0..width).rev() {
        bits.push((value >> k) & 1 == 1);
    }
}

fn encode(coeffs: &[i32], len: usize) -> Vec<u8> {
    let mut bits = Vec::new();
    for &c in coeffs {
        let m = c.unsigned_abs();
        bits.push(c < 0);
        push_bits(&mut bits, m & 127, 7);
        for _ in 0..(m >> 7) {
            bits.push(false);
        }
        bits.push(true);
    }
    let mut out = vec![0u8; len];
    for (p, &b) in bits.iter().enumerate() {
        if b {
            out[p / 8] |= 1 << (7 - p % 8);
        }
    }
    out
}

#[test]
fn decompress_zero_polynomial() {
    let buf = encode(&[0; N], 625);
    let mut s2 = [1i16; N];
    assert!(decompress_signature(&buf, &mut s2));
    assert!(s2.iter().all(|&x| x == 0));
}

#[test]
fn decompress_mixed_coefficients() {
    let mut coeffs = [0i32; N];
    for (i, c) in coeffs.iter_mut().enumerate() {
        *c = ((i as i32 * 37) % 601) - 300;
    }
    coeffs[5] = 2047;
    coeffs[6] = -2047;
    let buf = encode(&coeffs, 2000);
    let mut s2 = [0i16; N];
    assert!(decompress_signature(&buf, &mut s2));
    for i in 0..N {
        assert_eq!(s2[i] as i32, coeffs[i]);
    }
}

#[test]
fn decompress_rejects_minus_zero() {
    let mut buf = encode(&[0; N], 625);
    buf[0] |= 0x80; // sign bit of the first coefficient, magnitude 0
    let mut s2 = [0i16; N];
    assert!(!decompress_signature(&buf, &mut s2));
}

#[test]
fn decompress_rejects_nonzero_padding() {
    let mut buf = encode(&[0; N], 625);
    buf[624] = 1;
    let mut s2 = [0i16; N];
    assert!(!decompress_signature(&buf, &mut s2));
}

#[test]
fn decompress_rejects_truncated_buffer() {
    let mut buf = encode(&[0; N], 625);
    buf.truncate(100);
    let mut s2 = [0i16; N];
    assert!(!decompress_signature(&buf, &mut s2));
}

#[test]
fn decompress_rejects_magnitude_2048() {
    // Sign 0, low bits 0, then sixteen zeros: the magnitude would reach 2048.
    let buf = vec![0u8; 625];
    let mut s2 = [0i16; N];
    assert!(!decompress_signature(&buf, &mut s2));
}

#[test]
fn hash_to_point_reads_shake256_candidates() {
    let nonce = [3u8; 40];
    let message = b"hash me";
    let mut c = [0u16; N];
    hash_to_point(&nonce, message, &mut c);

    // The same sampling done by hand from the byte-wise squeeze.
    let mut s = Shake256::new();
    s.absorb(&nonce);
    s.absorb(message);
    s.finalize();
    let mut expected = Vec::new();
    while expected.len() < N {
        let mut two = [0u8; 2];
        s.squeeze(&mut two);
        let w = ((two[0] as u32) << 8) | two[1] as u32;
        if w < 5 * Q {
            expected.push((w % Q) as u16);
        }
    }
    assert_eq!(&c[..], &expected[..]);
    assert!(c.iter().all(|&x| (x as u32) < Q));
}

#[test]
fn encode_single_coefficient_bits() {
    // -130: sign 1, low seven bits 0000010, one zero, closing one.
    let mut bytes = [0u8; 4];
    let mut bit_idx = 0usize;
    encode_coeff_into_bytes(true, 130, &mut bytes, &mut bit_idx);
    assert_eq!(bit_idx, 10);
    assert_eq!(bytes, [0x82, 0x40, 0, 0]);
    // The next coefficient starts at bit 10: +0 is 000000001.
    encode_coeff_into_bytes(false, 0, &mut bytes, &mut bit_idx);
    assert_eq!(bit_idx, 19);
    assert_eq!(bytes, [0x82, 0x40, 0x20, 0]);
}

#[test]
fn encode_then_decompress_round_trip() {
    let mut bytes = vec![0u8; 2000];
    let mut bit_idx = 0usize;
    let mut values = [0i32; N];
    for (i, v) in values.iter_mut().enumerate() {
        *v = ((i as i32 * 53) % 4095) - 2047;
        encode_coeff_into_bytes(*v < 0, v.unsigned_abs() as u16, &mut bytes, &mut bit_idx);
    }
    let mut s2 = [0i16; N];
    assert!(decompress_signature(&bytes, &mut s2));
    for i in 0..N {
        assert_eq!(s2[i] as i32, values[i]);
    }
}

#[test]
fn hash_to_point_depends_on_concatenation() {
    let joined: Vec<u8> = (0..60u8).collect();
    let mut c1 = [0u16; N];
    let mut c2 = [0u16; N];
    hash_to_point(&joined[..40], &joined[40..], &mut c1);
    hash_to_point(&joined[..25], &joined[25..], &mut c2);
    assert_eq!(c1, c2);
}
