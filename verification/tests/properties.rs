use solana_falcon512::codec::{decode_pubkey_u32, decompress_signature};
use solana_falcon512::ntt::{N, Q};
use solana_falcon512::{
    Falcon512PreparedPubkey, Falcon512Pubkey, Falcon512Signature, FALCON_512_PREPARED_PUBKEY_LEN,
    FALCON_512_PUBKEY_LEN, FALCON_512_SIGNATURE_LEN,
};

struct Rng(u64);

impl Rng {
    fn next(&mut self) -> u64 {
        let mut x = self.0;
        x ^= x << 13;
        x ^= x >> 7;
        x ^= x << 17;
        self.0 = x;
        x
    }
}

fn pack_pubkey(coeffs: &[u32]) -> [u8; FALCON_512_PUBKEY_LEN] {
    let mut pk_bytes = [0u8; FALCON_512_PUBKEY_LEN];
    pk_bytes[0] = 0x09;
    let mut acc: u32 = 0;
    let mut acc_len: u32 = 0;
    let mut idx: usize = 1;
    for &w in coeffs.iter() {
        acc = (acc << 14) | w;
        acc_len += 14;
        while acc_len >= 8 {
            acc_len -= 8;
            pk_bytes[idx] = (acc >> acc_len) as u8;
            idx += 1;
        }
    }
    pk_bytes
}

#[test]
fn header_rejection_exhaustive() {
    let prepared = Falcon512PreparedPubkey::from_bytes([0u8; FALCON_512_PREPARED_PUBKEY_LEN]);
    for header in 0u8..=255u8 {
        if header != 0x39 {
            let mut sig = [0u8; FALCON_512_SIGNATURE_LEN];
            sig[0] = header;
            let sig = Falcon512Signature::from_bytes(sig);
            assert!(!sig.verify_with_prepared(b"test", &prepared), "header {header:#04x}");
        }
    }
}

#[test]
fn pk_header_rejection_exhaustive() {
    let mut sig_bytes = [0u8; FALCON_512_SIGNATURE_LEN];
    sig_bytes[0] = 0x39;
    let sig = Falcon512Signature::from_bytes(sig_bytes);
    for header in 0u8..=255u8 {
        if header != 0x09 {
            let mut pk_bytes = [0u8; FALCON_512_PUBKEY_LEN];
            pk_bytes[0] = header;
            let pk = Falcon512Pubkey::from_bytes(pk_bytes);
            assert!(!sig.verify(b"test", &pk), "pk header {header:#04x}");
        }
    }
}

#[test]
fn prepared_validate_catches_bad_coeff() {
    for (pos, coeff) in [(0usize, 12289u16), (511, u16::MAX), (200, 20000)] {
        let mut bytes = [0u8; FALCON_512_PREPARED_PUBKEY_LEN];
        bytes[2 * pos] = (coeff & 0xff) as u8;
        bytes[2 * pos + 1] = (coeff >> 8) as u8;
        let pk = Falcon512PreparedPubkey::from_bytes(bytes);
        assert!(!pk.validate());
        assert!(Falcon512PreparedPubkey::try_from_slice(&bytes).is_err());
        // The plain conversion checks the length only.
        assert!(Falcon512PreparedPubkey::try_from(&bytes[..]).is_ok());
    }
    let mut ok = [0u8; FALCON_512_PREPARED_PUBKEY_LEN];
    ok[0] = 0x00;
    ok[1] = 0x30; // 0x3000 = 12288
    assert!(Falcon512PreparedPubkey::from_bytes(ok).validate());
    assert!(Falcon512PreparedPubkey::try_from_slice(&ok).is_ok());
}

#[test]
fn prepared_pubkey_from_prepare_is_valid() {
    let mut rng = Rng(0x1234_5678_9abc_def1);
    for _ in 0..4 {
        let coeffs: Vec<u32> = (0..N).map(|_| (rng.next() % Q as u64) as u32).collect();
        let pk = Falcon512Pubkey::from_bytes(pack_pubkey(&coeffs));
        let prepared = pk.prepare_pubkey();
        assert!(prepared.validate());
    }
}

#[test]
fn pubkey_bit_flip_detected() {
    let buf_orig = [0u8; 896];
    let mut h_orig = [0u32; N];
    assert!(decode_pubkey_u32(&buf_orig, &mut h_orig));
    for bit_pos in (0..7168).step_by(7) {
        let mut buf = buf_orig;
        buf[bit_pos / 8] ^= 1 << (bit_pos % 8);
        let mut h_flipped = [0u32; N];
        if decode_pubkey_u32(&buf, &mut h_flipped) {
            assert!(h_orig != h_flipped, "bit flip at {bit_pos} not detected");
        }
    }
}

#[test]
fn decompress_output_bounded() {
    let mut rng = Rng(0x0bad_cafe_0000_0001);
    for _ in 0..200 {
        let mut buf = [0u8; 625];
        for b in buf.iter_mut() {
            *b = rng.next() as u8;
        }
        let mut s2 = [0i16; N];
        if decompress_signature(&buf, &mut s2) {
            assert!(s2.iter().all(|&v| (-2047..=2047).contains(&v)));
        }
    }
}

#[test]
fn decode_pubkey_output_bounded() {
    let mut rng = Rng(0x0bad_cafe_0000_0002);
    for _ in 0..200 {
        let mut buf = [0u8; 896];
        for b in buf.iter_mut() {
            *b = (rng.next() as u8) & 0x3f;
        }
        let mut h = [0u32; N];
        if decode_pubkey_u32(&buf, &mut h) {
            assert!(h.iter().all(|&v| v < Q));
        }
    }
}
