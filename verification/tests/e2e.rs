use pqcrypto_falcon::falcon512;
use pqcrypto_traits::sign::{DetachedSignature, PublicKey};
use solana_falcon512::{
    Falcon512PreparedPubkey, Falcon512Pubkey, Falcon512Signature, FALCON_512_PREPARED_PUBKEY_LEN,
    FALCON_512_PUBKEY_LEN, FALCON_512_SIGNATURE_LEN,
};

fn sign_with_pqclean(msg: &[u8]) -> ([u8; FALCON_512_PUBKEY_LEN], [u8; FALCON_512_SIGNATURE_LEN]) {
    let (pk, sk) = falcon512::keypair();
    let sig = falcon512::detached_sign(msg, &sk);

    let pk_bytes = pk.as_bytes();
    let sig_bytes = sig.as_bytes();
    assert_eq!(pk_bytes.len(), FALCON_512_PUBKEY_LEN);
    assert!(sig_bytes.len() <= FALCON_512_SIGNATURE_LEN);

    let mut pk_arr = [0u8; FALCON_512_PUBKEY_LEN];
    pk_arr.copy_from_slice(pk_bytes);

    let mut sig_arr = [0u8; FALCON_512_SIGNATURE_LEN];
    sig_arr[..sig_bytes.len()].copy_from_slice(sig_bytes);

    (pk_arr, sig_arr)
}

#[test]
fn verify_pqclean_signature() {
    let msg = b"falcon-512 test message";
    let (pk_bytes, sig_bytes) = sign_with_pqclean(msg);

    let pubkey = Falcon512Pubkey::from(pk_bytes);
    let signature = Falcon512Signature::from(sig_bytes);

    assert!(signature.verify(msg, &pubkey));
}

#[test]
fn rejects_modified_message() {
    let msg = b"original message";
    let (pk_bytes, sig_bytes) = sign_with_pqclean(msg);

    let pubkey = Falcon512Pubkey::from(pk_bytes);
    let signature = Falcon512Signature::from(sig_bytes);

    assert!(!signature.verify(b"tampered message", &pubkey));
}

#[test]
fn rejects_modified_signature() {
    let msg = b"falcon-512 test message";
    let (pk_bytes, mut sig_bytes) = sign_with_pqclean(msg);

    sig_bytes[100] ^= 0x01;

    let pubkey = Falcon512Pubkey::from(pk_bytes);
    let signature = Falcon512Signature::from(sig_bytes);

    assert!(!signature.verify(msg, &pubkey));
}

#[test]
fn rejects_wrong_pubkey() {
    let msg = b"falcon-512 test message";
    let (_pk_bytes, sig_bytes) = sign_with_pqclean(msg);
    let (other_pk_bytes, _) = sign_with_pqclean(b"unrelated");

    let pubkey = Falcon512Pubkey::from(other_pk_bytes);
    let signature = Falcon512Signature::from(sig_bytes);

    assert!(!signature.verify(msg, &pubkey));
}

#[test]
fn many_signatures_verify() {
    for i in 0..8 {
        let msg = format!("message #{i}");
        let (pk_bytes, sig_bytes) = sign_with_pqclean(msg.as_bytes());
        let pubkey = Falcon512Pubkey::from(pk_bytes);
        let signature = Falcon512Signature::from(sig_bytes);
        assert!(signature.verify(msg.as_bytes(), &pubkey), "iter {i}");
    }
}

#[test]
fn prepared_pubkey_roundtrip_matches_direct_verify() {
    let msg = b"prepared path";
    let (pk_bytes, sig_bytes) = sign_with_pqclean(msg);
    let pubkey = Falcon512Pubkey::from(pk_bytes);
    let prepared = pubkey.prepare_pubkey();
    let stored = prepared.as_bytes();
    assert_eq!(stored.len(), FALCON_512_PREPARED_PUBKEY_LEN);
    let restored = Falcon512PreparedPubkey::from_bytes(stored);
    assert!(restored == prepared);

    let signature = Falcon512Signature::from(sig_bytes);
    assert!(signature.verify(msg, &pubkey));
    assert!(signature.verify_with_prepared(msg, &restored));

    let mut tampered = sig_bytes;
    tampered[200] ^= 0x10;
    let tampered = Falcon512Signature::from(tampered);
    assert_eq!(
        tampered.verify(msg, &pubkey),
        tampered.verify_with_prepared(msg, &restored)
    );
    assert!(!tampered.verify_with_prepared(msg, &restored));
    assert!(!signature.verify_with_prepared(b"other message", &restored));
}

#[test]
fn slice_constructors_check_length() {
    let (pk_bytes, sig_bytes) = sign_with_pqclean(b"lengths");
    assert!(Falcon512Pubkey::try_from(&pk_bytes[..]).is_ok());
    assert!(Falcon512Pubkey::try_from(&pk_bytes[..896]).is_err());
    assert!(Falcon512Signature::try_from(&sig_bytes[..]).is_ok());
    assert!(Falcon512Signature::try_from_slice(&sig_bytes[1..]).is_err());
    let sig = Falcon512Signature::try_from_slice(&sig_bytes[..]).unwrap();
    assert_eq!(sig.as_bytes(), &sig_bytes);
    let pk = Falcon512Pubkey::try_from_slice(&pk_bytes[..]).unwrap();
    assert_eq!(pk.as_bytes(), &pk_bytes);
    let prepared = pk.prepare_pubkey().as_bytes();
    assert!(Falcon512PreparedPubkey::try_from(&prepared[..]).is_ok());
    assert!(Falcon512PreparedPubkey::try_from(&prepared[..1000]).is_err());
    assert!(Falcon512PreparedPubkey::try_from_slice(&prepared[..]).unwrap() == pk.prepare_pubkey());
}

#[test]
fn wrong_headers_are_rejected() {
    let msg = b"headers";
    let (pk_bytes, sig_bytes) = sign_with_pqclean(msg);
    let mut bad_sig = sig_bytes;
    bad_sig[0] = 0x49;
    let mut bad_pk = pk_bytes;
    bad_pk[0] = 0x0a;
    let pubkey = Falcon512Pubkey::from_bytes(pk_bytes);
    assert!(!Falcon512Signature::from_bytes(bad_sig).verify(msg, &pubkey));
    assert!(!Falcon512Signature::from_bytes(sig_bytes).verify(msg, &Falcon512Pubkey::from_bytes(bad_pk)));
    assert!(!Falcon512Signature::from_bytes(bad_sig).verify_with_prepared(msg, &pubkey.prepare_pubkey()));
}

#[test]
fn prepared_bytes_are_little_endian() {
    let mut bytes = [0u8; FALCON_512_PREPARED_PUBKEY_LEN];
    bytes[0] = 0x34;
    bytes[1] = 0x12;
    bytes[1023] = 0x2f;
    let p = Falcon512PreparedPubkey::from_bytes(bytes);
    assert_eq!(p.as_bytes(), bytes);
    assert_eq!(p.as_bytes()[0], 0x34);
}
