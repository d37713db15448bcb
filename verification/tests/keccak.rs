use sha3::digest::{ExtendableOutput, Update, XofReader};
use solana_falcon512::keccak::{
    keccak_f1600, keccak_f1600_ref, keccak_lfsr_next_bit, rc_if_bit_set, spec_round_constants,
    Shake256, RATE, RC, SHAKE256_DOMAIN_SUFFIX, SHAKE256_FINAL_RATE_BIT,
};

struct Rng(u64);

impl Rng {
    fn next(&mut self) -> u64 {
        let mut x = self.0;
        x ^= x << 13;
        x ^= x >> 7;
        x ^= x << 17;
        self.0 = x;
        x
    }

    fn fill(&mut self, buf: &mut [u8]) {
        for slot in buf.iter_mut() {
            *slot = self.next() as u8;
        }
    }
}

#[test]
fn keccak_constants_match_spec() {
    assert_eq!(RATE, (1600 - 512) / 8, "SHAKE256 rate");
    assert_eq!(RATE, 17 * 8, "SHAKE256 rate lanes");
    assert_eq!(SHAKE256_DOMAIN_SUFFIX, 0x1f, "SHAKE256 domain suffix");
    assert_eq!(SHAKE256_FINAL_RATE_BIT, 0x80, "multi-rate padding final bit");

    let derived = spec_round_constants();
    assert_eq!(RC, derived, "Keccak-f[1600] round constants");
}

#[test]
fn optimized_keccak_f1600_matches_clean_reference() {
    let mut cases: Vec<[u64; 25]> = vec![[0; 25], [u64::MAX; 25]];
    for lane in 0..25 {
        let mut s = [0u64; 25];
        s[lane] = 1;
        cases.push(s);
        let mut s = [0u64; 25];
        s[lane] = u64::MAX;
        cases.push(s);
    }

    let mut rng = Rng(0x51A0_5EED_1600_0024);
    for _ in 0..512 {
        let mut s = [0u64; 25];
        for lane in &mut s {
            *lane = rng.next();
        }
        cases.push(s);
    }

    for (case, input) in cases.into_iter().enumerate() {
        let mut optimized = input;
        let mut reference = input;
        keccak_f1600(&mut optimized);
        keccak_f1600_ref(&mut reference);
        assert_eq!(
            optimized, reference,
            "case {case}: optimized Keccak-f[1600] diverges from clean reference"
        );
    }
}

#[test]
fn shake256_empty() {
    // NIST KAT: SHAKE256("") first 32 bytes
    let expected: [u8; 32] = [
        0x46, 0xb9, 0xdd, 0x2b, 0x0b, 0xa8, 0x8d, 0x13, 0x23, 0x3b, 0x3f, 0xeb, 0x74, 0x3e, 0xeb,
        0x24, 0x3f, 0xcd, 0x52, 0xea, 0x62, 0xb8, 0x1b, 0x82, 0xb5, 0x0c, 0x27, 0x64, 0x6e, 0xd5,
        0x76, 0x2f,
    ];
    let mut s = Shake256::new();
    s.finalize();
    let mut out = [0u8; 32];
    s.squeeze(&mut out);
    assert_eq!(out, expected);
}

#[test]
fn shake256_abc() {
    let expected: [u8; 32] = [
        0x48, 0x33, 0x66, 0x60, 0x13, 0x60, 0xa8, 0x77, 0x1c, 0x68, 0x63, 0x08, 0x0c, 0xc4, 0x11,
        0x4d, 0x8d, 0xb4, 0x45, 0x30, 0xf8, 0xf1, 0xe1, 0xee, 0x4f, 0x94, 0xea, 0x37, 0xe7, 0x8b,
        0x57, 0x39,
    ];
    let mut s = Shake256::new();
    s.absorb(b"abc");
    s.finalize();
    let mut out = [0u8; 32];
    s.squeeze(&mut out);
    assert_eq!(out, expected);
}

#[test]
fn shake256_long_squeeze() {
    let mut s = Shake256::new();
    s.finalize();
    let mut out = [0u8; 200];
    s.squeeze(&mut out);
    let mut s2 = Shake256::new();
    s2.finalize();
    let mut a = [0u8; 100];
    let mut b = [0u8; 100];
    s2.squeeze(&mut a);
    s2.squeeze(&mut b);
    assert_eq!(&out[..100], &a[..]);
    assert_eq!(&out[100..], &b[..]);
}

#[test]
fn shake256_matches_sha3_crate() {
    let mut rng = Rng(0xDEAD_BEEF_CAFE_F00D);

    for iter in 0..10_000 {
        let in_len = (rng.next() % 401) as usize;
        let mut input = vec![0u8; in_len];
        rng.fill(&mut input);

        let out_len = (rng.next() % 301) as usize;

        let mut ours = Shake256::new();
        ours.absorb(&input);
        ours.finalize();
        let mut our_out = vec![0u8; out_len];
        ours.squeeze(&mut our_out);

        let mut theirs = sha3::Shake256::default();
        theirs.update(&input);
        let mut their_reader = theirs.finalize_xof();
        let mut their_out = vec![0u8; out_len];
        their_reader.read(&mut their_out);

        assert_eq!(
            our_out, their_out,
            "iter {iter}: SHAKE256 diverges from sha3 crate (in_len={in_len}, out_len={out_len})"
        );
    }
}

#[test]
fn shake256_chunked_matches_sha3_crate() {
    let mut state = 0xABCD_1234_FEED_FACEu64;
    let mut next = || {
        state ^= state << 13;
        state ^= state >> 7;
        state ^= state << 17;
        state
    };

    for iter in 0..1_000 {
        let total = (next() % 501) as usize;
        let mut input = vec![0u8; total];
        for slot in input.iter_mut() {
            *slot = next() as u8;
        }

        let n_chunks = ((next() % 8) + 1) as usize;
        let mut splits: Vec<usize> = (0..n_chunks - 1)
            .map(|_| (next() as usize) % (total + 1))
            .collect();
        splits.push(0);
        splits.push(total);
        splits.sort();
        splits.dedup();

        let mut ours = Shake256::new();
        for w in splits.windows(2) {
            ours.absorb(&input[w[0]..w[1]]);
        }
        ours.finalize();

        let out_total = (next() % 401) as usize;
        let n_out = ((next() % 8) + 1) as usize;
        let mut out_splits: Vec<usize> = (0..n_out - 1)
            .map(|_| (next() as usize) % (out_total + 1))
            .collect();
        out_splits.push(0);
        out_splits.push(out_total);
        out_splits.sort();
        out_splits.dedup();

        let mut our_out = vec![0u8; out_total];
        for w in out_splits.windows(2) {
            ours.squeeze(&mut our_out[w[0]..w[1]]);
        }

        let mut theirs = sha3::Shake256::default();
        theirs.update(&input);
        let mut their_reader = theirs.finalize_xof();
        let mut their_out = vec![0u8; out_total];
        their_reader.read(&mut their_out);

        assert_eq!(
            our_out, their_out,
            "iter {iter}: chunked SHAKE diverges (total_in={total}, total_out={out_total})"
        );
    }
}

#[test]
fn rate_lanes_matches_squeeze() {
    let zeros = [0u8; 100];
    let ones = [0xffu8; 200];
    let fives = [0x5au8; 271];
    let inputs: [&[u8]; 5] = [b"", b"abc", &zeros, &ones, &fives];

    for input in inputs {
        let mut via_lanes = Shake256::new();
        via_lanes.absorb(input);
        via_lanes.finalize();

        let mut via_squeeze = Shake256::new();
        via_squeeze.absorb(input);
        via_squeeze.finalize();

        for block in 0..3 {
            let lanes = via_lanes.rate_lanes();
            assert_eq!(lanes.len(), 17, "rate_lanes must expose 17 lanes (= RATE / 8)");
            let mut from_lanes = [0u8; RATE];
            for (i, lane) in lanes.iter().enumerate() {
                from_lanes[i * 8..i * 8 + 8].copy_from_slice(&lane.to_le_bytes());
            }
            via_lanes.permute();

            let mut from_squeeze = [0u8; RATE];
            via_squeeze.squeeze(&mut from_squeeze);

            assert_eq!(
                from_lanes,
                from_squeeze,
                "block {block}: rate_lanes() and squeeze() disagree (input_len={})",
                input.len()
            );
        }
    }
}

#[test]
fn lfsr_first_steps() {
    // The LFSR starts at 1; its output bits begin 1, 0, 0, 0, 0, 0, 0 (RC[0] = 1).
    let mut r: u8 = 1;
    let mut bits = Vec::new();
    for _ in 0..8 {
        bits.push(keccak_lfsr_next_bit(&mut r));
    }
    assert_eq!(bits, vec![1, 0, 0, 0, 0, 0, 0, 0]);
    // After eight shifts the top bit has been fed back once: 0x80 -> 0x71.
    assert_eq!(r, 0x71);
}

#[test]
fn rc_bit_setting() {
    let mut rc = 0u64;
    rc_if_bit_set(&mut rc, 1, 63);
    rc_if_bit_set(&mut rc, 0, 0);
    rc_if_bit_set(&mut rc, 5, 3);
    assert_eq!(rc, 0x8000_0000_0000_0008);
}

#[test]
fn chunked_absorb_equals_whole_absorb() {
    let data: Vec<u8> = (0..300u32).map(|i| (i * 7 + 1) as u8).collect();
    let mut whole = Shake256::new();
    whole.absorb(&data);
    whole.finalize();
    let mut parts = Shake256::new();
    parts.absorb(&data[..3]);
    parts.absorb(&data[3..150]);
    parts.absorb(&data[150..]);
    parts.finalize();
    let mut a = [0u8; 64];
    let mut b = [0u8; 64];
    whole.squeeze(&mut a);
    parts.squeeze(&mut b);
    assert_eq!(a, b);
}

#[test]
fn permute_of_zero_state() {
    // Keccak-f[1600] of the all-zero state: first lane is 0xF1258F7940E1DDE7.
    let mut s = [0u64; 25];
    keccak_f1600(&mut s);
    assert_eq!(s[0], 0xF125_8F79_40E1_DDE7);
}
