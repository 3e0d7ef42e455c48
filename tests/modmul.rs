use modmul_verifier::field::{accumulate, mulmod, power_ladder, reduce_checksum, to_field, CHECKSUM_MODULUS};
use modmul_verifier::modmul::{derive_challenge, transcript, verify, verify_with_challenge, Task, N_LIMBS};
use modmul_verifier::reconcile::{canonicalize, final_reduce, subtract_checked, VerifyError};
use modmul_verifier::words::{add32_and_overflow, add_small, decode_words, sub_and_borrow, sub_with_borrow};
use num_bigint::{BigUint, RandBigInt};
use num_traits::identities::Zero;
use rand_chacha::rand_core::SeedableRng;
use rand_chacha::ChaCha20Rng;
use sha2::Digest;

fn modulus() -> BigUint {
    BigUint::from_slice(&N_LIMBS)
}

fn checksum_prime() -> BigUint {
    BigUint::from_slice(&CHECKSUM_MODULUS)
}

fn padded(x: &BigUint, len: usize) -> Vec<u8> {
    let mut bytes = x.to_bytes_le();
    assert!(bytes.len() <= len);
    bytes.resize(len, 0);
    bytes
}

fn limbs(bytes: &[u8]) -> Vec<BigUint> {
    (0..22).map(|i| BigUint::from_bytes_le(&bytes[i * 12..i * 12 + 12])).collect()
}

fn long_form(x: &[u8], y: &[u8]) -> Vec<u8> {
    let xs = limbs(x);
    let ys = limbs(y);
    let mut slots = vec![BigUint::zero(); 43];
    for i in 0..22 {
        for j in 0..22 {
            slots[i + j] += &xs[i] * &ys[j];
        }
    }
    let mut out = Vec::new();
    for s in slots.iter() {
        out.extend_from_slice(&padded(s, 28));
    }
    out
}

fn witness_for(a: &BigUint, b: &BigUint) -> Task {
    let n = modulus();
    let k = (a * b) / &n;
    let a_bytes = padded(a, 264);
    let b_bytes = padded(b, 264);
    let k_bytes = padded(&k, 264);
    let n_bytes = padded(&n, 264);
    Task {
        long_form_c: long_form(&a_bytes, &b_bytes),
        long_form_kn: long_form(&k_bytes, &n_bytes),
        a: a_bytes,
        b: b_bytes,
        k: k_bytes,
    }
}

fn random_pair(seed: u64) -> (BigUint, BigUint) {
    let mut prng = ChaCha20Rng::seed_from_u64(seed);
    let a = prng.gen_biguint(2048);
    let b = prng.gen_biguint(2048);
    (a, b)
}

fn value(words: &[u32]) -> BigUint {
    BigUint::from_slice(words)
}

fn words8(x: u64) -> [u32; 8] {
    [x as u32, (x >> 32) as u32, 0, 0, 0, 0, 0, 0]
}

fn clone_task(t: &Task) -> Task {
    Task {
        a: t.a.clone(),
        b: t.b.clone(),
        long_form_c: t.long_form_c.clone(),
        k: t.k.clone(),
        long_form_kn: t.long_form_kn.clone(),
    }
}

fn accepts_with_product_remainder(seed: u64) {
    let (a, b) = random_pair(seed);
    let task = witness_for(&a, &b);
    let r = verify(&task).expect("an honest witness is accepted");
    assert_eq!(value(&r), (&a * &b) % modulus());
}

#[test]
fn honest_witness_accepted_seed_0() {
    accepts_with_product_remainder(0);
}

#[test]
fn honest_witness_accepted_seed_1() {
    accepts_with_product_remainder(1);
}

#[test]
fn honest_witness_accepted_seed_7() {
    accepts_with_product_remainder(7);
}

#[test]
fn honest_witness_accepted_at_fixed_challenges() {
    let (a, b) = random_pair(3);
    let task = witness_for(&a, &b);
    let expected = (&a * &b) % modulus();
    for z in [0u64, 1, 2, 189, 0xffff_ffff_ffff] {
        let r = verify_with_challenge(&task, &words8(z)).unwrap();
        assert_eq!(value(&r), expected);
    }
}

fn rejected(task: &Task) -> bool {
    matches!(
        verify(task),
        Err(VerifyError::ChecksumMismatch) | Err(VerifyError::MagnitudeInconsistency)
    )
}

fn tamper_each_field(seed: u64, offset: usize) {
    let (a, b) = random_pair(seed);
    let honest = witness_for(&a, &b);
    for field in 0..5 {
        let mut t = clone_task(&honest);
        let bytes = match field {
            0 => &mut t.a,
            1 => &mut t.b,
            2 => &mut t.long_form_c,
            3 => &mut t.k,
            _ => &mut t.long_form_kn,
        };
        let at = offset % bytes.len();
        bytes[at] ^= 0x01;
        assert!(rejected(&t), "field {} byte {} flipped was accepted", field, at);
    }
}

#[test]
fn tampered_byte_rejected_seed_0() {
    tamper_each_field(0, 5);
}

#[test]
fn tampered_byte_rejected_seed_1() {
    tamper_each_field(1, 100);
}

#[test]
fn tampered_byte_rejected_seed_2() {
    tamper_each_field(2, 263);
}

#[test]
fn tampered_operand_fails_identity_at_one() {
    // at z = 1 each checksum is the plain sum of limbs: moving A's first limb
    // by one moves A(1)·B(1) by B(1) while C(1) stays
    let (a, b) = random_pair(11);
    let mut t = witness_for(&a, &b);
    t.a[0] ^= 0x01;
    assert_eq!(verify_with_challenge(&t, &words8(1)), Err(VerifyError::ChecksumMismatch));
    let mut t = witness_for(&a, &b);
    t.long_form_kn[0] ^= 0x01;
    assert_eq!(verify_with_challenge(&t, &words8(1)), Err(VerifyError::ChecksumMismatch));
}

#[test]
fn tampered_top_byte_of_long_form_rejected() {
    let (a, b) = random_pair(4);
    let mut t = witness_for(&a, &b);
    t.long_form_c[1203] ^= 0x80;
    assert!(rejected(&t));
}

#[test]
fn zero_operand_accepted_with_zero() {
    let (_, b) = random_pair(5);
    let zero = BigUint::zero();
    let task = witness_for(&zero, &b);
    assert!(task.k.iter().all(|x| *x == 0));
    assert!(task.long_form_c.iter().all(|x| *x == 0));
    assert!(task.long_form_kn.iter().all(|x| *x == 0));
    assert_eq!(verify(&task), Ok([0u32; 64]));
    let task = witness_for(&b, &zero);
    assert_eq!(verify(&task), Ok([0u32; 64]));
}

#[test]
fn divisible_product_gives_zero() {
    let (_, b) = random_pair(6);
    let task = witness_for(&modulus(), &b);
    assert_eq!(verify(&task), Ok([0u32; 64]));
}

#[test]
fn malformed_witness_rejected() {
    let (a, b) = random_pair(8);
    let honest = witness_for(&a, &b);
    let mut t = clone_task(&honest);
    t.a.pop();
    assert_eq!(verify(&t), Err(VerifyError::MalformedWitness));
    let mut t = clone_task(&honest);
    t.long_form_kn.push(0);
    assert_eq!(verify(&t), Err(VerifyError::MalformedWitness));
    let mut t = clone_task(&honest);
    t.k = Vec::new();
    assert_eq!(verify_with_challenge(&t, &words8(5)), Err(VerifyError::MalformedWitness));
}

#[test]
fn oversized_product_overflows_canonical_width() {
    // A·B ≥ 2^4128 with K = 0 and KN = 0: both identities hold, the carry does not fit
    let big = (BigUint::from(1u32) << 2112usize) - 1u32;
    let a_bytes = padded(&big, 264);
    let zero = vec![0u8; 264];
    let task = Task {
        long_form_c: long_form(&a_bytes, &a_bytes),
        long_form_kn: long_form(&zero, &padded(&modulus(), 264)),
        a: a_bytes.clone(),
        b: a_bytes,
        k: zero,
    };
    assert_eq!(verify(&task), Err(VerifyError::CanonicalizationOverflow));
}

#[test]
fn wrong_quotient_is_magnitude_inconsistency() {
    let (a, b) = random_pair(9);
    let n = modulus();
    for k in [BigUint::zero(), (&a * &b) / &n + 1u32] {
        let a_bytes = padded(&a, 264);
        let b_bytes = padded(&b, 264);
        let k_bytes = padded(&k, 264);
        let task = Task {
            long_form_c: long_form(&a_bytes, &b_bytes),
            long_form_kn: long_form(&k_bytes, &padded(&n, 264)),
            a: a_bytes,
            b: b_bytes,
            k: k_bytes,
        };
        assert_eq!(verify(&task), Err(VerifyError::MagnitudeInconsistency));
    }
}

#[test]
fn canonicalize_carries_slots() {
    // slot 0 = 2^96 + 5, slot 1 = 7: value 5 + (1 + 7)·2^96
    let mut lf = vec![0u32; 301];
    lf[0] = 5;
    lf[3] = 1;
    lf[7] = 7;
    let c = canonicalize(&lf).unwrap();
    assert_eq!(c[0], 5);
    assert_eq!(c[3], 8);
    assert!(c.iter().enumerate().all(|(i, w)| i == 0 || i == 3 || *w == 0));
}

#[test]
fn canonicalize_rejects_leftover_carry() {
    let mut lf = vec![0u32; 301];
    lf[42 * 7 + 3] = 1;
    assert_eq!(canonicalize(&lf), Err(VerifyError::CanonicalizationOverflow));
    lf[42 * 7 + 3] = 0;
    lf[42 * 7 + 2] = 0xffff_ffff;
    assert!(canonicalize(&lf).is_ok());
}

#[test]
fn subtract_checked_cases() {
    let mut c = [0u32; 129];
    let mut kn = [0u32; 129];
    c[0] = 10;
    c[1] = 1;
    kn[0] = 11;
    let d = subtract_checked(&c, &kn).unwrap();
    assert_eq!(d[0], 0xffff_ffff);
    assert_eq!(d[1], 0);
    assert_eq!(subtract_checked(&kn, &c), Err(VerifyError::MagnitudeInconsistency));
    c[64] = 1;
    assert_eq!(subtract_checked(&c, &kn), Err(VerifyError::MagnitudeInconsistency));
}

#[test]
fn final_reduction_below_modulus_unchanged() {
    let mut n = [0u32; 64];
    n[0] = 100;
    n[63] = 1;
    let mut d = n;
    d[0] = 99;
    assert_eq!(final_reduce(&d, &n), d);
}

#[test]
fn final_reduction_subtracts_once() {
    let mut n = [0u32; 64];
    n[0] = 100;
    n[63] = 1;
    let mut d = n;
    d[0] = 150;
    let r = final_reduce(&d, &n);
    let mut expected = [0u32; 64];
    expected[0] = 50;
    assert_eq!(r, expected);
    assert_eq!(final_reduce(&n, &n), [0u32; 64]);
}

#[test]
fn ladder_entries_are_powers() {
    let p = checksum_prime();
    let z = to_field(&[7, 0, 0, 0, 0, 0, 0, 0x8000_0000]);
    let ladder = power_ladder(&z, 43);
    assert_eq!(ladder.len(), 43);
    let zv = value(&z);
    let mut acc = BigUint::from(1u32);
    for entry in ladder.iter() {
        assert_eq!(value(entry), acc);
        acc = (&acc * &zv) % &p;
    }
    assert_eq!(power_ladder(&z, 0).len(), 0);
    assert_eq!(power_ladder(&z, 1), vec![[1, 0, 0, 0, 0, 0, 0, 0]]);
}

#[test]
fn small_ladder_exact() {
    let ladder = power_ladder(&words8(3), 4);
    assert_eq!(ladder, vec![words8(1), words8(3), words8(9), words8(27)]);
}

#[test]
fn checksum_of_small_limbs() {
    // limbs 1 and 2 at z = 10: 1 + 2·10 = 21
    let ladder = power_ladder(&words8(10), 2);
    let acc = accumulate(&vec![1, 0, 0, 2, 0, 0], 3, 2, &ladder);
    assert_eq!(acc, [21, 0, 0, 0, 0, 0, 0, 0, 0]);
    assert_eq!(reduce_checksum(&acc), words8(21));
}

#[test]
fn reduce_checksum_folds_top_word() {
    // 2^256 ≡ 189 (mod p)
    let mut acc = [0u32; 9];
    acc[8] = 1;
    assert_eq!(reduce_checksum(&acc), words8(189));
    // p itself reduces to zero
    let mut acc = [0u32; 9];
    acc[..8].copy_from_slice(&CHECKSUM_MODULUS);
    assert_eq!(reduce_checksum(&acc), [0u32; 8]);
    // 43·(2^256 − 1) reduces to its value mod p
    let p = checksum_prime();
    let big = ((BigUint::from(1u32) << 256usize) - 1u32) * 43u32;
    let mut acc = [0u32; 9];
    for (i, d) in big.to_u32_digits().iter().enumerate() {
        acc[i] = *d;
    }
    assert_eq!(value(&reduce_checksum(&acc)), big % p);
}

#[test]
fn to_field_reduces_once() {
    let mut x = CHECKSUM_MODULUS;
    x[0] += 5;
    assert_eq!(to_field(&x), words8(5));
    assert_eq!(to_field(&words8(5)), words8(5));
}

#[test]
fn mulmod_exact() {
    assert_eq!(mulmod(&words8(3), &words8(5), &words8(7)), words8(1));
    let p = checksum_prime();
    let x = [0xffff_ffffu32; 8];
    let r = mulmod(&x, &x, &CHECKSUM_MODULUS);
    let xv = value(&x);
    assert_eq!(value(&r), (&xv * &xv) % p);
}

#[test]
fn challenge_is_digest_mod_p() {
    let (a, b) = random_pair(10);
    let task = witness_for(&a, &b);
    let bytes = transcript(&task);
    assert_eq!(bytes.len(), 20 + 264 * 3 + 1204 * 2);
    assert_eq!(&bytes[..20], b"RISC Zero RSA Gadget");
    let digest = sha2::Sha256::digest(&bytes);
    let expected = BigUint::from_bytes_le(&digest) % checksum_prime();
    let z = derive_challenge(&task);
    assert_eq!(value(&z), expected);
    let mut t = clone_task(&task);
    t.k[0] ^= 1;
    assert_ne!(derive_challenge(&t), z);
}

#[test]
fn add32_and_overflow_values() {
    assert_eq!(add32_and_overflow(1, 2, 1), (0, 4));
    assert_eq!(add32_and_overflow(0xffff_ffff, 1, 0), (1, 0));
    assert_eq!(add32_and_overflow(0xffff_ffff, 0xffff_ffff, 1), (1, 0xffff_ffff));
}

#[test]
fn add_small_ripples_carry() {
    let mut acc = [0xffff_ffffu32, 0xffff_ffff, 0, 7];
    add_small::<4, 1>(&mut acc, &[1]);
    assert_eq!(acc, [0, 0, 1, 7]);
    let mut acc = [0xffff_ffffu32; 3];
    add_small::<3, 2>(&mut acc, &[1, 0]);
    assert_eq!(acc, [0, 0, 0]);
}

#[test]
fn sub_with_borrow_values() {
    assert_eq!(sub_with_borrow(5, 3, 1), (1, 0));
    assert_eq!(sub_with_borrow(3, 5, 0), (0xffff_fffe, 1));
    assert_eq!(sub_with_borrow(0, 0, 1), (0xffff_ffff, 1));
}

#[test]
fn sub_and_borrow_values() {
    let mut acc = [0u32, 0, 1];
    assert_eq!(sub_and_borrow::<3>(&mut acc, &[1, 0, 0]), 0);
    assert_eq!(acc, [0xffff_ffff, 0xffff_ffff, 0]);
    let mut acc = [1u32, 0, 0];
    assert_eq!(sub_and_borrow::<3>(&mut acc, &[2, 0, 0]), 1);
    assert_eq!(acc, [0xffff_ffff; 3]);
}

#[test]
fn decode_words_little_endian() {
    assert_eq!(decode_words(&vec![1, 2, 3, 4, 0xff, 0, 0, 0x80]), vec![0x0403_0201, 0x8000_00ff]);
}
