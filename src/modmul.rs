//! The witness, the Fiat–Shamir challenge bound to it, and the whole
//! verification: challenge, power ladder, six checksums, two identities,
//! two canonicalizations, the checked subtraction and the final reduction.
use crate::field::{
    accumulate, lemma_checksum_is_eval, lemma_checksum_modulus, lemma_ladder_entry_is_power,
    limb_values, mulmod, p_val, power_ladder, reduce_checksum, to_field, CHECKSUM_MODULUS,
};
use crate::poly::{eval, power};
use crate::reconcile::{
    canonicalize, final_reduce, final_value, long_form_value, slot_values, subtract_checked,
    VerifyError,
};
use crate::words::{
    decode_words, le_words, lemma_top_word_weight, lemma_words_injective, lemma_words_val_bound,
    lemma_zero_extension, words_val, wpow,
};
use sha2::Digest;
use vstd::prelude::*;

verus! {

/// Bytes of an operand: 22 limbs of 96 bits.
pub const OPERAND_BYTES: usize = 264;

/// Bytes of a long-form product: 43 slots of 224 bits.
pub const LONG_FORM_BYTES: usize = 1204;

/// 96-bit limbs in an operand.
pub const OPERAND_LIMBS: usize = 22;

/// The domain-separation tag hashed ahead of the witness:
/// the ASCII text "RISC Zero RSA Gadget".
pub const DOMAIN_TAG: [u8; 20] = [
    82u8, 73, 83, 67, 32, 90, 101, 114, 111, 32, 82, 83, 65, 32, 71, 97, 100, 103, 101, 116,
];

/// The real modulus `N`, a 2048-bit number, as 22 limbs of three words.
pub const N_LIMBS: [u32; 66] = [
    3493812455u32, 3529997461, 710143587, 2792692495, 1885047707, 3553628773, 2204079629,
    699911535, 3275286756, 2670964040, 380836659, 1539088076, 257233178, 102057303, 3498423094,
    347591143, 118634769, 2922120165, 4044052678, 3306267357, 3299705609, 2232715160, 2567218027,
    57867452, 3266166781, 2351768864, 296981719, 1570354344, 4098249795, 2000361393, 1479034620,
    3336008768, 2938032753, 3528598023, 1304193507, 121827407, 514584826, 1603753032, 1664712145,
    3527467765, 2821704060, 729040642, 2110748820, 3709644666, 4149792411, 1565350608, 3206857463,
    792901230, 3569404149, 1620994961, 33783729, 1281610576, 468794176, 1193160222, 3636051391,
    2450661453, 4242348214, 2150858390, 1813504491, 305305593, 1673370015, 1864962247, 2629885700,
    2947918631, 0, 0,
];

/// The witness: operands `A`, `B`, the quotient `K`, and the long-form
/// products `C = A·B` and `KN = K·N`, all as little-endian bytes.
pub struct Task {
    pub a: Vec<u8>,
    pub b: Vec<u8>,
    pub long_form_c: Vec<u8>,
    pub k: Vec<u8>,
    pub long_form_kn: Vec<u8>,
}

/// Every byte array of the witness has its fixed length.
pub open spec fn well_formed(task: Task) -> bool {
    &&& task.a@.len() == OPERAND_BYTES
    &&& task.b@.len() == OPERAND_BYTES
    &&& task.long_form_c@.len() == LONG_FORM_BYTES
    &&& task.k@.len() == OPERAND_BYTES
    &&& task.long_form_kn@.len() == LONG_FORM_BYTES
}

/// The number an operand's bytes denote.
pub open spec fn operand_value(bytes: Seq<u8>) -> nat {
    words_val(le_words(bytes))
}

/// An operand's 96-bit limbs.
pub open spec fn operand_limbs(bytes: Seq<u8>) -> Seq<int> {
    limb_values(le_words(bytes), 3, OPERAND_LIMBS as nat)
}

/// A long-form product's slots.
pub open spec fn long_form_slots(bytes: Seq<u8>) -> Seq<int> {
    slot_values(le_words(bytes))
}

/// The integer a long-form product's bytes stand for once carried.
pub open spec fn long_form_bytes_value(bytes: Seq<u8>) -> int {
    long_form_value(le_words(bytes))
}

/// The real modulus's 96-bit limbs.
pub open spec fn modulus_limbs() -> Seq<int> {
    limb_values(N_LIMBS@, 3, OPERAND_LIMBS as nat)
}

/// The real modulus.
pub open spec fn modulus_value() -> nat {
    words_val(N_LIMBS@)
}

/// The reduced checksum of a limb sequence at `z`.
pub open spec fn checksum_at(limbs: Seq<int>, z: nat) -> int {
    eval(limbs, z as int) % (p_val() as int)
}

/// Both polynomial identities hold at `z`: `A(z)·B(z) ≡ C(z)` and
/// `K(z)·N(z) ≡ KN(z)` modulo `p`.
pub open spec fn identities_hold(task: Task, z: nat) -> bool {
    &&& (checksum_at(operand_limbs(task.a@), z) * checksum_at(operand_limbs(task.b@), z)) % (
    p_val() as int) == checksum_at(long_form_slots(task.long_form_c@), z)
    &&& (checksum_at(operand_limbs(task.k@), z) * checksum_at(modulus_limbs(), z)) % (p_val() as int)
        == checksum_at(long_form_slots(task.long_form_kn@), z)
}

/// What verifying `task` at challenge `z` gives: the first failing step's
/// rejection, or the remainder.
pub open spec fn outcome(task: Task, z: nat) -> Result<int, VerifyError> {
    let c = long_form_bytes_value(task.long_form_c@);
    let kn = long_form_bytes_value(task.long_form_kn@);
    if !well_formed(task) {
        Err(VerifyError::MalformedWitness)
    } else if !identities_hold(task, z % p_val()) {
        Err(VerifyError::ChecksumMismatch)
    } else if c >= wpow(129) || kn >= wpow(129) {
        Err(VerifyError::CanonicalizationOverflow)
    } else if c < kn || c - kn >= wpow(64) {
        Err(VerifyError::MagnitudeInconsistency)
    } else {
        Ok(final_value(c - kn, modulus_value() as int))
    }
}

/// The value a returned remainder denotes, or the rejection.
pub open spec fn result_value(r: Result<[u32; 64], VerifyError>) -> Result<int, VerifyError> {
    match r {
        Ok(d) => Ok(words_val(d@) as int),
        Err(e) => Err(e),
    }
}

/// The bytes hashed for the challenge: the tag, then `A`, `B`, `C`, `K`, `KN`.
pub open spec fn transcript_of(task: Task) -> Seq<u8> {
    DOMAIN_TAG@ + task.a@ + task.b@ + task.long_form_c@ + task.k@ + task.long_form_kn@
}

/// The SHA-256 digest of a byte string.
pub uninterp spec fn sha256_of(data: Seq<u8>) -> Seq<u8>;

/// The challenge bound to a witness: the digest read as a little-endian
/// number, reduced modulo `p`.
pub open spec fn challenge_of(task: Task) -> nat {
    words_val(le_words(sha256_of(transcript_of(task)))) % p_val()
}

/// Relies on sha2's `Sha256::digest`: the SHA-256 digest of the bytes, 32
/// bytes long, a function of the bytes alone.
#[verifier::external_body]
fn sha256(data: &Vec<u8>) -> (r: Vec<u8>)
    ensures
        r@ == sha256_of(data@),
        r@.len() == 32,
{
    sha2::Sha256::digest(data.as_slice()).to_vec()
}

/// The real modulus is nonzero and fits in its low 64 words.
pub proof fn lemma_modulus_facts()
    ensures
        N_LIMBS@.len() == 66,
        modulus_value() == words_val(N_LIMBS@.take(64)),
        0 < modulus_value() < wpow(64),
{
    lemma_zero_extension(N_LIMBS@, 64);
    lemma_words_val_bound(N_LIMBS@.take(64));
    lemma_top_word_weight(N_LIMBS@.take(64));
    crate::words::lemma_wpow_pos(63);
}

fn append_bytes(out: &mut Vec<u8>, src: &[u8])
    ensures
        final(out)@ == old(out)@ + src@,
{
    let mut i: usize = 0;
    while i < src.len()
        invariant
            i <= src@.len(),
            out@ == old(out)@ + src@.take(i as int),
        decreases src@.len() - i,
    {
        out.push(src[i]);
        i = i + 1;
        assert(src@.take(i as int) =~= src@.take(i - 1).push(src@[i - 1]));
    }
    assert(src@.take(src@.len() as int) =~= src@);
}

/// The bytes hashed for the challenge.
pub fn transcript(task: &Task) -> (r: Vec<u8>)
    ensures
        r@ == transcript_of(*task),
{
    let mut r: Vec<u8> = Vec::new();
    append_bytes(&mut r, DOMAIN_TAG.as_slice());
    append_bytes(&mut r, task.a.as_slice());
    append_bytes(&mut r, task.b.as_slice());
    append_bytes(&mut r, task.long_form_c.as_slice());
    append_bytes(&mut r, task.k.as_slice());
    append_bytes(&mut r, task.long_form_kn.as_slice());
    assert(r@ =~= transcript_of(*task));
    r
}

/// Derives the challenge: the first 32 bytes of the SHA-256 digest of the
/// tagged witness, as a number reduced modulo `p`.
pub fn derive_challenge(task: &Task) -> (z: [u32; 8])
    ensures
        words_val(z@) == challenge_of(*task),
{
    let bytes = transcript(task);
    let digest = sha256(&bytes);
    let w = decode_words(&digest);
    let raw: [u32; 8] = [w[0], w[1], w[2], w[3], w[4], w[5], w[6], w[7]];
    assert(raw@ =~= le_words(sha256_of(transcript_of(*task))));
    to_field(&raw)
}

fn same_words(x: &[u32; 8], y: &[u32; 8]) -> (r: bool)
    ensures
        r == (words_val(x@) == words_val(y@)),
{
    let mut i: usize = 0;
    while i < 8
        invariant
            i <= 8,
            forall|j: int| 0 <= j < i ==> x@[j] == y@[j],
        decreases 8 - i,
    {
        if x[i] != y[i] {
            proof {
                if words_val(x@) == words_val(y@) {
                    lemma_words_injective(x@, y@);
                }
            }
            return false;
        }
        i = i + 1;
    }
    assert(x@ =~= y@);
    true
}

fn modulus_words() -> (r: Vec<u32>)
    ensures
        r@ == N_LIMBS@,
{
    let mut r: Vec<u32> = Vec::new();
    let mut i: usize = 0;
    while i < 66
        invariant
            i <= 66,
            r@ == N_LIMBS@.take(i as int),
        decreases 66 - i,
    {
        r.push(N_LIMBS[i]);
        i = i + 1;
        assert(N_LIMBS@.take(i as int) =~= N_LIMBS@.take(i - 1).push(N_LIMBS@[i - 1]));
    }
    assert(N_LIMBS@.take(66) =~= N_LIMBS@);
    r
}

fn modulus_low_words() -> (r: [u32; 64])
    ensures
        words_val(r@) == modulus_value(),
{
    let mut r: [u32; 64] = [0u32; 64];
    let mut i: usize = 0;
    while i < 64
        invariant
            i <= 64,
            r@.len() == 64,
            forall|j: int| 0 <= j < i ==> r@[j] == N_LIMBS@[j],
        decreases 64 - i,
    {
        r[i] = N_LIMBS[i];
        i = i + 1;
    }
    proof {
        lemma_modulus_facts();
        assert(r@ =~= N_LIMBS@.take(64));
    }
    r
}

/// The reduced checksum of a limb sequence over a ladder of powers of `z`.
fn checksum(words: &Vec<u32>, width: usize, count: usize, ladder: &Vec<[u32; 8]>, z: Ghost<nat>) -> (r: [u32; 8])
    requires
        1 <= width <= 8,
        words@.len() == width * count,
        count <= ladder@.len(),
        count <= 0xffff_ffff,
        forall|i: int|
            0 <= i < ladder@.len() ==> words_val(#[trigger] ladder@[i]@) == power(z@ as int, i as nat) % (
            p_val() as int),
    ensures
        words_val(r@) == checksum_at(limb_values(words@, width as nat, count as nat), z@),
{
    let acc = accumulate(words, width, count, ladder);
    let r = reduce_checksum(&acc);
    proof {
        let limbs = limb_values(words@, width as nat, count as nat);
        lemma_checksum_is_eval(limbs, ladder@, z@ as int, count as nat);
        assert(limbs.take(count as int) =~= limbs);
    }
    r
}

/// Verifies a witness at the challenge `z`: the two polynomial identities
/// modulo `p`, then the exact reconciliation `C − KN` and its final
/// reduction by `N`. Returns the remainder as 64 words, or the first
/// failing step's rejection.
pub fn verify_with_challenge(task: &Task, z: &[u32; 8]) -> (r: Result<[u32; 64], VerifyError>)
    ensures
        result_value(r) == outcome(*task, words_val(z@)),
{
    if task.a.len() != OPERAND_BYTES || task.b.len() != OPERAND_BYTES || task.long_form_c.len()
        != LONG_FORM_BYTES || task.k.len() != OPERAND_BYTES || task.long_form_kn.len()
        != LONG_FORM_BYTES {
        return Err(VerifyError::MalformedWitness);
    }
    let a = decode_words(&task.a);
    let b = decode_words(&task.b);
    let c = decode_words(&task.long_form_c);
    let k = decode_words(&task.k);
    let kn = decode_words(&task.long_form_kn);
    let n = modulus_words();

    let zf = to_field(z);
    let ghost zv = words_val(zf@);
    proof {
        lemma_checksum_modulus();
    }
    let ladder = power_ladder(&zf, 43);
    proof {
        assert forall|i: int| 0 <= i < ladder@.len() implies words_val(#[trigger] ladder@[i]@) == power(
            zv as int,
            i as nat,
        ) % (p_val() as int) by {
            lemma_ladder_entry_is_power(zv, i as nat);
        }
    }
    let az = checksum(&a, 3, 22, &ladder, Ghost(zv));
    let bz = checksum(&b, 3, 22, &ladder, Ghost(zv));
    let kz = checksum(&k, 3, 22, &ladder, Ghost(zv));
    let nz = checksum(&n, 3, 22, &ladder, Ghost(zv));
    let cz = checksum(&c, 7, 43, &ladder, Ghost(zv));
    let knz = checksum(&kn, 7, 43, &ladder, Ghost(zv));

    let ab = mulmod(&az, &bz, &CHECKSUM_MODULUS);
    let kn_check = mulmod(&kz, &nz, &CHECKSUM_MODULUS);
    if !same_words(&ab, &cz) || !same_words(&kn_check, &knz) {
        return Err(VerifyError::ChecksumMismatch);
    }
    let c_canon = match canonicalize(&c) {
        Ok(v) => v,
        Err(e) => {
            return Err(e);
        },
    };
    let kn_canon = match canonicalize(&kn) {
        Ok(v) => v,
        Err(e) => {
            return Err(e);
        },
    };
    let d = match subtract_checked(&c_canon, &kn_canon) {
        Ok(v) => v,
        Err(e) => {
            return Err(e);
        },
    };
    let n_low = modulus_low_words();
    Ok(final_reduce(&d, &n_low))
}

/// Verifies a witness end to end: derives the challenge from it, then verifies
/// it at that challenge. A witness of the wrong shape is rejected before
/// anything is hashed.
pub fn verify(task: &Task) -> (r: Result<[u32; 64], VerifyError>)
    ensures
        result_value(r) == outcome(*task, challenge_of(*task)),
{
    if task.a.len() != OPERAND_BYTES || task.b.len() != OPERAND_BYTES || task.long_form_c.len()
        != LONG_FORM_BYTES || task.k.len() != OPERAND_BYTES || task.long_form_kn.len()
        != LONG_FORM_BYTES {
        return Err(VerifyError::MalformedWitness);
    }
    let z = derive_challenge(task);
    verify_with_challenge(task, &z)
}

} // verus!
