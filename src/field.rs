//! Arithmetic modulo the checksum prime `p = 2^256 − 189`, held as eight
//! little-endian words (with a ninth word of headroom in accumulators).
use crate::poly::{eval, power};
use crate::words::{
    add_small, lemma_prefix_step, lemma_words_split,
    lemma_top_word_weight, lemma_words_val_bound, lemma_words_zero, lemma_wpow_mono, lemma_zero_extension,
    sub_and_borrow,
    words_val, wpow,
};
use num_bigint::BigUint;
use vstd::arithmetic::div_mod::*;
use vstd::prelude::*;

verus! {

/// The checksum modulus `2^256 − 189` as little-endian words.
pub const CHECKSUM_MODULUS: [u32; 8] = [
    4294967107u32,
    4294967295u32,
    4294967295u32,
    4294967295u32,
    4294967295u32,
    4294967295u32,
    4294967295u32,
    4294967295u32,
];

/// `2^256 mod p`: the weight of an accumulator's ninth word, folded back.
pub const FOLD_FACTOR: u32 = 189;

/// The checksum modulus as a number.
pub open spec fn p_val() -> nat {
    (wpow(8) - 189) as nat
}

/// The constant's words denote `p`, and `p` is far above any single word.
pub proof fn lemma_checksum_modulus()
    ensures
        words_val(CHECKSUM_MODULUS@) == p_val(),
        wpow(8) == 0x1_0000_0000_0000_0000_0000_0000_0000_0000_0000_0000_0000_0000_0000_0000_0000_0000,
        p_val() > 0x1_0000_0000_0000,
{
    reveal_with_fuel(words_val, 9);
    reveal_with_fuel(wpow, 9);
    assert(CHECKSUM_MODULUS@.drop_last() =~= seq![4294967107u32, 4294967295, 4294967295, 4294967295, 4294967295, 4294967295, 4294967295]);
}

/// Relies on num_bigint's `BigUint`: built from base-2^32 digits, multiplied,
/// reduced by `%`, and read back with `to_u32_digits`, which lists the digits
/// least significant first with no zero digit on top.
#[verifier::external_body]
fn bigint_mul_mod(x: &[u32; 8], y: &[u32; 8], m: &[u32; 8]) -> (r: Vec<u32>)
    requires
        words_val(m@) > 0,
    ensures
        words_val(r@) == words_val(x@) * words_val(y@) % words_val(m@),
        r@.len() > 0 ==> r@.last() != 0,
{
    let product = BigUint::from_slice(x) * BigUint::from_slice(y) % BigUint::from_slice(m);
    product.to_u32_digits()
}

/// The modular multiplication primitive: `x · y mod m` on eight-word numbers.
pub fn mulmod(x: &[u32; 8], y: &[u32; 8], m: &[u32; 8]) -> (r: [u32; 8])
    requires
        words_val(m@) > 0,
    ensures
        words_val(r@) == words_val(x@) * words_val(y@) % words_val(m@),
{
    let digits = bigint_mul_mod(x, y, m);
    proof {
        lemma_words_val_bound(m@);
        if digits@.len() > 0 {
            lemma_top_word_weight(digits@);
            if digits@.len() > 8 {
                lemma_wpow_mono(8, (digits@.len() - 1) as nat);
            }
        }
    }
    let mut r: [u32; 8] = [0u32; 8];
    let n = digits.len();
    let mut i: usize = 0;
    while i < n
        invariant
            n == digits@.len(),
            n <= 8,
            i <= n,
            r@.len() == 8,
            forall|j: int| 0 <= j < i ==> r@[j] == digits@[j],
            forall|j: int| n <= j < 8 ==> r@[j] == 0,
        decreases n - i,
    {
        r[i] = digits[i];
        i = i + 1;
    }
    proof {
        lemma_zero_extension(r@, n as int);
        assert(r@.take(n as int) =~= digits@);
    }
    r
}

/// Brings an eight-word number into `[0, p)` with one trial subtraction.
pub fn to_field(x: &[u32; 8]) -> (r: [u32; 8])
    ensures
        words_val(r@) == words_val(x@) % p_val(),
{
    proof {
        lemma_checksum_modulus();
        lemma_words_val_bound(x@);
    }
    let mut t: [u32; 8] = *x;
    let borrow = sub_and_borrow(&mut t, &CHECKSUM_MODULUS);
    if borrow == 0 {
        proof {
            lemma_fundamental_div_mod_converse(words_val(x@) as int, p_val() as int, 1, words_val(t@) as int);
        }
        t
    } else {
        proof {
            lemma_small_mod(words_val(x@), p_val());
        }
        *x
    }
}

/// Entry `i` of the power ladder: one, then each entry the previous one
/// multiplied by `z` modulo `p`.
pub open spec fn ladder_entry(z: nat, i: nat) -> nat
    decreases i,
{
    if i == 0 {
        1
    } else {
        ladder_entry(z, (i - 1) as nat) * z % p_val()
    }
}

/// For a challenge below `p`, ladder entry `i` is `z^i mod p`.
pub proof fn lemma_ladder_entry_is_power(z: nat, i: nat)
    requires
        z < p_val(),
    ensures
        ladder_entry(z, i) == power(z as int, i) % (p_val() as int),
    decreases i,
{
    lemma_checksum_modulus();
    if i == 0 {
        lemma_small_mod(1, p_val());
    } else {
        let q = (i - 1) as nat;
        lemma_ladder_entry_is_power(z, q);
        lemma_mul_mod_noop_left(power(z as int, q), z as int, p_val() as int);
        assert(power(z as int, i) == z * power(z as int, q));
        assert(power(z as int, q) * z == z * power(z as int, q)) by (nonlinear_arith);
    }
}

proof fn lemma_single_word(s: Seq<u32>)
    requires
        s.len() >= 1,
        forall|i: int| 1 <= i < s.len() ==> s[i] == 0,
    ensures
        words_val(s) == s[0],
{
    lemma_zero_extension(s, 1);
    lemma_prefix_step(s, 0);
    assert(s.take(0).len() == 0);
    assert(words_val(s.take(0)) == 0);
    assert(wpow(0) == 1);
    assert(s[0] * wpow(0) == s[0] * 1);
}

/// The successive powers `z^0, z^1, …` of the challenge modulo `p`, one
/// multiplication each from the third entry on.
pub fn power_ladder(z: &[u32; 8], count: usize) -> (r: Vec<[u32; 8]>)
    requires
        words_val(z@) < p_val(),
    ensures
        r@.len() == count,
        forall|i: int|
            0 <= i < count ==> words_val(#[trigger] r@[i]@) == ladder_entry(words_val(z@), i as nat),
{
    let ghost zv = words_val(z@);
    proof {
        lemma_checksum_modulus();
    }
    let mut r: Vec<[u32; 8]> = Vec::new();
    if count == 0 {
        return r;
    }
    let one: [u32; 8] = [1u32, 0, 0, 0, 0, 0, 0, 0];
    proof {
        lemma_single_word(one@);
    }
    r.push(one);
    if count == 1 {
        return r;
    }
    proof {
        lemma_small_mod(zv, p_val());
    }
    r.push(*z);
    assert(ladder_entry(zv, 0) == 1);
    assert(ladder_entry(zv, 1) == ladder_entry(zv, 0) * zv % p_val());
    assert(ladder_entry(zv, 1) == zv);
    let mut i: usize = 2;
    while i < count
        invariant
            2 <= i <= count,
            r@.len() == i,
            zv == words_val(z@),
            p_val() > 0,
            words_val(CHECKSUM_MODULUS@) == p_val(),
            forall|j: int| 0 <= j < i ==> words_val(#[trigger] r@[j]@) == ladder_entry(zv, j as nat),
        decreases count - i,
    {
        let next = mulmod(&r[i - 1], z, &CHECKSUM_MODULUS);
        r.push(next);
        proof {
            assert(words_val(r@[i as int]@) == ladder_entry(zv, i as nat));
        }
        i = i + 1;
    }
    r
}

/// The value of limb `i` of width `width` words: words `width·i` up to
/// `width·i + width`.
pub open spec fn limb_values(words: Seq<u32>, width: nat, count: nat) -> Seq<int> {
    Seq::new(count, |i: int| words_val(words.subrange(width * i, width * i + width)) as int)
}

/// The sum, before reduction, of `limbs[i] · ladder[i] mod p` over the
/// first `n` limbs.
pub open spec fn checksum_sum(limbs: Seq<int>, ladder: Seq<[u32; 8]>, n: nat) -> int
    decreases n,
{
    if n == 0 {
        0
    } else {
        checksum_sum(limbs, ladder, (n - 1) as nat) + (limbs[n - 1] * words_val(ladder[n - 1]@)) % (
        p_val() as int)
    }
}

/// Over a ladder of powers of `z`, the checksum sum is congruent to the
/// value at `z` of the polynomial with the limbs as coefficients.
pub proof fn lemma_checksum_is_eval(limbs: Seq<int>, ladder: Seq<[u32; 8]>, z: int, n: nat)
    requires
        n <= limbs.len(),
        n <= ladder.len(),
        forall|i: int| 0 <= i < n ==> words_val(#[trigger] ladder[i]@) == power(z, i as nat) % (p_val() as int),
    ensures
        checksum_sum(limbs, ladder, n) % (p_val() as int) == eval(limbs.take(n as int), z) % (p_val() as int),
    decreases n,
{
    let p = p_val() as int;
    lemma_checksum_modulus();
    if n == 0 {
        assert(limbs.take(0).len() == 0);
    } else {
        let q = (n - 1) as nat;
        lemma_checksum_is_eval(limbs, ladder, z, q);
        assert(limbs.take(n as int).drop_last() =~= limbs.take(q as int));
        let prev = checksum_sum(limbs, ladder, q);
        let e = eval(limbs.take(q as int), z);
        let l = limbs[q as int];
        let pw = power(z, q);
        lemma_mul_mod_noop_right(l, pw, p);
        lemma_add_mod_noop(prev, (l * (pw % p)) % p, p);
        lemma_add_mod_noop(e, l * pw, p);
        lemma_mod_twice(l * pw, p);
    }
}

/// Evaluates a limb sequence at the challenge: the sum of
/// `limb_i · ladder_i mod p` into a nine-word accumulator, whose extra word
/// takes the overflow of the additions.
pub fn accumulate(words: &Vec<u32>, width: usize, count: usize, ladder: &Vec<[u32; 8]>) -> (r: [u32; 9])
    requires
        1 <= width <= 8,
        words@.len() == width * count,
        count <= ladder@.len(),
        count <= 0xffff_ffff,
    ensures
        words_val(r@) == checksum_sum(limb_values(words@, width as nat, count as nat), ladder@, count as nat),
        words_val(r@) <= count * (p_val() - 1),
{
    let ghost limbs = limb_values(words@, width as nat, count as nat);
    proof {
        lemma_checksum_modulus();
        lemma_words_zero(seq![0u32, 0, 0, 0, 0, 0, 0, 0, 0]);
    }
    let n = words.len();
    let mut acc: [u32; 9] = [0u32; 9];
    assert(acc@ =~= seq![0u32, 0, 0, 0, 0, 0, 0, 0, 0]);
    let mut i: usize = 0;
    while i < count
        invariant
            i <= count <= 0xffff_ffff,
            count <= ladder@.len(),
            1 <= width <= 8,
            words@.len() == width * count,
            n == words@.len(),
            limbs == limb_values(words@, width as nat, count as nat),
            acc@.len() == 9,
            p_val() > 0,
            wpow(8) == p_val() + 189,
            words_val(CHECKSUM_MODULUS@) == p_val(),
            words_val(acc@) == checksum_sum(limbs, ladder@, i as nat),
            words_val(acc@) <= i * (p_val() - 1),
        decreases count - i,
    {
        proof {
            assert(width * i + width <= width * count) by (nonlinear_arith)
                requires
                    i < count,
            ;
        }
        let base = width * i;
        let mut limb: [u32; 8] = [0u32; 8];
        let mut j: usize = 0;
        while j < width
            invariant
                j <= width <= 8,
                base + width <= words@.len(),
                n == words@.len(),
                limb@.len() == 8,
                forall|t: int| 0 <= t < j ==> limb@[t] == words@[base + t],
                forall|t: int| j <= t < 8 ==> limb@[t] == 0,
            decreases width - j,
        {
            limb[j] = words[base + j];
            j = j + 1;
        }
        proof {
            lemma_zero_extension(limb@, width as int);
            assert(limb@.take(width as int) =~= words@.subrange(base as int, base + width));
            assert(limbs[i as int] == words_val(limb@));
        }
        let res = mulmod(&limb, &ladder[i], &CHECKSUM_MODULUS);
        proof {
            let t = (words_val(limb@) * words_val(ladder@[i as int]@)) as int;
            lemma_mod_bound(t, p_val() as int);
            assert((i + 1) * (p_val() - 1) == i * (p_val() - 1) + (p_val() - 1)) by (nonlinear_arith);
            assert((i + 1) * (p_val() - 1) < 0x1_0000_0000 * wpow(8)) by (nonlinear_arith)
                requires
                    i + 1 <= 0xffff_ffff,
                    p_val() - 1 < wpow(8),
            ;
            assert(wpow(9) == 0x1_0000_0000 * wpow(8));
            lemma_small_mod((words_val(acc@) + words_val(res@)) as nat, wpow(9));
        }
        add_small::<9, 8>(&mut acc, &res);
        i = i + 1;
    }
    acc
}

/// Folds an accumulator's ninth word back into the low eight (as
/// `2^256 ≡ 189 mod p`) until it is zero, then brings the result into
/// `[0, p)`.
pub fn reduce_checksum(acc: &[u32; 9]) -> (r: [u32; 8])
    ensures
        words_val(r@) == words_val(acc@) % p_val(),
{
    proof {
        lemma_checksum_modulus();
    }
    let factor: [u32; 8] = [FOLD_FACTOR, 0, 0, 0, 0, 0, 0, 0];
    proof {
        lemma_single_word(factor@);
    }
    let mut a: [u32; 9] = *acc;
    while a[8] != 0
        invariant
            a@.len() == 9,
            words_val(factor@) == 189,
            words_val(CHECKSUM_MODULUS@) == p_val(),
            p_val() > 0x1_0000_0000_0000,
            wpow(8) == p_val() + 189,
            words_val(a@) % p_val() == words_val(acc@) % p_val(),
        decreases words_val(a@),
    {
        let w = a[8];
        let reducer: [u32; 8] = [w, 0, 0, 0, 0, 0, 0, 0];
        let ghost before = a@;
        a[8] = 0;
        let res = mulmod(&reducer, &factor, &CHECKSUM_MODULUS);
        proof {
            lemma_single_word(reducer@);
            let low = words_val(before.take(8));
            lemma_words_split(before, 8);
            lemma_single_word(before.skip(8));
            lemma_words_split(a@, 8);
            lemma_single_word(a@.skip(8));
            assert(a@.take(8) =~= before.take(8));
            lemma_small_mod((w * 189) as nat, p_val());
            assert(words_val(res@) == w * 189);
            assert(words_val(before) == low + wpow(8) * w);
            assert(words_val(a@.skip(8)) == 0);
            assert(wpow(8) * 0 == 0);
            assert(words_val(a@) == low);
            assert(wpow(8) * w == p_val() * w + 189 * w) by (nonlinear_arith)
                requires
                    wpow(8) == p_val() + 189,
            ;
            assert(p_val() * w >= p_val()) by (nonlinear_arith)
                requires
                    w >= 1,
            ;
            lemma_words_val_bound(before);
            assert(wpow(9) == 0x1_0000_0000 * wpow(8));
            lemma_small_mod((words_val(a@) + words_val(res@)) as nat, wpow(9));
            lemma_mod_multiples_vanish(w as int, low + 189 * w, p_val() as int);
        }
        add_small::<9, 8>(&mut a, &res);
    }
    let low: [u32; 8] = [a[0], a[1], a[2], a[3], a[4], a[5], a[6], a[7]];
    proof {
        lemma_zero_extension(a@, 8);
        assert(low@ =~= a@.take(8));
    }
    to_field(&low)
}

} // verus!
