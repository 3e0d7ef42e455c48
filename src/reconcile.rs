//! Exact integer steps: carry propagation of a long-form product into a
//! canonical integer, the checked subtraction `C − KN`, and the final
//! conditional reduction by the real modulus.
use crate::field::limb_values;
use crate::poly::{eval, power};
use crate::words::{
    add_small, lemma_words_split, lemma_words_val_bound, lemma_words_zero,
    lemma_wpow_add, lemma_wpow_pos, lemma_zero_extension, sub_and_borrow, words_val, wpow,
};
use vstd::prelude::*;

verus! {

/// Words in one slot of a long-form product (224 bits).
pub const SLOT_WORDS: usize = 7;

/// Slots in a long-form product.
pub const SLOTS: usize = 43;

/// Words of canonical output that each slot settles (96 bits).
pub const LIMB_WORDS: usize = 3;

/// Words of a canonical integer: three for each slot.
pub const CANONICAL_WORDS: usize = 129;

/// Words of a remainder, and of the real modulus.
pub const RESULT_WORDS: usize = 64;

/// Why a witness is rejected.
#[derive(Clone, Copy, Debug, PartialEq, Eq, Structural)]
pub enum VerifyError {
    /// An input byte array has the wrong length.
    MalformedWitness,
    /// A polynomial identity at the challenge point does not hold.
    ChecksumMismatch,
    /// Carry propagation left a carry beyond the canonical width.
    CanonicalizationOverflow,
    /// `C − KN` is negative or does not fit the result width.
    MagnitudeInconsistency,
}

/// The slots of a long-form product held as `SLOTS · SLOT_WORDS` words.
pub open spec fn slot_values(words: Seq<u32>) -> Seq<int> {
    limb_values(words, SLOT_WORDS as nat, SLOTS as nat)
}

/// The integer a long-form product stands for: slot `i` weighs `2^(96·i)`.
pub open spec fn long_form_value(words: Seq<u32>) -> int {
    eval(slot_values(words), wpow(LIMB_WORDS as nat) as int)
}

/// The result of the final conditional reduction of `d` by `n`.
pub open spec fn final_value(d: int, n: int) -> int {
    if d >= n {
        d - n
    } else {
        d
    }
}

/// `(2^(32·w))^i == 2^(32·w·i)`.
pub proof fn lemma_power_of_wpow(w: nat, i: nat)
    ensures
        power(wpow(w) as int, i) == wpow(w * i),
    decreases i,
{
    if i == 0 {
        assert(w * 0 == 0);
    } else {
        let q = (i - 1) as nat;
        lemma_power_of_wpow(w, q);
        lemma_wpow_add(w, w * q);
        assert(w + w * q == w * i) by (nonlinear_arith)
            requires
                q == i - 1,
        ;
    }
}

/// Propagates carries through a long-form product, slot by slot, into a
/// canonical integer of `CANONICAL_WORDS` words; rejects it if a carry is
/// left over above them.
pub fn canonicalize(long_form: &Vec<u32>) -> (r: Result<[u32; 129], VerifyError>)
    requires
        long_form@.len() == SLOTS * SLOT_WORDS,
    ensures
        match r {
            Ok(c) => long_form_value(long_form@) < wpow(CANONICAL_WORDS as nat) && words_val(c@)
                == long_form_value(long_form@),
            Err(e) => e == VerifyError::CanonicalizationOverflow && long_form_value(long_form@)
                >= wpow(CANONICAL_WORDS as nat),
        },
{
    let ghost slots = slot_values(long_form@);
    let ghost x = wpow(3) as int;
    let mut out: [u32; 129] = [0u32; 129];
    let mut carry: [u32; 5] = [0u32; 5];
    proof {
        lemma_words_zero(carry@);
        assert(slots.take(0).len() == 0);
        assert(out@.take(0).len() == 0);
    }
    let mut i: usize = 0;
    while i < SLOTS
        invariant
            i <= SLOTS,
            long_form@.len() == SLOTS * SLOT_WORDS,
            slots == slot_values(long_form@),
            x == wpow(3),
            out@.len() == 129,
            carry@.len() == 5,
            words_val(out@.take(3 * i)) + words_val(carry@) * wpow(3 * i as nat) == eval(
                slots.take(i as int),
                x,
            ),
        decreases SLOTS - i,
    {
        let b = i * 7;
        let mut cur: [u32; 8] = [
            long_form[b],
            long_form[b + 1],
            long_form[b + 2],
            long_form[b + 3],
            long_form[b + 4],
            long_form[b + 5],
            long_form[b + 6],
            0,
        ];
        let ghost cur0 = cur@;
        proof {
            lemma_zero_extension(cur@, 7);
            assert(cur@.take(7) =~= long_form@.subrange(7 * i, 7 * i + 7));
            assert(slots[i as int] == words_val(cur@));
            lemma_words_val_bound(cur@.take(7));
            lemma_words_val_bound(carry@);
            assert(wpow(8) == 0x1_0000_0000 * wpow(7));
            lemma_wpow_add(5, 2);
            lemma_wpow_pos(2);
            assert(wpow(5) * 1 <= wpow(5) * wpow(2)) by (nonlinear_arith)
                requires
                    wpow(2) >= 1,
            ;
            vstd::arithmetic::div_mod::lemma_small_mod(
                (words_val(cur@) + words_val(carry@)) as nat,
                wpow(8),
            );
        }
        let ghost old_carry = words_val(carry@);
        if i != 0 {
            add_small::<8, 5>(&mut cur, &carry);
        } else {
            proof {
                assert(slots.take(0).len() == 0);
                assert(eval(slots.take(0), x) == 0);
                assert(out@.take(0).len() == 0);
                assert(words_val(out@.take(0)) == 0);
                assert(wpow(0) == 1);
                assert(words_val(carry@) * wpow(0) == words_val(carry@) * 1);
            }
        }
        assert(words_val(cur@) == slots[i as int] + old_carry);
        let ghost old_out = out@;
        carry = [cur[3], cur[4], cur[5], cur[6], cur[7]];
        out[i * 3] = cur[0];
        out[i * 3 + 1] = cur[1];
        out[i * 3 + 2] = cur[2];
        proof {
            let k = 3 * i as int;
            // the low three words of `cur` land at `k`, the rest is the new carry
            lemma_words_split(cur@, 3);
            assert(carry@ =~= cur@.skip(3));
            let t = out@.take(k + 3);
            lemma_words_split(t, k);
            assert(t.take(k) =~= old_out.take(k));
            assert(t.skip(k) =~= cur@.take(3));
            lemma_wpow_add(k as nat, 3);
            // the slot enters the evaluation at weight x^i
            assert(slots.take(i + 1).drop_last() =~= slots.take(i as int));
            lemma_power_of_wpow(3, i as nat);
            let lo = words_val(cur@.take(3));
            let hi = words_val(carry@);
            let wk = wpow(k as nat);
            let ov = words_val(old_out.take(k));
            let s = slots[i as int];
            assert(lo + wpow(3) * hi == s + old_carry);
            assert(ov + wk * lo + hi * (wk * wpow(3)) == ov + old_carry * wk + s * wk) by (nonlinear_arith)
                requires
                    lo + wpow(3) * hi == s + old_carry,
            ;
            assert(wpow((k + 3) as nat) == wk * wpow(3));
            assert(3 * (i + 1) == k + 3);
            assert(words_val(t) == ov + wk * lo);
            assert(power(x, i as nat) == wk);
            assert(eval(slots.take(i + 1), x) == eval(slots.take(i as int), x) + s * power(x, i as nat));
            assert(eval(slots.take(i as int), x) == ov + old_carry * wk);
            assert(out@.take(3 * (i + 1)) == t);
            assert(words_val(carry@) * wpow(3 * (i + 1) as nat) == hi * (wk * wpow(3)));
        }
        i = i + 1;
    }
    proof {
        assert(out@.take(129) =~= out@);
        assert(slots.take(43) =~= slots);
        lemma_words_val_bound(out@);
        lemma_words_zero(carry@);
    }
    if carry[0] == 0 && carry[1] == 0 && carry[2] == 0 && carry[3] == 0 && carry[4] == 0 {
        proof {
            assert(words_val(carry@) * wpow(129) == 0 * wpow(129));
        }
        Ok(out)
    } else {
        proof {
            let cv = words_val(carry@);
            assert(cv * wpow(129) >= wpow(129)) by (nonlinear_arith)
                requires
                    cv >= 1,
            ;
        }
        Err(VerifyError::CanonicalizationOverflow)
    }
}

/// Computes `D = C − KN` with a rippling borrow and keeps its low
/// `RESULT_WORDS` words; rejects when `C < KN` or when a word of `D` above
/// them is nonzero.
pub fn subtract_checked(c: &[u32; 129], kn: &[u32; 129]) -> (r: Result<[u32; 64], VerifyError>)
    ensures
        match r {
            Ok(d) => words_val(c@) >= words_val(kn@) && words_val(c@) - words_val(kn@) < wpow(
                RESULT_WORDS as nat,
            ) && words_val(d@) == words_val(c@) - words_val(kn@),
            Err(e) => e == VerifyError::MagnitudeInconsistency && (words_val(c@) < words_val(kn@)
                || words_val(c@) - words_val(kn@) >= wpow(RESULT_WORDS as nat)),
        },
{
    let mut d: [u32; 129] = *c;
    let borrow = sub_and_borrow(&mut d, kn);
    let mut ok = borrow == 0;
    let mut i: usize = RESULT_WORDS;
    while i < CANONICAL_WORDS
        invariant
            RESULT_WORDS <= i <= CANONICAL_WORDS,
            d@.len() == 129,
            ok == (borrow == 0 && forall|j: int| RESULT_WORDS <= j < i ==> d@[j] == 0),
        decreases CANONICAL_WORDS - i,
    {
        ok = ok && d[i] == 0;
        i = i + 1;
    }
    proof {
        lemma_words_split(d@, 64);
        lemma_words_val_bound(d@.take(64));
        lemma_words_zero(d@.skip(64));
        let hi = words_val(d@.skip(64));
        if borrow == 0 {
            if ok {
                assert forall|j: int| 0 <= j < d@.skip(64).len() implies d@.skip(64)[j] == 0 by {
                    assert(d@.skip(64)[j] == d@[64 + j]);
                }
                assert(wpow(64) * hi == wpow(64) * 0);
            } else {
                let j = choose|j: int| RESULT_WORDS <= j < CANONICAL_WORDS && d@[j] != 0;
                assert(d@.skip(64)[j - 64] != 0);
                assert(hi != 0);
                assert(wpow(64) * hi >= wpow(64)) by (nonlinear_arith)
                    requires
                        hi >= 1,
                ;
            }
        }
    }
    if !ok {
        return Err(VerifyError::MagnitudeInconsistency);
    }
    let mut low: [u32; 64] = [0u32; 64];
    let mut j: usize = 0;
    while j < RESULT_WORDS
        invariant
            j <= RESULT_WORDS,
            low@.len() == 64,
            d@.len() == 129,
            forall|t: int| 0 <= t < j ==> low@[t] == d@[t],
        decreases RESULT_WORDS - j,
    {
        low[j] = d[j];
        j = j + 1;
    }
    proof {
        assert(low@ =~= d@.take(64));
    }
    Ok(low)
}

/// Subtracts `n` from `d` once if `d ≥ n`: a trial subtraction whose
/// borrow decides which value is kept.
pub fn final_reduce(d: &[u32; 64], n: &[u32; 64]) -> (r: [u32; 64])
    ensures
        words_val(r@) == final_value(words_val(d@) as int, words_val(n@) as int),
{
    let mut u: [u32; 64] = *d;
    let borrow = sub_and_borrow(&mut u, n);
    if borrow == 0 {
        u
    } else {
        *d
    }
}

/// Final reduction keeps a value that is already below the modulus, and
/// brings one in `[n, 2n)` into `[0, n)` with its single subtraction.
pub proof fn lemma_final_reduction_range(d: int, n: int)
    requires
        0 <= d < 2 * n,
    ensures
        0 <= final_value(d, n) < n,
        d < n ==> final_value(d, n) == d,
        d >= n ==> final_value(d, n) == d - n,
{
}

} // verus!
