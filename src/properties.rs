//! What holds of the whole verification on honest witnesses.
use crate::field::{limb_values, p_val};
use crate::modmul::{
    checksum_at, identities_hold, lemma_modulus_facts, long_form_bytes_value, long_form_slots,
    modulus_limbs, modulus_value, operand_limbs, operand_value, outcome, well_formed, Task, N_LIMBS,
};
use crate::poly::{eval, lemma_conv_zero, lemma_eval_schoolbook, schoolbook};
use crate::reconcile::{final_value, lemma_power_of_wpow, VerifyError};
use crate::words::{le_words, lemma_words_split, lemma_words_zero, lemma_wpow_pos, words_val, wpow};
use vstd::arithmetic::div_mod::{lemma_fundamental_div_mod, lemma_mul_mod_noop};
use vstd::prelude::*;

verus! {

/// Grouping words into limbs of `width` words each keeps the number: it is
/// the limb polynomial evaluated at `2^(32·width)`.
pub proof fn lemma_limbs_value(w: Seq<u32>, width: nat, count: nat)
    requires
        w.len() == width * count,
    ensures
        words_val(w) == eval(limb_values(w, width, count), wpow(width) as int),
    decreases count,
{
    let limbs = limb_values(w, width, count);
    if count == 0 {
        assert(w.len() == 0) by (nonlinear_arith)
            requires
                w.len() == width * count,
                count == 0,
        ;
        assert(limbs.len() == 0);
    } else {
        let q = (count - 1) as nat;
        let m = width * q;
        assert(m + width == width * count && m <= w.len()) by (nonlinear_arith)
            requires
                m == width * q,
                q == count - 1,
                w.len() == width * count,
        ;
        let init = w.take(m as int);
        lemma_limbs_value(init, width, q);
        assert forall|i: int| 0 <= i < q implies #[trigger] limb_values(init, width, q)[i] == limbs[i] by {
            assert(width * i + width <= m) by (nonlinear_arith)
                requires
                    0 <= i < q,
                    m == width * q,
            ;
            assert(init.subrange(width * i, width * i + width) =~= w.subrange(width * i, width * i + width));
        }
        assert(limb_values(init, width, q) =~= limbs.drop_last());
        lemma_words_split(w, m as int);
        assert(w.skip(m as int) =~= w.subrange((width * q) as int, (width * q + width) as int));
        lemma_power_of_wpow(width, q);
        assert(words_val(w) == words_val(init) + wpow(m) * limbs.last());
    }
}

proof fn lemma_operand_value(bytes: Seq<u8>)
    requires
        bytes.len() == 264,
    ensures
        operand_value(bytes) == eval(operand_limbs(bytes), wpow(3) as int),
{
    lemma_limbs_value(le_words(bytes), 3, 22);
}

proof fn lemma_identity_at(a: Seq<int>, b: Seq<int>, c: Seq<int>, z: nat)
    requires
        c == schoolbook(a, b),
    ensures
        (checksum_at(a, z) * checksum_at(b, z)) % (p_val() as int) == checksum_at(c, z),
{
    crate::field::lemma_checksum_modulus();
    lemma_eval_schoolbook(a, b, z as int);
    lemma_mul_mod_noop(eval(a, z as int), eval(b, z as int), p_val() as int);
}

/// Correctness: for operands `A`, `B` and the quotient `K = ⌊A·B / N⌋`, with
/// `C` and `KN` the schoolbook long forms of `A·B` and `K·N`, verification
/// accepts at every challenge and returns `A·B mod N`, as long as `A·B`
/// fits the canonical width.
pub proof fn lemma_honest_witness_accepted(task: Task, z: nat)
    requires
        well_formed(task),
        long_form_slots(task.long_form_c@) == schoolbook(operand_limbs(task.a@), operand_limbs(task.b@)),
        long_form_slots(task.long_form_kn@) == schoolbook(operand_limbs(task.k@), modulus_limbs()),
        operand_value(task.k@) == operand_value(task.a@) * operand_value(task.b@) / modulus_value(),
        operand_value(task.a@) * operand_value(task.b@) < wpow(129),
    ensures
        outcome(task, z) == Ok::<int, VerifyError>(
            (operand_value(task.a@) * operand_value(task.b@) % modulus_value()) as int,
        ),
{
    let x = wpow(3) as int;
    let a = operand_value(task.a@);
    let b = operand_value(task.b@);
    let k = operand_value(task.k@);
    let n = modulus_value();
    let ab = (a * b) as int;
    lemma_modulus_facts();
    lemma_operand_value(task.a@);
    lemma_operand_value(task.b@);
    lemma_operand_value(task.k@);
    lemma_limbs_value(N_LIMBS@, 3, 22);
    // the long forms carry to A·B and K·N
    lemma_eval_schoolbook(operand_limbs(task.a@), operand_limbs(task.b@), x);
    lemma_eval_schoolbook(operand_limbs(task.k@), modulus_limbs(), x);
    assert(long_form_bytes_value(task.long_form_c@) == ab);
    assert(long_form_bytes_value(task.long_form_kn@) == k * n);
    // both identities hold at any point
    let zr = z % p_val();
    lemma_identity_at(operand_limbs(task.a@), operand_limbs(task.b@), long_form_slots(task.long_form_c@), zr);
    lemma_identity_at(operand_limbs(task.k@), modulus_limbs(), long_form_slots(task.long_form_kn@), zr);
    assert(identities_hold(task, zr));
    // A·B − K·N is the remainder, below N
    lemma_fundamental_div_mod(ab as int, n as int);
    assert(k * n == n * k) by (nonlinear_arith);
    let d = ab - k * n;
    assert(d == ab % (n as int));
    assert(0 <= d < n);
    assert(final_value(d, n as int) == d);
}

/// A remainder of zero: when `N` divides `A·B`, an honest witness is accepted
/// with output zero.
pub proof fn lemma_divisible_product_gives_zero(task: Task, z: nat)
    requires
        well_formed(task),
        long_form_slots(task.long_form_c@) == schoolbook(operand_limbs(task.a@), operand_limbs(task.b@)),
        long_form_slots(task.long_form_kn@) == schoolbook(operand_limbs(task.k@), modulus_limbs()),
        operand_value(task.k@) == operand_value(task.a@) * operand_value(task.b@) / modulus_value(),
        operand_value(task.a@) * operand_value(task.b@) < wpow(129),
        (operand_value(task.a@) * operand_value(task.b@)) % modulus_value() == 0,
    ensures
        outcome(task, z) == Ok::<int, VerifyError>(0),
{
    lemma_honest_witness_accepted(task, z);
}

proof fn lemma_zero_limbs(bytes: Seq<u8>)
    requires
        bytes.len() == 264,
        operand_value(bytes) == 0,
    ensures
        forall|i: int| 0 <= i < 22 ==> #[trigger] operand_limbs(bytes)[i] == 0,
{
    let w = le_words(bytes);
    lemma_words_zero(w);
    assert forall|i: int| 0 <= i < 22 implies #[trigger] operand_limbs(bytes)[i] == 0 by {
        lemma_words_zero(w.subrange(3 * i, 3 * i + 3));
    }
}

/// A zero operand: if `A = 0` or `B = 0`, an honest witness has `K = 0` and
/// all-zero long forms `C` and `KN`, and it is accepted with remainder zero.
pub proof fn lemma_zero_operand_accepted(task: Task, z: nat)
    requires
        well_formed(task),
        operand_value(task.a@) == 0 || operand_value(task.b@) == 0,
        long_form_slots(task.long_form_c@) == schoolbook(operand_limbs(task.a@), operand_limbs(task.b@)),
        long_form_slots(task.long_form_kn@) == schoolbook(operand_limbs(task.k@), modulus_limbs()),
        operand_value(task.k@) == operand_value(task.a@) * operand_value(task.b@) / modulus_value(),
    ensures
        operand_value(task.k@) == 0,
        forall|i: int| 0 <= i < 43 ==> #[trigger] long_form_slots(task.long_form_c@)[i] == 0,
        forall|i: int| 0 <= i < 43 ==> #[trigger] long_form_slots(task.long_form_kn@)[i] == 0,
        outcome(task, z) == Ok::<int, VerifyError>(0),
{
    let a = operand_value(task.a@);
    let b = operand_value(task.b@);
    lemma_modulus_facts();
    assert(a * b == 0) by (nonlinear_arith)
        requires
            a == 0 || b == 0,
    ;
    lemma_wpow_pos(129);
    assert(operand_value(task.k@) == 0);
    lemma_honest_witness_accepted(task, z);
    if a == 0 {
        lemma_zero_limbs(task.a@);
    } else {
        lemma_zero_limbs(task.b@);
    }
    lemma_zero_limbs(task.k@);
    assert forall|i: int| 0 <= i < 43 implies #[trigger] long_form_slots(task.long_form_c@)[i] == 0 by {
        lemma_conv_zero(operand_limbs(task.a@), operand_limbs(task.b@), i);
    }
    assert forall|i: int| 0 <= i < 43 implies #[trigger] long_form_slots(task.long_form_kn@)[i] == 0 by {
        lemma_conv_zero(operand_limbs(task.k@), modulus_limbs(), i);
    }
}

} // verus!
