//! Polynomials over the integers, given by their coefficient sequences,
//! and the schoolbook product of two of them.
use vstd::prelude::*;

verus! {

/// `x^e`.
pub open spec fn power(x: int, e: nat) -> int
    decreases e,
{
    if e == 0 {
        1
    } else {
        x * power(x, (e - 1) as nat)
    }
}

/// The value at `x` of the polynomial whose `i`-th coefficient is `s[i]`:
/// the sum of `s[i] · x^i`.
pub open spec fn eval(s: Seq<int>, x: int) -> int
    decreases s.len(),
{
    if s.len() == 0 {
        0
    } else {
        eval(s.drop_last(), x) + s.last() * power(x, (s.len() - 1) as nat)
    }
}

/// Coefficient `k` of `b`, zero outside its range.
pub open spec fn coef(b: Seq<int>, k: int) -> int {
    if 0 <= k < b.len() {
        b[k]
    } else {
        0
    }
}

/// Coefficient `k` of the product `a · b`: the sum over `i` of `a[i] · b[k − i]`.
pub open spec fn conv(a: Seq<int>, b: Seq<int>, k: int) -> int
    decreases a.len(),
{
    if a.len() == 0 {
        0
    } else {
        a[0] * coef(b, k) + conv(a.skip(1), b, k - 1)
    }
}

/// Number of coefficients of the schoolbook product of `a` and `b`.
pub open spec fn product_len(a: Seq<int>, b: Seq<int>) -> nat {
    if a.len() == 0 || b.len() == 0 {
        0
    } else {
        (a.len() + b.len() - 1) as nat
    }
}

/// The schoolbook product of `a` and `b`, before any carry: coefficient `k`
/// is the sum of `a[i] · b[j]` over all `i + j == k`.
pub open spec fn schoolbook(a: Seq<int>, b: Seq<int>) -> Seq<int> {
    Seq::new(product_len(a, b), |k: int| conv(a, b, k))
}

spec fn horner(s: Seq<int>, x: int) -> int
    decreases s.len(),
{
    if s.len() == 0 {
        0
    } else {
        s[0] + x * horner(s.skip(1), x)
    }
}

spec fn conv_eval(a: Seq<int>, b: Seq<int>, k: int, n: nat, x: int) -> int
    decreases n,
{
    if n == 0 {
        0
    } else {
        conv(a, b, k) + x * conv_eval(a, b, k + 1, (n - 1) as nat, x)
    }
}

spec fn coef_eval(b: Seq<int>, k: int, n: nat, x: int) -> int
    decreases n,
{
    if n == 0 {
        0
    } else {
        coef(b, k) + x * coef_eval(b, k + 1, (n - 1) as nat, x)
    }
}

proof fn lemma_eval_horner(s: Seq<int>, x: int)
    ensures
        eval(s, x) == horner(s, x),
    decreases s.len(),
{
    if s.len() > 0 {
        let n = s.len();
        if n == 1 {
            assert(s.drop_last().len() == 0);
            assert(s.skip(1).len() == 0);
            assert(eval(s.drop_last(), x) == 0);
            assert(s.last() == s[0]);
            assert(power(x, 0) == 1);
            assert(eval(s, x) == eval(s.drop_last(), x) + s.last() * power(x, 0));
            assert(horner(s, x) == s[0] + x * horner(s.skip(1), x));
            assert(horner(s.skip(1), x) == 0);
            assert(x * 0 == 0);
            assert(eval(s, x) == horner(s, x));
        } else {
            let init = s.drop_last();
            let tail = s.skip(1);
            lemma_eval_horner(init, x);
            lemma_eval_horner(tail, x);
            lemma_eval_horner(tail.drop_last(), x);
            assert(init.skip(1) =~= tail.drop_last());
            assert(init[0] == s[0]);
            assert(tail.last() == s.last());
            let l = s.last();
            let e = power(x, (n - 2) as nat);
            let h = horner(tail.drop_last(), x);
            assert(power(x, (n - 1) as nat) == x * e);
            assert(x * (h + l * e) == x * h + l * (x * e)) by (nonlinear_arith);
            assert(eval(tail, x) == h + l * e);
            assert(horner(init, x) == s[0] + x * h);
            assert(eval(s, x) == eval(init, x) + l * power(x, (n - 1) as nat));
            assert(horner(s, x) == s[0] + x * horner(tail, x));
            assert(horner(tail, x) == h + l * e);
            assert(eval(s, x) == horner(s, x));
        }
    }
}

proof fn lemma_conv_eval_empty(a: Seq<int>, b: Seq<int>, k: int, n: nat, x: int)
    requires
        a.len() == 0,
    ensures
        conv_eval(a, b, k, n, x) == 0,
    decreases n,
{
    if n > 0 {
        lemma_conv_eval_empty(a, b, k + 1, (n - 1) as nat, x);
    }
}

proof fn lemma_conv_eval_split(a: Seq<int>, b: Seq<int>, k: int, n: nat, x: int)
    requires
        a.len() > 0,
    ensures
        conv_eval(a, b, k, n, x) == a[0] * coef_eval(b, k, n, x) + conv_eval(a.skip(1), b, k - 1, n, x),
    decreases n,
{
    if n > 0 {
        let m = (n - 1) as nat;
        lemma_conv_eval_split(a, b, k + 1, m, x);
        let c1 = coef_eval(b, k + 1, m, x);
        let c2 = conv_eval(a.skip(1), b, k, m, x);
        let a0 = a[0];
        assert(x * (a0 * c1 + c2) == a0 * (x * c1) + x * c2) by (nonlinear_arith);
        assert(a0 * (coef(b, k) + x * c1) == a0 * coef(b, k) + a0 * (x * c1)) by (nonlinear_arith);
    }
}

proof fn lemma_coef_eval_shift(b: Seq<int>, k: int, n: nat, x: int)
    requires
        b.len() > 0,
        k >= 0,
    ensures
        coef_eval(b, k + 1, n, x) == coef_eval(b.skip(1), k, n, x),
    decreases n,
{
    if n > 0 {
        lemma_coef_eval_shift(b, k + 1, (n - 1) as nat, x);
        assert(coef(b, k + 1) == coef(b.skip(1), k));
    }
}

proof fn lemma_coef_eval_empty(b: Seq<int>, k: int, n: nat, x: int)
    requires
        b.len() == 0,
    ensures
        coef_eval(b, k, n, x) == 0,
    decreases n,
{
    if n > 0 {
        lemma_coef_eval_empty(b, k + 1, (n - 1) as nat, x);
    }
}

proof fn lemma_coef_eval_whole(b: Seq<int>, n: nat, x: int)
    requires
        n >= b.len(),
    ensures
        coef_eval(b, 0, n, x) == horner(b, x),
    decreases b.len(),
{
    if b.len() == 0 {
        lemma_coef_eval_empty(b, 0, n, x);
    } else {
        lemma_coef_eval_shift(b, 0, (n - 1) as nat, x);
        lemma_coef_eval_whole(b.skip(1), (n - 1) as nat, x);
    }
}

proof fn lemma_coef_eval_offset(b: Seq<int>, m: nat, n: nat, x: int)
    requires
        n >= m + b.len(),
    ensures
        coef_eval(b, -m, n, x) == power(x, m) * horner(b, x),
    decreases m,
{
    if m == 0 {
        lemma_coef_eval_whole(b, n, x);
    } else {
        let m1 = (m - 1) as nat;
        lemma_coef_eval_offset(b, m1, (n - 1) as nat, x);
        assert(-m + 1 == -m1);
        let p = power(x, m1);
        let h = horner(b, x);
        assert(x * (p * h) == (x * p) * h) by (nonlinear_arith);
    }
}

proof fn lemma_conv_eval_offset(a: Seq<int>, b: Seq<int>, m: nat, n: nat, x: int)
    requires
        a.len() == 0 || n + 1 >= m + a.len() + b.len(),
    ensures
        conv_eval(a, b, -m, n, x) == power(x, m) * horner(a, x) * horner(b, x),
    decreases a.len(),
{
    let p = power(x, m);
    let hb = horner(b, x);
    if a.len() == 0 {
        lemma_conv_eval_empty(a, b, -m, n, x);
        assert(p * 0 * hb == 0) by (nonlinear_arith);
    } else {
        let a1 = a.skip(1);
        lemma_conv_eval_split(a, b, -m, n, x);
        lemma_coef_eval_offset(b, m, n, x);
        lemma_conv_eval_offset(a1, b, m + 1, n, x);
        assert(-m - 1 == -(m + 1));
        let ha1 = horner(a1, x);
        let a0 = a[0];
        assert(power(x, m + 1) == x * p);
        assert(a0 * (p * hb) + (x * p) * ha1 * hb == p * (a0 + x * ha1) * hb) by (nonlinear_arith);
    }
}

proof fn lemma_schoolbook_tail(a: Seq<int>, b: Seq<int>, k: int, x: int)
    requires
        0 <= k <= product_len(a, b),
    ensures
        horner(schoolbook(a, b).skip(k), x) == conv_eval(a, b, k, (product_len(a, b) - k) as nat, x),
    decreases product_len(a, b) - k,
{
    let s = schoolbook(a, b);
    if k < product_len(a, b) {
        lemma_schoolbook_tail(a, b, k + 1, x);
        assert(s.skip(k).skip(1) =~= s.skip(k + 1));
    } else {
        assert(s.skip(k).len() == 0);
    }
}

/// A product with an all-zero factor has all-zero coefficients.
pub proof fn lemma_conv_zero(a: Seq<int>, b: Seq<int>, k: int)
    requires
        (forall|i: int| 0 <= i < a.len() ==> a[i] == 0) || (forall|i: int| 0 <= i < b.len() ==> b[i] == 0),
    ensures
        conv(a, b, k) == 0,
    decreases a.len(),
{
    if a.len() > 0 {
        lemma_conv_zero(a.skip(1), b, k - 1);
        if forall|i: int| 0 <= i < a.len() ==> a[i] == 0 {
            assert(a[0] == 0);
        } else {
            assert(coef(b, k) == 0);
        }
        assert(a[0] * coef(b, k) == 0);
    }
}

/// The schoolbook product evaluates to the product of the evaluations.
pub proof fn lemma_eval_schoolbook(a: Seq<int>, b: Seq<int>, x: int)
    ensures
        eval(schoolbook(a, b), x) == eval(a, x) * eval(b, x),
{
    lemma_eval_horner(schoolbook(a, b), x);
    lemma_eval_horner(a, x);
    lemma_eval_horner(b, x);
    lemma_schoolbook_tail(a, b, 0, x);
    assert(schoolbook(a, b).skip(0) =~= schoolbook(a, b));
    if b.len() == 0 {
        assert(horner(b, x) == 0);
        assert(product_len(a, b) == 0);
        let ha = horner(a, x);
        assert(ha * 0 == 0);
    } else {
        lemma_conv_eval_offset(a, b, 0, product_len(a, b), x);
    }
    assert(power(x, 0) == 1);
}

} // verus!
