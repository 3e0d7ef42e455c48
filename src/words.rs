//! Little-endian multi-word integers over 32-bit words, and the carry and
//! borrow primitives that work on them.
use vstd::arithmetic::div_mod::lemma_fundamental_div_mod_converse;
use vstd::prelude::*;

verus! {

/// `2^(32·k)`: the weight of word `k` in a little-endian word sequence.
pub open spec fn wpow(k: nat) -> nat
    decreases k,
{
    if k == 0 {
        1
    } else {
        0x1_0000_0000 * wpow((k - 1) as nat)
    }
}

/// The number that a little-endian sequence of 32-bit words denotes.
pub open spec fn words_val(s: Seq<u32>) -> nat
    decreases s.len(),
{
    if s.len() == 0 {
        0
    } else {
        (words_val(s.drop_last()) + s.last() * wpow((s.len() - 1) as nat)) as nat
    }
}

pub proof fn lemma_wpow_pos(k: nat)
    ensures
        wpow(k) >= 1,
    decreases k,
{
    if k > 0 {
        lemma_wpow_pos((k - 1) as nat);
    }
}

/// `wpow(a + b) == wpow(a) · wpow(b)`.
pub proof fn lemma_wpow_add(a: nat, b: nat)
    ensures
        wpow(a + b) == wpow(a) * wpow(b),
    decreases a,
{
    if a > 0 {
        let q = (a - 1) as nat;
        lemma_wpow_add(q, b);
        assert(wpow(a + b) == 0x1_0000_0000 * wpow(q + b));
        assert(wpow(a) == 0x1_0000_0000 * wpow(q));
        let x = wpow(q);
        let y = wpow(b);
        assert(0x1_0000_0000 * (x * y) == (0x1_0000_0000 * x) * y) by (nonlinear_arith);
    } else {
        assert(wpow(a) == 1);
    }
}

/// `k <= m` implies `wpow(k) <= wpow(m)`.
pub proof fn lemma_wpow_mono(k: nat, m: nat)
    requires
        k <= m,
    ensures
        wpow(k) <= wpow(m),
{
    lemma_wpow_add(k, (m - k) as nat);
    lemma_wpow_pos((m - k) as nat);
    let x = wpow(k);
    let y = wpow((m - k) as nat);
    assert(x <= x * y) by (nonlinear_arith)
        requires
            y >= 1,
    ;
}

/// A sequence of `n` words denotes a number below `2^(32·n)`.
pub proof fn lemma_words_val_bound(s: Seq<u32>)
    ensures
        words_val(s) < wpow(s.len()),
    decreases s.len(),
{
    if s.len() > 0 {
        let n = (s.len() - 1) as nat;
        lemma_words_val_bound(s.drop_last());
        let w = wpow(n);
        let l = s.last();
        assert(l * w <= 0xffff_ffff * w) by (nonlinear_arith)
            requires
                l <= 0xffff_ffff,
        ;
    }
}

/// Appending one word to a prefix adds that word at its weight.
pub proof fn lemma_prefix_step(s: Seq<u32>, i: int)
    requires
        0 <= i < s.len(),
    ensures
        words_val(s.take(i + 1)) == words_val(s.take(i)) + s[i] * wpow(i as nat),
{
    assert(s.take(i + 1).drop_last() =~= s.take(i));
}

/// Splits a word sequence into a low part and a high part at word `k`.
pub proof fn lemma_words_split(s: Seq<u32>, k: int)
    requires
        0 <= k <= s.len(),
    ensures
        words_val(s) == words_val(s.take(k)) + wpow(k as nat) * words_val(s.skip(k)),
    decreases s.len(),
{
    if k == s.len() {
        assert(s.take(k) =~= s);
        assert(s.skip(k).len() == 0);
        assert(words_val(s.skip(k)) == 0);
        assert(wpow(k as nat) * 0 == 0);
    } else {
        let init = s.drop_last();
        let n = (s.len() - 1) as nat;
        lemma_words_split(init, k);
        assert(init.take(k) =~= s.take(k));
        assert(s.skip(k).drop_last() =~= init.skip(k));
        assert(s.skip(k).last() == s.last());
        assert(words_val(s.skip(k)) == words_val(s.skip(k).drop_last()) + s.last() * wpow((n - k) as nat));
        assert(words_val(s) == words_val(init) + s.last() * wpow(n));
        lemma_wpow_add(k as nat, (n - k) as nat);
        let a = wpow(k as nat);
        let b = wpow((n - k) as nat);
        let v = words_val(init.skip(k));
        let l = s.last() as int;
        assert(a * b == wpow(n));
        assert(a * (v + l * b) == a * v + l * (a * b)) by (nonlinear_arith);
        assert(words_val(s.skip(k)) == v + l * b);
        assert(words_val(init) == words_val(s.take(k)) + a * v);
    }
}

/// A word sequence denotes zero exactly when every word is zero.
pub proof fn lemma_words_zero(s: Seq<u32>)
    ensures
        words_val(s) == 0 <==> (forall|i: int| 0 <= i < s.len() ==> s[i] == 0),
    decreases s.len(),
{
    if s.len() > 0 {
        let n = (s.len() - 1) as nat;
        lemma_words_zero(s.drop_last());
        lemma_wpow_pos(n);
        let w = wpow(n);
        let l = s.last();
        assert(l * w == 0 <==> l == 0) by (nonlinear_arith)
            requires
                w >= 1,
        ;
        if words_val(s) == 0 {
            assert forall|i: int| 0 <= i < s.len() implies s[i] == 0 by {
                if i < n {
                    assert(s.drop_last()[i] == s[i]);
                }
            }
        }
        if forall|i: int| 0 <= i < s.len() ==> s[i] == 0 {
            assert forall|i: int| 0 <= i < s.drop_last().len() implies s.drop_last()[i] == 0 by {
                assert(s.drop_last()[i] == s[i]);
            }
        }
    }
}

proof fn lemma_carry_step(c: int, c2: int, lo: int, w: int, x: int, y: int)
    requires
        lo + c2 * 0x1_0000_0000 == x + y + c,
    ensures
        lo * w + c2 * (0x1_0000_0000 * w) == x * w + y * w + c * w,
{
    assert(lo * w + c2 * (0x1_0000_0000 * w) == (lo + c2 * 0x1_0000_0000) * w) by (nonlinear_arith);
    assert((x + y + c) * w == x * w + y * w + c * w) by (nonlinear_arith);
}

proof fn lemma_borrow_step(b: int, b2: int, lo: int, w: int, x: int, y: int)
    requires
        lo - b2 * 0x1_0000_0000 == x - y - b,
    ensures
        lo * w - b2 * (0x1_0000_0000 * w) == x * w - y * w - b * w,
{
    assert(lo * w - b2 * (0x1_0000_0000 * w) == (lo - b2 * 0x1_0000_0000) * w) by (nonlinear_arith);
    assert((x - y - b) * w == x * w - y * w - b * w) by (nonlinear_arith);
}

/// Adds two words and an incoming carry; returns `(carry_out, sum_word)`.
#[inline(always)]
pub fn add32_and_overflow(a: u32, b: u32, carry: u32) -> (r: (u32, u32))
    ensures
        r.0 as int * 0x1_0000_0000 + r.1 as int == a as int + b as int + carry as int,
        r.0 <= 2,
        carry <= 1 ==> r.0 <= 1,
{
    let v: u64 = (a as u64) + (b as u64) + (carry as u64);
    assert(v >> 32u64 == v / 0x1_0000_0000 && v & 0xffff_ffffu64 == v % 0x1_0000_0000) by (bit_vector);
    ((v >> 32) as u32, (v & 0xffffffff) as u32)
}

/// Adds the `J`-word number `new` into the `I`-word accumulator `accm`,
/// rippling the carry through every word above `J`. The carry out of the
/// top word is dropped, so the result is the sum modulo `2^(32·I)`.
pub fn add_small<const I: usize, const J: usize>(accm: &mut [u32; I], new: &[u32; J])
    requires
        J <= I,
    ensures
        words_val(final(accm)@) == (words_val(old(accm)@) + words_val(new@)) % wpow(I as nat),
{
    let ghost orig = old(accm)@;
    let mut carry: u32 = 0;
    let mut i: usize = 0;
    while i < J
        invariant
            0 <= i <= J <= I,
            accm@.len() == I,
            carry <= 1,
            orig.len() == I,
            forall|j: int| i <= j < I ==> accm@[j] == orig[j],
            words_val(accm@.take(i as int)) + carry * wpow(i as nat) == words_val(orig.take(i as int))
                + words_val(new@.take(i as int)),
        decreases J - i,
    {
        let (c, lo) = add32_and_overflow(accm[i], new[i], carry);
        proof {
            lemma_prefix_step(orig, i as int);
            lemma_prefix_step(new@, i as int);
        }
        let ghost before = accm@;
        accm[i] = lo;
        proof {
            assert(wpow((i + 1) as nat) == 0x1_0000_0000 * wpow(i as nat));
            assert(accm@.take(i as int) =~= before.take(i as int));
            lemma_prefix_step(accm@, i as int);
            lemma_carry_step(
                carry as int,
                c as int,
                lo as int,
                wpow(i as nat) as int,
                orig[i as int] as int,
                new@[i as int] as int,
            );
        }
        carry = c;
        i = i + 1;
    }
    assert(new@.take(J as int) =~= new@);
    while i < I
        invariant
            J <= i <= I,
            accm@.len() == I,
            carry <= 1,
            orig.len() == I,
            forall|j: int| i <= j < I ==> accm@[j] == orig[j],
            words_val(accm@.take(i as int)) + carry * wpow(i as nat) == words_val(orig.take(i as int))
                + words_val(new@),
        decreases I - i,
    {
        let (c, lo) = add32_and_overflow(accm[i], carry, 0);
        proof {
            lemma_prefix_step(orig, i as int);
        }
        let ghost before = accm@;
        accm[i] = lo;
        proof {
            assert(wpow((i + 1) as nat) == 0x1_0000_0000 * wpow(i as nat));
            assert(accm@.take(i as int) =~= before.take(i as int));
            lemma_prefix_step(accm@, i as int);
            lemma_carry_step(
                carry as int,
                c as int,
                lo as int,
                wpow(i as nat) as int,
                orig[i as int] as int,
                0,
            );
        }
        carry = c;
        i = i + 1;
    }
    proof {
        assert(accm@.take(I as int) =~= accm@);
        assert(orig.take(I as int) =~= orig);
        lemma_words_val_bound(accm@);
        let total = (words_val(orig) + words_val(new@)) as int;
        lemma_fundamental_div_mod_converse(total, wpow(I as nat) as int, carry as int, words_val(accm@) as int);
    }
}

/// Subtracts `b` and an incoming borrow from `a`; returns
/// `(difference_word, borrow_out)`.
#[inline(always)]
pub fn sub_with_borrow(a: u32, b: u32, carry: u32) -> (r: (u32, u32))
    requires
        carry <= 1,
    ensures
        r.0 as int - r.1 as int * 0x1_0000_0000 == a as int - b as int - carry as int,
        r.1 <= 1,
{
    let res: u64 = (a as u64) + 0x100000000 - (b as u64) - (carry as u64);
    assert(res >> 32u64 == res / 0x1_0000_0000 && res & 0xffff_ffffu64 == res % 0x1_0000_0000) by (bit_vector);
    ((res & 0xffffffff) as u32, 1u32 - ((res >> 32) as u32))
}

/// Subtracts the `I`-word number `new` from `accu` in place, rippling the
/// borrow upward; returns the borrow out of the top word.
pub fn sub_and_borrow<const I: usize>(accu: &mut [u32; I], new: &[u32; I]) -> (borrow: u32)
    ensures
        borrow <= 1,
        words_val(final(accu)@) as int - borrow * wpow(I as nat) == words_val(old(accu)@) as int
            - words_val(new@) as int,
        borrow == 0 <==> words_val(old(accu)@) >= words_val(new@),
{
    let ghost orig = old(accu)@;
    let mut borrow: u32 = 0;
    let mut i: usize = 0;
    while i < I
        invariant
            0 <= i <= I,
            accu@.len() == I,
            borrow <= 1,
            orig.len() == I,
            forall|j: int| i <= j < I ==> accu@[j] == orig[j],
            words_val(accu@.take(i as int)) - borrow * wpow(i as nat) == words_val(orig.take(i as int))
                - words_val(new@.take(i as int)),
        decreases I - i,
    {
        let (lo, b) = sub_with_borrow(accu[i], new[i], borrow);
        proof {
            lemma_prefix_step(orig, i as int);
            lemma_prefix_step(new@, i as int);
        }
        let ghost before = accu@;
        accu[i] = lo;
        proof {
            assert(wpow((i + 1) as nat) == 0x1_0000_0000 * wpow(i as nat));
            assert(accu@.take(i as int) =~= before.take(i as int));
            lemma_prefix_step(accu@, i as int);
            lemma_borrow_step(
                borrow as int,
                b as int,
                lo as int,
                wpow(i as nat) as int,
                orig[i as int] as int,
                new@[i as int] as int,
            );        }
        borrow = b;
        i = i + 1;
    }
    proof {
        assert(accu@.take(I as int) =~= accu@);
        assert(orig.take(I as int) =~= orig);
        assert(new@.take(I as int) =~= new@);
        lemma_words_val_bound(accu@);
        lemma_words_val_bound(new@);
        lemma_wpow_pos(I as nat);
        if borrow == 1 {
            assert(borrow * wpow(I as nat) == wpow(I as nat));
        }
    }
    borrow
}

/// A word sequence whose words above the first `k` are all zero denotes the
/// same number as its first `k` words.
pub proof fn lemma_zero_extension(s: Seq<u32>, k: int)
    requires
        0 <= k <= s.len(),
        forall|i: int| k <= i < s.len() ==> s[i] == 0,
    ensures
        words_val(s) == words_val(s.take(k)),
{
    lemma_words_split(s, k);
    lemma_words_zero(s.skip(k));
    assert(wpow(k as nat) * 0 == 0);
}

/// A sequence whose top word is nonzero denotes at least that word's weight.
pub proof fn lemma_top_word_weight(s: Seq<u32>)
    requires
        s.len() > 0,
        s.last() != 0,
    ensures
        words_val(s) >= wpow((s.len() - 1) as nat),
{
    let w = wpow((s.len() - 1) as nat);
    let l = s.last();
    assert(l * w >= w) by (nonlinear_arith)
        requires
            l >= 1,
            w >= 0,
    ;
}

/// Two word sequences of one length that denote the same number are equal.
pub proof fn lemma_words_injective(s: Seq<u32>, t: Seq<u32>)
    requires
        s.len() == t.len(),
        words_val(s) == words_val(t),
    ensures
        s == t,
    decreases s.len(),
{
    if s.len() > 0 {
        let n = (s.len() - 1) as nat;
        let w = wpow(n) as int;
        lemma_words_val_bound(s.drop_last());
        lemma_words_val_bound(t.drop_last());
        lemma_wpow_pos(n);
        let v = words_val(s) as int;
        assert(v == s.last() * w + words_val(s.drop_last()));
        assert(v == t.last() * w + words_val(t.drop_last()));
        lemma_fundamental_div_mod_converse(v, w, s.last() as int, words_val(s.drop_last()) as int);
        lemma_fundamental_div_mod_converse(v, w, t.last() as int, words_val(t.drop_last()) as int);
        lemma_words_injective(s.drop_last(), t.drop_last());
        assert(s =~= t.drop_last().push(t.last()));
        assert(t =~= t.drop_last().push(t.last()));
    } else {
        assert(s =~= t);
    }
}

/// The word that four little-endian bytes denote.
pub open spec fn le_word(b0: u8, b1: u8, b2: u8, b3: u8) -> u32 {
    (b0 + 0x100 * b1 + 0x1_0000 * b2 + 0x100_0000 * b3) as u32
}

/// The words that a little-endian byte string denotes, four bytes each.
pub open spec fn le_words(b: Seq<u8>) -> Seq<u32> {
    Seq::new(
        b.len() / 4,
        |i: int| le_word(b[4 * i], b[4 * i + 1], b[4 * i + 2], b[4 * i + 3]),
    )
}

/// Reads a little-endian byte string as 32-bit words.
pub fn decode_words(bytes: &Vec<u8>) -> (r: Vec<u32>)
    requires
        bytes.len() % 4 == 0,
    ensures
        r@ == le_words(bytes@),
{
    let n = bytes.len() / 4;
    let mut r: Vec<u32> = Vec::new();
    let mut i: usize = 0;
    while i < n
        invariant
            n == bytes.len() / 4,
            i <= n,
            r@.len() == i,
            forall|j: int| 0 <= j < i ==> r@[j] == le_words(bytes@)[j],
        decreases n - i,
    {
        let w: u32 = (bytes[4 * i] as u32) + 0x100 * (bytes[4 * i + 1] as u32) + 0x1_0000 * (
        bytes[4 * i + 2] as u32) + 0x100_0000 * (bytes[4 * i + 3] as u32);
        r.push(w);
        i = i + 1;
    }
    assert(r@ =~= le_words(bytes@));
    r
}

} // verus!
