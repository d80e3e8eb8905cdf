//! The mathematical model of a multi-word number: the value of a
//! least-significant-first sequence of 64-bit words, and the lemmas that
//! relate that value to sequence operations.

use vstd::arithmetic::div_mod::lemma_fundamental_div_mod_converse;
use vstd::arithmetic::power::lemma_pow_adds;
use vstd::arithmetic::power::lemma_pow_increases;
use vstd::arithmetic::power::lemma_pow_positive;
use vstd::arithmetic::power::pow;
use vstd::prelude::*;

verus! {

/// Radix of the representation: each word is one base-2^64 digit.
pub const WORD_BASE: u128 = 0x1_0000_0000_0000_0000;

/// Numeric value of a word sequence: the sum of `s[i] * 2^(64*i)`.
pub open spec fn from_words(s: Seq<u64>) -> nat
    decreases s.len(),
{
    if s.len() == 0 {
        0
    } else {
        s[0] as nat + (WORD_BASE as nat) * from_words(s.subrange(1, s.len() as int))
    }
}

/// `2^(64*e)`: the weight of the word at position `e`.
pub open spec fn word_exp(e: nat) -> int {
    pow(WORD_BASE as int, e)
}

/// A word sequence is canonical when its most-significant word, if any,
/// is nonzero; the empty sequence is the canonical zero.
pub open spec fn wf_words(s: Seq<u64>) -> bool {
    s.len() == 0 || s[s.len() - 1] != 0
}

/// The word at position `i`, reading positions past the end as zero.
pub open spec fn word_at(s: Seq<u64>, i: int) -> u64 {
    if 0 <= i < s.len() {
        s[i]
    } else {
        0
    }
}

/// Value of the first `n` words of `s`; `n` is clipped to the length,
/// so for `n >= s.len()` this is the value of the whole sequence.
pub open spec fn prefix_value(s: Seq<u64>, n: int) -> nat {
    if n < 0 {
        0
    } else if n <= s.len() {
        from_words(s.take(n))
    } else {
        from_words(s)
    }
}

/// `b^e` over natural numbers: the meaning of exponentiation.
pub open spec fn power_nat(b: nat, e: nat) -> nat
    decreases e,
{
    if e == 0 {
        1
    } else {
        b * power_nat(b, (e - 1) as nat)
    }
}

/// Exponents add: `b^(m+n) == b^m * b^n`.
pub proof fn lemma_power_nat_adds(b: nat, m: nat, n: nat)
    ensures
        power_nat(b, m + n) == power_nat(b, m) * power_nat(b, n),
    decreases m,
{
    if m == 0 {
        assert(power_nat(b, n) == 1 * power_nat(b, n));
    } else {
        lemma_power_nat_adds(b, (m - 1) as nat, n);
        assert(power_nat(b, m + n) == b * power_nat(b, ((m - 1) + n) as nat));
        let pm1 = power_nat(b, (m - 1) as nat);
        let pn = power_nat(b, n);
        assert(b * (pm1 * pn) == (b * pm1) * pn) by (nonlinear_arith);
    }
}

pub proof fn lemma_word_exp_zero()
    ensures
        word_exp(0) == 1,
{
    reveal_with_fuel(pow, 1);
}

pub proof fn lemma_word_exp_pos(e: nat)
    ensures
        word_exp(e) >= 1,
{
    lemma_pow_positive(WORD_BASE as int, e);
}

pub proof fn lemma_word_exp_adds(m: nat, n: nat)
    ensures
        word_exp(m + n) == word_exp(m) * word_exp(n),
{
    lemma_pow_adds(WORD_BASE as int, m, n);
}

pub proof fn lemma_word_exp_step(e: nat)
    ensures
        word_exp(e + 1) == (WORD_BASE as int) * word_exp(e),
{
    lemma_pow_adds(WORD_BASE as int, 1, e);
    assert(pow(WORD_BASE as int, 1) == WORD_BASE as int) by {
        reveal_with_fuel(pow, 2);
    }
}

/// Splitting a sequence at position `i` splits its value: the low `i`
/// words contribute their own value, the rest is scaled by `2^(64*i)`.
pub proof fn lemma_from_words_split(s: Seq<u64>, i: int)
    requires
        0 <= i <= s.len(),
    ensures
        from_words(s) == from_words(s.take(i)) + word_exp(i as nat) * from_words(s.skip(i)),
    decreases i,
{
    if i == 0 {
        assert(s.take(0) =~= Seq::<u64>::empty());
        assert(s.skip(0) =~= s);
        assert(word_exp(0) == 1) by {
            reveal_with_fuel(pow, 1);
        }
    } else {
        let s1 = s.subrange(1, s.len() as int);
        lemma_from_words_split(s1, i - 1);
        assert(s1.take(i - 1) =~= s.take(i).subrange(1, i));
        assert(s1.skip(i - 1) =~= s.skip(i));
        let b = WORD_BASE as nat;
        let t = from_words(s1.take(i - 1));
        let r = from_words(s.skip(i));
        let e1 = word_exp((i - 1) as nat);
        assert(from_words(s.take(i)) == s[0] as nat + b * t);
        assert(from_words(s1) == t + e1 * r);
        lemma_word_exp_step((i - 1) as nat);
        assert(word_exp(i as nat) == b * e1);
        assert(s[0] as nat + b * (t + e1 * r) == (s[0] as nat + b * t) + (b * e1) * r)
            by (nonlinear_arith);
    }
}

/// A single word is its own value.
pub proof fn lemma_from_words_singleton(x: u64)
    ensures
        from_words(seq![x]) == x,
{
    let s = seq![x];
    reveal_with_fuel(from_words, 2);
    assert(s.subrange(1, 1) =~= Seq::<u64>::empty());
}

/// Appending one word adds its weighted value.
pub proof fn lemma_from_words_push(s: Seq<u64>, x: u64)
    ensures
        from_words(s.push(x)) == from_words(s) + x * word_exp(s.len()),
{
    let p = s.push(x);
    lemma_from_words_split(p, s.len() as int);
    assert(p.take(s.len() as int) =~= s);
    let tail = p.skip(s.len() as int);
    assert(tail =~= seq![x]);
    lemma_from_words_singleton(x);
    assert(word_exp(s.len()) * (x as nat) == x * word_exp(s.len())) by (nonlinear_arith);
}

/// The value of `n` words is below `2^(64*n)`.
pub proof fn lemma_from_words_bound(s: Seq<u64>)
    ensures
        from_words(s) < word_exp(s.len()),
    decreases s.len(),
{
    if s.len() == 0 {
        assert(word_exp(0) == 1) by {
            reveal_with_fuel(pow, 1);
        }
    } else {
        let s1 = s.subrange(1, s.len() as int);
        lemma_from_words_bound(s1);
        lemma_word_exp_step(s1.len());
        let b = WORD_BASE as nat;
        let r = from_words(s1);
        let e1 = word_exp(s1.len());
        assert(r <= e1 - 1);
        assert(s[0] as nat + b * r < b * e1) by (nonlinear_arith)
            requires
                s[0] < b,
                r <= e1 - 1,
                b >= 1,
                e1 >= 1,
        ;
    }
}

/// A canonical nonempty sequence reaches the weight of its top word.
pub proof fn lemma_wf_lower_bound(s: Seq<u64>)
    requires
        wf_words(s),
        s.len() > 0,
    ensures
        from_words(s) >= word_exp((s.len() - 1) as nat),
{
    let i = s.len() - 1;
    lemma_from_words_split(s, i);
    let tail = s.skip(i);
    assert(tail =~= seq![s[i]]);
    lemma_from_words_singleton(s[i]);
    assert(from_words(tail) >= 1);
    lemma_word_exp_pos(i as nat);
    assert(word_exp(i as nat) * from_words(tail) >= word_exp(i as nat)) by (nonlinear_arith)
        requires
            word_exp(i as nat) >= 1,
            from_words(tail) >= 1,
    ;
}

/// Of two canonical sequences, the longer has the greater value.
pub proof fn lemma_len_order(a: Seq<u64>, b: Seq<u64>)
    requires
        wf_words(a),
        wf_words(b),
        a.len() < b.len(),
    ensures
        from_words(a) < from_words(b),
{
    lemma_from_words_bound(a);
    lemma_wf_lower_bound(b);
    lemma_pow_increases(WORD_BASE as nat, a.len(), (b.len() - 1) as nat);
}

/// With equal lengths and equal words above position `i`, a greater word
/// at position `i` decides the order.
pub proof fn lemma_msw_order(a: Seq<u64>, b: Seq<u64>, i: int)
    requires
        a.len() == b.len(),
        0 <= i < a.len(),
        forall|j: int| i < j < a.len() ==> a[j] == b[j],
        a[i] > b[i],
    ensures
        from_words(a) > from_words(b),
{
    lemma_from_words_split(a, i);
    lemma_from_words_split(b, i);
    let e = word_exp(i as nat);
    let sa = a.skip(i);
    let sb = b.skip(i);
    assert(sa.subrange(1, sa.len() as int) =~= a.skip(i + 1));
    assert(sb.subrange(1, sb.len() as int) =~= b.skip(i + 1));
    assert(a.skip(i + 1) =~= b.skip(i + 1));
    let r = from_words(a.skip(i + 1));
    assert(from_words(sa) == a[i] as nat + (WORD_BASE as nat) * r);
    assert(from_words(sb) == b[i] as nat + (WORD_BASE as nat) * r);
    lemma_from_words_bound(a.take(i));
    lemma_from_words_bound(b.take(i));
    assert(a.take(i).len() == i);
    assert(b.take(i).len() == i);
    lemma_word_exp_pos(i as nat);
    let ta = from_words(a.take(i)) as int;
    let tb = from_words(b.take(i)) as int;
    let va = from_words(sa) as int;
    let vb = from_words(sb) as int;
    assert(va >= vb + 1);
    assert(ta + e * va > tb + e * vb) by (nonlinear_arith)
        requires
            ta >= 0,
            tb < e,
            va >= vb + 1,
            e >= 1,
    ;
}

/// Fixed-length base-2^64 representations are unique: equal values mean
/// equal sequences.
pub proof fn lemma_repr_unique(a: Seq<u64>, b: Seq<u64>)
    requires
        a.len() == b.len(),
        from_words(a) == from_words(b),
    ensures
        a =~= b,
    decreases a.len(),
{
    if a.len() > 0 {
        let a1 = a.subrange(1, a.len() as int);
        let b1 = b.subrange(1, b.len() as int);
        let base = WORD_BASE as int;
        let v = from_words(a) as int;
        lemma_fundamental_div_mod_converse(v, base, from_words(a1) as int, a[0] as int);
        lemma_fundamental_div_mod_converse(v, base, from_words(b1) as int, b[0] as int);
        assert(a[0] == b[0]);
        lemma_repr_unique(a1, b1);
        assert forall|j: int| 0 <= j < a.len() implies a[j] == b[j] by {
            if j >= 1 {
                assert(a1[j - 1] == a[j]);
                assert(b1[j - 1] == b[j]);
            }
        }
        assert(a =~= b);
    }
}

/// Canonical representations are unique: two canonical sequences with the
/// same value are the same sequence.
pub proof fn lemma_canonical_unique(a: Seq<u64>, b: Seq<u64>)
    requires
        wf_words(a),
        wf_words(b),
        from_words(a) == from_words(b),
    ensures
        a =~= b,
{
    if a.len() < b.len() {
        lemma_len_order(a, b);
    } else if b.len() < a.len() {
        lemma_len_order(b, a);
    } else {
        lemma_repr_unique(a, b);
    }
}

/// A canonical sequence with value zero is empty.
pub proof fn lemma_zero_empty(s: Seq<u64>)
    requires
        wf_words(s),
        from_words(s) == 0,
    ensures
        s =~= Seq::<u64>::empty(),
{
    if s.len() > 0 {
        lemma_wf_lower_bound(s);
        lemma_word_exp_pos((s.len() - 1) as nat);
    }
}

/// Taking one more word adds that word's weighted value.
pub proof fn lemma_prefix_step(s: Seq<u64>, n: int)
    requires
        n >= 0,
    ensures
        prefix_value(s, n + 1) == prefix_value(s, n) + word_at(s, n) * word_exp(n as nat),
{
    if n < s.len() {
        assert(s.take(n + 1) =~= s.take(n).push(s[n]));
        lemma_from_words_push(s.take(n), s[n]);
    } else if n == s.len() {
        assert(s.take(n) =~= s);
    }
}

/// The whole-sequence prefix is the whole value.
pub proof fn lemma_prefix_all(s: Seq<u64>, n: int)
    requires
        n >= s.len(),
    ensures
        prefix_value(s, n) == from_words(s),
{
    if n == s.len() {
        assert(s.take(n) =~= s);
    }
}

} // verus!
