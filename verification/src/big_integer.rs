//! The `BigInteger` type and its arithmetic operations.

use crate::words::from_words;
use crate::words::lemma_from_words_bound;
use crate::words::lemma_from_words_push;
use crate::words::lemma_from_words_singleton;
use crate::words::lemma_len_order;
use crate::words::lemma_msw_order;
use crate::words::lemma_power_nat_adds;
use crate::words::lemma_prefix_all;
use crate::words::lemma_prefix_step;
use crate::words::lemma_wf_lower_bound;
use crate::words::lemma_word_exp_adds;
use crate::words::lemma_word_exp_pos;
use crate::words::lemma_word_exp_step;
use crate::words::power_nat;
use crate::words::prefix_value;
use crate::words::wf_words;
use crate::words::word_at;
use crate::words::word_exp;
use crate::words::WORD_BASE;
use vstd::arithmetic::div_mod::lemma_add_mod_noop;
use vstd::arithmetic::div_mod::lemma_fundamental_div_mod;
use vstd::arithmetic::div_mod::lemma_mod_multiples_vanish;
use vstd::arithmetic::div_mod::lemma_mul_mod_noop_general;
use vstd::arithmetic::div_mod::lemma_small_mod;
use vstd::arithmetic::power2::lemma_pow2_pos;
use vstd::arithmetic::power2::lemma_pow2_unfold;
use vstd::arithmetic::power2::pow2;
use vstd::prelude::*;

verus! {

/// An arbitrary-precision unsigned integer: 64-bit words, least-significant
/// first, with no trailing zero word (zero is the empty sequence).
#[derive(Debug, Clone)]
pub struct BigInteger {
    words: Vec<u64>,
}

impl PartialEq for BigInteger {
    /// Equality is exact equality of the word sequences; on canonical
    /// values that coincides with value equality.
    fn eq(&self, other: &Self) -> bool {
        if self.words.len() != other.words.len() {
            return false;
        }
        let n = self.words.len();
        let mut i: usize = 0;
        while i < n
            invariant
                i <= n,
                n == self@.len(),
                n == other@.len(),
                forall|j: int| 0 <= j < i ==> self@[j] == other@[j],
            decreases n - i,
        {
            if self.words[i] != other.words[i] {
                return false;
            }
            i = i + 1;
        }
        proof {
            assert(self@ =~= other@);
        }
        true
    }
}

impl vstd::std_specs::cmp::PartialEqSpecImpl for BigInteger {
    open spec fn obeys_eq_spec() -> bool {
        true
    }

    open spec fn eq_spec(&self, other: &Self) -> bool {
        self@ == other@
    }
}

/// Faults an arithmetic operation can signal: subtracting the greater from
/// the smaller, or reducing modulo zero.
#[derive(PartialEq, Eq, Structural, Clone, Copy, Debug)]
pub enum BigIntError {
    Underflow,
    DivisionByZero,
}

/// Outcome of comparing two values.
#[derive(PartialEq, Eq, Structural, Clone, Copy, Debug)]
pub enum Comparison {
    Less,
    Equal,
    Greater,
}

impl View for BigInteger {
    type V = Seq<u64>;

    closed spec fn view(&self) -> Seq<u64> {
        self.words@
    }
}

impl BigInteger {
    /// Numeric value represented by this integer.
    pub open spec fn value(&self) -> nat {
        from_words(self@)
    }

    /// The canonical-form invariant: no trailing zero word.
    pub open spec fn wf(&self) -> bool {
        wf_words(self@)
    }

    /// The zero value: an empty word sequence.
    pub fn new() -> (r: Self)
        ensures
            r.wf(),
            r.value() == 0,
            r@ == Seq::<u64>::empty(),
    {
        let r = BigInteger { words: Vec::new() };
        proof {
            assert(r@ =~= Seq::<u64>::empty());
        }
        r
    }

    /// Builds an integer from a least-significant-first word sequence,
    /// normalizing it by stripping trailing zero words. This is the single
    /// normalization entry point; every operation routes its result
    /// through it.
    pub fn from_vec(values: Vec<u64>) -> (r: Self)
        ensures
            r.wf(),
            r.value() == from_words(values@),
    {
        let mut v = values;
        while v.len() > 0 && v[v.len() - 1] == 0
            invariant
                from_words(v@) == from_words(values@),
            decreases v.len(),
        {
            proof {
                let s = v@;
                assert(s.take(s.len() - 1).push(s[s.len() - 1]) =~= s);
                lemma_from_words_push(s.take(s.len() - 1), s[s.len() - 1]);
            }
            v.pop();
        }
        BigInteger { words: v }
    }

    /// The normalized word sequence, least-significant first, for
    /// inspection and display.
    pub fn words(&self) -> (r: &Vec<u64>)
        ensures
            r@ == self@,
    {
        &self.words
    }

    /// Total order on canonical values: a longer canonical sequence is
    /// greater; with equal lengths the most-significant differing word
    /// decides; equal sequences are equal values.
    pub fn compare(&self, other: &Self) -> (r: Comparison)
        requires
            self.wf(),
            other.wf(),
        ensures
            (r == Comparison::Less) == (self.value() < other.value()),
            (r == Comparison::Equal) == (self.value() == other.value()),
            (r == Comparison::Greater) == (self.value() > other.value()),
    {
        let n = self.words.len();
        if n < other.words.len() {
            proof {
                lemma_len_order(self@, other@);
            }
            return Comparison::Less;
        }
        if n > other.words.len() {
            proof {
                lemma_len_order(other@, self@);
            }
            return Comparison::Greater;
        }
        let mut i: usize = n;
        while i > 0
            invariant
                i <= n,
                n == self@.len(),
                n == other@.len(),
                forall|j: int| i <= j < n ==> self@[j] == other@[j],
            decreases i,
        {
            i = i - 1;
            let a = self.words[i];
            let b = other.words[i];
            if a > b {
                proof {
                    lemma_msw_order(self@, other@, i as int);
                }
                return Comparison::Greater;
            }
            if a < b {
                proof {
                    lemma_msw_order(other@, self@, i as int);
                }
                return Comparison::Less;
            }
        }
        proof {
            assert(self@ =~= other@);
        }
        Comparison::Equal
    }

    /// Strict order on values, through `compare`.
    pub fn lt(&self, other: &Self) -> (r: bool)
        requires
            self.wf(),
            other.wf(),
        ensures
            r == (self.value() < other.value()),
    {
        match self.compare(other) {
            Comparison::Less => true,
            _ => false,
        }
    }

    /// Non-strict order on values, through `compare`.
    pub fn le(&self, other: &Self) -> (r: bool)
        requires
            self.wf(),
            other.wf(),
        ensures
            r == (self.value() <= other.value()),
    {
        match self.compare(other) {
            Comparison::Greater => false,
            _ => true,
        }
    }

    /// Adds two integers word by word, propagating the carry; the result
    /// has at most one word more than the longer operand.
    pub fn add(&self, other: &Self) -> (r: Self)
        requires
            self.wf(),
            other.wf(),
        ensures
            r.wf(),
            r.value() == self.value() + other.value(),
    {
        let a_len = self.words.len();
        let b_len = other.words.len();
        let n = if a_len >= b_len {
            a_len
        } else {
            b_len
        };
        let mut out: Vec<u64> = Vec::new();
        let mut carry: u64 = 0;
        let mut i: usize = 0;
        while i < n
            invariant
                i <= n,
                out@.len() == i,
                carry <= 1,
                from_words(out@) + (carry as int) * word_exp(i as nat) == prefix_value(self@, i as int)
                    + prefix_value(other@, i as int),
            decreases n - i,
        {
            let wa = if i < self.words.len() {
                self.words[i]
            } else {
                0
            };
            let wb = if i < other.words.len() {
                other.words[i]
            } else {
                0
            };
            let s: u128 = wa as u128 + wb as u128 + carry as u128;
            let low: u64 = (s % WORD_BASE) as u64;
            let new_carry: u64 = (s / WORD_BASE) as u64;
            proof {
                lemma_fundamental_div_mod(s as int, WORD_BASE as int);
                lemma_prefix_step(self@, i as int);
                lemma_prefix_step(other@, i as int);
                lemma_from_words_push(out@, low);
                lemma_word_exp_step(i as nat);
                assert(wa == word_at(self@, i as int));
                assert(wb == word_at(other@, i as int));
                let e = word_exp(i as nat);
                let b = WORD_BASE as int;
                assert((low + b * new_carry) * e == low * e + new_carry * (b * e))
                    by (nonlinear_arith);
                assert((wa + wb + carry) * e == wa * e + wb * e + carry * e) by (nonlinear_arith);
            }
            out.push(low);
            carry = new_carry;
            i = i + 1;
        }
        proof {
            lemma_prefix_all(self@, n as int);
            lemma_prefix_all(other@, n as int);
        }
        if carry != 0 {
            proof {
                lemma_from_words_push(out@, carry);
            }
            out.push(carry);
        }
        Self::from_vec(out)
    }

    /// Core of subtraction: word-by-word differences with borrow
    /// propagation, for a minuend at least as large as the subtrahend.
    fn sub_nonneg(&self, other: &Self) -> (r: Self)
        requires
            self.wf(),
            other.wf(),
            other.value() <= self.value(),
        ensures
            r.wf(),
            r.value() == self.value() - other.value(),
    {
        proof {
            if self@.len() < other@.len() {
                lemma_len_order(self@, other@);
            }
        }
        let n = self.words.len();
        let mut out: Vec<u64> = Vec::new();
        let mut borrow: u64 = 0;
        let mut i: usize = 0;
        while i < n
            invariant
                i <= n,
                n == self@.len(),
                out@.len() == i,
                borrow <= 1,
                from_words(out@) == prefix_value(self@, i as int) - prefix_value(other@, i as int)
                    + (borrow as int) * word_exp(i as nat),
            decreases n - i,
        {
            let wa = self.words[i];
            let wb = if i < other.words.len() {
                other.words[i]
            } else {
                0
            };
            let d: i128 = wa as i128 - wb as i128 - borrow as i128;
            let low: u64;
            let new_borrow: u64;
            if d < 0 {
                low = (d + WORD_BASE as i128) as u64;
                new_borrow = 1;
            } else {
                low = d as u64;
                new_borrow = 0;
            }
            proof {
                lemma_prefix_step(self@, i as int);
                lemma_prefix_step(other@, i as int);
                lemma_from_words_push(out@, low);
                lemma_word_exp_step(i as nat);
                assert(wa == word_at(self@, i as int));
                assert(wb == word_at(other@, i as int));
                let e = word_exp(i as nat);
                let b = WORD_BASE as int;
                assert(low == wa - wb - borrow + new_borrow * b);
                assert((wa - wb - borrow + new_borrow * b) * e == wa * e - wb * e - (borrow as int)
                    * e + new_borrow * (b * e)) by (nonlinear_arith);
            }
            out.push(low);
            borrow = new_borrow;
            i = i + 1;
        }
        proof {
            lemma_prefix_all(self@, n as int);
            lemma_prefix_all(other@, n as int);
            if borrow == 1 {
                lemma_from_words_bound(out@);
                lemma_word_exp_pos(n as nat);
            }
        }
        Self::from_vec(out)
    }

    /// Subtracts `other` from `self`; underflow — a subtrahend greater
    /// than the minuend — is reported as an error, never as a wrapped or
    /// partial result.
    pub fn sub(&self, other: &Self) -> (r: Result<Self, BigIntError>)
        requires
            self.wf(),
            other.wf(),
        ensures
            r is Ok <==> other.value() <= self.value(),
            r matches Ok(d) ==> d.wf() && d.value() == self.value() - other.value(),
            r matches Err(e) ==> e == BigIntError::Underflow,
    {
        if self.lt(other) {
            Err(BigIntError::Underflow)
        } else {
            Ok(self.sub_nonneg(other))
        }
    }

    /// One positional partial product: `low` at word position `i + j`,
    /// preceded by zero words, with `high` directly above it when nonzero.
    fn fragment(low: u64, high: u64, i: usize, j: usize) -> (r: Self)
        ensures
            r.wf(),
            r.value() == (low + (WORD_BASE as int) * high) * word_exp(i as nat + j as nat),
    {
        let mut v: Vec<u64> = Vec::new();
        let mut k: usize = 0;
        while k < i
            invariant
                k <= i,
                v@.len() == k,
                from_words(v@) == 0,
            decreases i - k,
        {
            proof {
                lemma_from_words_push(v@, 0);
            }
            v.push(0);
            k = k + 1;
        }
        let mut k2: usize = 0;
        while k2 < j
            invariant
                k2 <= j,
                v@.len() == i + k2,
                from_words(v@) == 0,
            decreases j - k2,
        {
            proof {
                lemma_from_words_push(v@, 0);
            }
            v.push(0);
            k2 = k2 + 1;
        }
        proof {
            lemma_from_words_push(v@, low);
        }
        v.push(low);
        let ghost pos = i as nat + j as nat;
        if high != 0 {
            proof {
                lemma_from_words_push(v@, high);
                lemma_word_exp_step(pos);
                let e = word_exp(pos);
                let b = WORD_BASE as int;
                assert(low * e + high * (b * e) == (low + b * high) * e) by (nonlinear_arith);
            }
            v.push(high);
        }
        Self::from_vec(v)
    }

    /// Schoolbook multiplication: every pair of words forms a positional
    /// partial product, split into a low and a high word, and the partial
    /// products are accumulated with `add`.
    pub fn mul(&self, other: &Self) -> (r: Self)
        requires
            self.wf(),
            other.wf(),
        ensures
            r.wf(),
            r.value() == self.value() * other.value(),
    {
        let a_len = self.words.len();
        let b_len = other.words.len();
        let mut result = Self::new();
        proof {
            assert(self@.take(0) =~= Seq::<u64>::empty());
            assert(prefix_value(self@, 0) == 0);
        }
        let mut i: usize = 0;
        while i < a_len
            invariant
                i <= a_len,
                a_len == self@.len(),
                b_len == other@.len(),
                self.wf(),
                other.wf(),
                result.wf(),
                result.value() == prefix_value(self@, i as int) * from_words(other@),
            decreases a_len - i,
        {
            let a = self.words[i];
            proof {
                assert(other@.take(0) =~= Seq::<u64>::empty());
                assert(prefix_value(other@, 0) == 0);
            }
            let mut j: usize = 0;
            while j < b_len
                invariant
                    i < a_len,
                    j <= b_len,
                    a_len == self@.len(),
                    b_len == other@.len(),
                    a == self@[i as int],
                    self.wf(),
                    other.wf(),
                    result.wf(),
                    result.value() == prefix_value(self@, i as int) * from_words(other@) + (
                    a as int) * word_exp(i as nat) * prefix_value(other@, j as int),
                decreases b_len - j,
            {
                let b = other.words[j];
                proof {
                    let base = WORD_BASE as int;
                    assert((a as int) * (b as int) < base * base) by (nonlinear_arith)
                        requires
                            0 <= (a as int) && (a as int) < base,
                            0 <= (b as int) && (b as int) < base,
                    ;
                }
                let product: u128 = a as u128 * b as u128;
                let high: u64 = (product / WORD_BASE) as u64;
                let low: u64 = (product % WORD_BASE) as u64;
                let frag = Self::fragment(low, high, i, j);
                proof {
                    lemma_fundamental_div_mod(product as int, WORD_BASE as int);
                    lemma_prefix_step(other@, j as int);
                    lemma_word_exp_adds(i as nat, j as nat);
                    let ei = word_exp(i as nat);
                    let ej = word_exp(j as nat);
                    let ai = a as int;
                    let bw = other@[j as int] as int;
                    let pj = prefix_value(other@, j as int) as int;
                    assert(b == word_at(other@, j as int));
                    assert(frag.value() == (ai * bw) * (ei * ej));
                    assert(ai * ei * pj + (ai * bw) * (ei * ej) == ai * ei * (pj + bw * ej))
                        by (nonlinear_arith);
                }
                result = result.add(&frag);
                j = j + 1;
            }
            proof {
                lemma_prefix_step(self@, i as int);
                lemma_prefix_all(other@, b_len as int);
                let vb = from_words(other@) as int;
                let av = prefix_value(self@, i as int) as int;
                let ai = a as int;
                let ei = word_exp(i as nat);
                assert(av * vb + ai * ei * vb == (av + ai * ei) * vb) by (nonlinear_arith);
            }
            i = i + 1;
        }
        proof {
            lemma_prefix_all(self@, a_len as int);
        }
        result
    }

    /// A one-word value.
    fn single(w: u64) -> (r: Self)
        ensures
            r.wf(),
            r.value() == w,
    {
        proof {
            lemma_from_words_singleton(w);
        }
        let mut v: Vec<u64> = Vec::new();
        v.push(w);
        proof {
            assert(v@ =~= seq![w]);
        }
        Self::from_vec(v)
    }

    /// An independently-owned copy with the same word sequence.
    fn duplicate(&self) -> (r: Self)
        ensures
            r@ == self@,
    {
        let n = self.words.len();
        let mut v: Vec<u64> = Vec::new();
        let mut i: usize = 0;
        while i < n
            invariant
                i <= n,
                n == self@.len(),
                v@.len() == i,
                forall|j: int| 0 <= j < i ==> v@[j] == self@[j],
            decreases n - i,
        {
            v.push(self.words[i]);
            i = i + 1;
        }
        proof {
            assert(v@ =~= self@);
        }
        BigInteger { words: v }
    }

    /// Core of the remainder for a positive modulus: build the ascending
    /// doublings of the modulus that do not exceed the remainder, then
    /// subtract each, largest first, while it still fits.
    fn rem_pos(&self, modulus: &Self) -> (r: Self)
        requires
            self.wf(),
            modulus.wf(),
            modulus.value() > 0,
        ensures
            r.wf(),
            r.value() == self.value() % modulus.value(),
    {
        let two = Self::single(2);
        let mut result = self.duplicate();
        let mut multiple = modulus.duplicate();
        let mut list: Vec<BigInteger> = Vec::new();
        proof {
            vstd::arithmetic::power2::lemma2_to64();
        }
        while multiple.le(&result)
            invariant
                self.wf(),
                modulus.wf(),
                modulus.value() > 0,
                two.wf(),
                two.value() == 2,
                result.wf(),
                result.value() == self.value(),
                multiple.wf(),
                multiple.value() == modulus.value() * pow2(list@.len()),
                forall|t: int|
                    0 <= t < list@.len() ==> (#[trigger] list@[t]).wf() && list@[t].value()
                        == modulus.value() * pow2(t as nat),
            decreases (if multiple.value() <= self.value() {
                self.value() + 1 - multiple.value()
            } else {
                0
            }),
        {
            let next = multiple.mul(&two);
            proof {
                let n = list@.len();
                lemma_pow2_unfold(n + 1);
                lemma_pow2_pos(n);
                let m = modulus.value() as int;
                let p = pow2(n) as int;
                assert((m * p) * 2 == m * (p * 2)) by (nonlinear_arith);
                assert(m * p >= 1) by (nonlinear_arith)
                    requires
                        m >= 1,
                        p >= 1,
                ;
            }
            list.push(multiple);
            multiple = next;
        }
        proof {
            lemma_pow2_pos(list@.len());
        }
        let mut k = list.len();
        while k > 0
            invariant
                self.wf(),
                modulus.wf(),
                modulus.value() > 0,
                k <= list@.len(),
                forall|t: int|
                    0 <= t < list@.len() ==> (#[trigger] list@[t]).wf() && list@[t].value()
                        == modulus.value() * pow2(t as nat),
                result.wf(),
                result.value() < modulus.value() * pow2(k as nat),
                result.value() % modulus.value() == self.value() % modulus.value(),
            decreases k,
        {
            k = k - 1;
            let entry = &list[k];
            while entry.le(&result)
                invariant
                    modulus.wf(),
                    modulus.value() > 0,
                    entry.wf(),
                    entry.value() == modulus.value() * pow2(k as nat),
                    result.wf(),
                    result.value() % modulus.value() == self.value() % modulus.value(),
                decreases result.value(),
            {
                proof {
                    lemma_pow2_pos(k as nat);
                    let m = modulus.value() as int;
                    let p = pow2(k as nat) as int;
                    assert(m * p >= 1) by (nonlinear_arith)
                        requires
                            m >= 1,
                            p >= 1,
                    ;
                }
                let reduced = result.sub_nonneg(entry);
                proof {
                    let m = modulus.value() as int;
                    let p = pow2(k as nat) as int;
                    assert(reduced.value() == m * (-p) + result.value()) by (nonlinear_arith)
                        requires
                            reduced.value() == result.value() - m * p,
                    ;
                    lemma_mod_multiples_vanish(-p, result.value() as int, m);
                }
                result = reduced;
            }
            proof {
                lemma_pow2_unfold(k as nat + 1);
            }
        }
        proof {
            vstd::arithmetic::power2::lemma2_to64();
            assert(modulus.value() * 1 == modulus.value());
            lemma_small_mod(result.value(), modulus.value());
        }
        result
    }

    /// Remainder of `self` modulo `modulus`; a zero modulus is reported
    /// as a division-by-zero fault.
    pub fn rem(&self, modulus: &Self) -> (r: Result<Self, BigIntError>)
        requires
            self.wf(),
            modulus.wf(),
        ensures
            r is Ok <==> modulus.value() > 0,
            r matches Ok(v) ==> v.wf() && v.value() == self.value() % modulus.value(),
            r matches Err(e) ==> e == BigIntError::DivisionByZero,
    {
        if modulus.words.len() == 0 {
            proof {
                assert(modulus@ =~= Seq::<u64>::empty());
            }
            Err(BigIntError::DivisionByZero)
        } else {
            proof {
                lemma_wf_lower_bound(modulus@);
                lemma_word_exp_pos((modulus@.len() - 1) as nat);
            }
            Ok(self.rem_pos(modulus))
        }
    }

    /// Core of modular multiplication for a positive modulus: each
    /// positional partial product is reduced and folded into the running
    /// result, which is reduced again, so no unreduced product is ever
    /// materialized.
    fn mod_mul_pos(&self, other: &Self, modulus: &Self) -> (r: Self)
        requires
            self.wf(),
            other.wf(),
            modulus.wf(),
            modulus.value() > 0,
        ensures
            r.wf(),
            r.value() == (self.value() * other.value()) % modulus.value(),
    {
        let a_len = self.words.len();
        let b_len = other.words.len();
        let mut result = Self::new();
        proof {
            assert(self@.take(0) =~= Seq::<u64>::empty());
            assert(prefix_value(self@, 0) == 0);
            lemma_small_mod(0, modulus.value());
        }
        let mut i: usize = 0;
        while i < a_len
            invariant
                i <= a_len,
                a_len == self@.len(),
                b_len == other@.len(),
                self.wf(),
                other.wf(),
                modulus.wf(),
                modulus.value() > 0,
                result.wf(),
                result.value() == (prefix_value(self@, i as int) * from_words(other@)) % modulus.value(),
            decreases a_len - i,
        {
            let a = self.words[i];
            proof {
                assert(other@.take(0) =~= Seq::<u64>::empty());
                assert(prefix_value(other@, 0) == 0);
            }
            let mut j: usize = 0;
            while j < b_len
                invariant
                    i < a_len,
                    j <= b_len,
                    a_len == self@.len(),
                    b_len == other@.len(),
                    a == self@[i as int],
                    self.wf(),
                    other.wf(),
                    modulus.wf(),
                    modulus.value() > 0,
                    result.wf(),
                    result.value() == (prefix_value(self@, i as int) * from_words(other@) + (
                    a as int) * word_exp(i as nat) * prefix_value(other@, j as int)) % (
                    modulus.value() as int),
                decreases b_len - j,
            {
                let b = other.words[j];
                proof {
                    let base = WORD_BASE as int;
                    assert((a as int) * (b as int) < base * base) by (nonlinear_arith)
                        requires
                            0 <= (a as int) && (a as int) < base,
                            0 <= (b as int) && (b as int) < base,
                    ;
                }
                let product: u128 = a as u128 * b as u128;
                let high: u64 = (product / WORD_BASE) as u64;
                let low: u64 = (product % WORD_BASE) as u64;
                let frag = Self::fragment(low, high, i, j);
                let reduced_frag = frag.rem_pos(modulus);
                let sum = result.add(&reduced_frag);
                let new_result = sum.rem_pos(modulus);
                proof {
                    lemma_fundamental_div_mod(product as int, WORD_BASE as int);
                    lemma_prefix_step(other@, j as int);
                    lemma_word_exp_adds(i as nat, j as nat);
                    let m = modulus.value() as int;
                    let ei = word_exp(i as nat);
                    let ej = word_exp(j as nat);
                    let ai = a as int;
                    let bw = other@[j as int] as int;
                    let pj = prefix_value(other@, j as int) as int;
                    let partial = prefix_value(self@, i as int) * from_words(other@) + ai * ei
                        * pj;
                    assert(b == word_at(other@, j as int));
                    assert(frag.value() == (ai * bw) * (ei * ej));
                    lemma_add_mod_noop(partial, frag.value() as int, m);
                    assert(ai * ei * pj + (ai * bw) * (ei * ej) == ai * ei * (pj + bw * ej))
                        by (nonlinear_arith);
                }
                result = new_result;
                j = j + 1;
            }
            proof {
                lemma_prefix_step(self@, i as int);
                lemma_prefix_all(other@, b_len as int);
                let vb = from_words(other@) as int;
                let av = prefix_value(self@, i as int) as int;
                let ai = a as int;
                let ei = word_exp(i as nat);
                assert(av * vb + ai * ei * vb == (av + ai * ei) * vb) by (nonlinear_arith);
            }
            i = i + 1;
        }
        proof {
            lemma_prefix_all(self@, a_len as int);
        }
        result
    }

    /// Modular multiplication `(self * other) % modulus`, reducing after
    /// every positional partial product; a zero modulus is reported as a
    /// division-by-zero fault.
    pub fn mod_mul(&self, other: &Self, modulus: &Self) -> (r: Result<Self, BigIntError>)
        requires
            self.wf(),
            other.wf(),
            modulus.wf(),
        ensures
            r is Ok <==> modulus.value() > 0,
            r matches Ok(v) ==> v.wf() && v.value() == (self.value() * other.value()) % modulus.value(),
            r matches Err(e) ==> e == BigIntError::DivisionByZero,
    {
        if modulus.words.len() == 0 {
            proof {
                assert(modulus@ =~= Seq::<u64>::empty());
            }
            Err(BigIntError::DivisionByZero)
        } else {
            proof {
                lemma_wf_lower_bound(modulus@);
                lemma_word_exp_pos((modulus@.len() - 1) as nat);
            }
            Ok(self.mod_mul_pos(other, modulus))
        }
    }

    /// Halves the value: every word keeps its upper neighbour's low bit
    /// as its own top bit; also reports the bit shifted out.
    fn div2(&self) -> (r: (Self, bool))
        requires
            self.wf(),
        ensures
            r.0.wf(),
            2 * r.0.value() + (if r.1 {
                1int
            } else {
                0int
            }) == self.value(),
            self.value() > 0 ==> r.0.value() < self.value(),
    {
        let n = self.words.len();
        let low_bit = n > 0 && self.words[0] % 2 == 1;
        let mut v: Vec<u64> = Vec::new();
        proof {
            assert(self@.take(0) =~= Seq::<u64>::empty());
            assert(prefix_value(self@, 0) == 0);
            crate::words::lemma_word_exp_zero();
        }
        let mut i: usize = 0;
        while i < n
            invariant
                i <= n,
                n == self@.len(),
                v@.len() == i,
                2 * from_words(v@) + (word_at(self@, 0) % 2) == prefix_value(self@, i as int) + (
                word_at(self@, i as int) % 2) * word_exp(i as nat),
            decreases n - i,
        {
            let w = self.words[i];
            let nxt = if i + 1 < n {
                self.words[i + 1]
            } else {
                0
            };
            let half: u64 = w / 2 + (nxt % 2) * 0x8000_0000_0000_0000;
            proof {
                lemma_prefix_step(self@, i as int);
                lemma_from_words_push(v@, half);
                lemma_word_exp_step(i as nat);
                assert(w == word_at(self@, i as int));
                assert(nxt == word_at(self@, i as int + 1));
                let e = word_exp(i as nat);
                let b = WORD_BASE as int;
                assert(2 * ((half as int) * e) == (2 * (w as int / 2)) * e + ((nxt as int) % 2) * (
                b * e)) by (nonlinear_arith)
                    requires
                        half as int == w as int / 2 + ((nxt as int) % 2) * (b / 2),
                        b == 0x1_0000_0000_0000_0000,
                ;
                assert(w as int == 2 * (w as int / 2) + (w as int) % 2);
                assert((2 * (w as int / 2)) * e == (w as int) * e - ((w as int) % 2) * e)
                    by (nonlinear_arith)
                    requires
                        2 * (w as int / 2) == w as int - (w as int) % 2,
                ;
            }
            v.push(half);
            i = i + 1;
        }
        proof {
            lemma_prefix_all(self@, n as int);
        }
        (Self::from_vec(v), low_bit)
    }

    /// Raises `self` to the power `exponent` by square-and-multiply on
    /// the exponent's binary representation, so the work is proportional
    /// to the exponent's bit length rather than to its numeric value.
    pub fn pow(&self, exponent: &Self) -> (r: Self)
        requires
            self.wf(),
            exponent.wf(),
        ensures
            r.wf(),
            r.value() == power_nat(self.value(), exponent.value()),
        decreases exponent.value(),
    {
        if exponent.words.len() == 0 {
            proof {
                assert(exponent@ =~= Seq::<u64>::empty());
            }
            Self::single(1)
        } else {
            proof {
                lemma_wf_lower_bound(exponent@);
                lemma_word_exp_pos((exponent@.len() - 1) as nat);
            }
            let (half, bit) = exponent.div2();
            let p = self.pow(&half);
            let sq = p.mul(&p);
            proof {
                let v = self.value();
                let h = half.value();
                lemma_power_nat_adds(v, h, h);
            }
            if bit {
                let r = sq.mul(self);
                proof {
                    let v = self.value();
                    let h = half.value();
                    lemma_power_nat_adds(v, h + h, 1);
                    reveal_with_fuel(power_nat, 2);
                    assert(power_nat(v, 1) == v * 1);
                }
                r
            } else {
                sq
            }
        }
    }

    /// Core of modular exponentiation for a positive modulus:
    /// square-and-multiply where every multiplication is immediately
    /// reduced, so the running result never exceeds the modulus. A zero
    /// exponent yields one without any reduction.
    fn mod_pow_pos(&self, exponent: &Self, modulus: &Self) -> (r: Self)
        requires
            self.wf(),
            exponent.wf(),
            modulus.wf(),
            modulus.value() > 0,
        ensures
            r.wf(),
            exponent.value() == 0 ==> r.value() == 1,
            exponent.value() > 0 ==> r.value() == power_nat(self.value(), exponent.value()) % modulus.value(),
        decreases exponent.value(),
    {
        if exponent.words.len() == 0 {
            proof {
                assert(exponent@ =~= Seq::<u64>::empty());
            }
            Self::single(1)
        } else {
            proof {
                lemma_wf_lower_bound(exponent@);
                lemma_word_exp_pos((exponent@.len() - 1) as nat);
            }
            let (half, bit) = exponent.div2();
            let p = self.mod_pow_pos(&half, modulus);
            let sq = p.mod_mul_pos(&p, modulus);
            let r = if bit {
                sq.mod_mul_pos(self, modulus)
            } else {
                sq
            };
            proof {
                let vn = self.value();
                let v = vn as int;
                let h = half.value();
                let m = modulus.value() as int;
                let e = exponent.value();
                reveal_with_fuel(power_nat, 2);
                assert(power_nat(vn, 1) == vn * 1);
                assert(e > 0);
                if h == 0 {
                    assert(bit);
                    assert(e == 1);
                    assert(p.value() == 1);
                    assert(sq.value() == 1nat % modulus.value());
                    lemma_mul_mod_noop_general(1, v, m);
                    assert(r.value() == (1 * v) % m);
                    assert(r.value() == power_nat(vn, e) % modulus.value());
                } else {
                    let ph = power_nat(vn, h) as int;
                    lemma_power_nat_adds(vn, h, h);
                    lemma_mul_mod_noop_general(ph, ph, m);
                    assert(sq.value() == (ph * ph) % m);
                    assert(sq.value() == power_nat(vn, h + h) % modulus.value());
                    if bit {
                        lemma_power_nat_adds(vn, h + h, 1);
                        lemma_mul_mod_noop_general(power_nat(vn, h + h) as int, v, m);
                        assert(r.value() == ((power_nat(vn, h + h) as int) * v) % m);
                        assert(r.value() == power_nat(vn, e) % modulus.value());
                    } else {
                        assert(e == h + h);
                        assert(r.value() == power_nat(vn, e) % modulus.value());
                    }
                }
            }
            r
        }
    }

    /// Modular exponentiation `self^exponent % modulus` by
    /// square-and-multiply with a reduction after every multiplication,
    /// so the cost is proportional to the exponent's bit length. A zero
    /// exponent yields one unreduced; a zero modulus is reported as a
    /// division-by-zero fault.
    pub fn mod_pow(&self, exponent: &Self, modulus: &Self) -> (r: Result<Self, BigIntError>)
        requires
            self.wf(),
            exponent.wf(),
            modulus.wf(),
        ensures
            r is Ok <==> modulus.value() > 0,
            r matches Ok(v) ==> v.wf() && (exponent.value() == 0 ==> v.value() == 1) && (
            exponent.value() > 0 ==> v.value() == power_nat(self.value(), exponent.value()) % modulus.value()),
            r matches Err(e) ==> e == BigIntError::DivisionByZero,
    {
        if modulus.words.len() == 0 {
            proof {
                assert(modulus@ =~= Seq::<u64>::empty());
            }
            Err(BigIntError::DivisionByZero)
        } else {
            proof {
                lemma_wf_lower_bound(modulus@);
                lemma_word_exp_pos((modulus@.len() - 1) as nat);
            }
            Ok(self.mod_pow_pos(exponent, modulus))
        }
    }
}

} // verus!
