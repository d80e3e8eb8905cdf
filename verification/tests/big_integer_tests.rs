use big_integer::BigIntError;
use big_integer::BigInteger;
use big_integer::Comparison;

/// Reference schoolbook multiplication over word slices, accumulating
/// column by column with u128 carries — independent of the library's
/// fragment-and-add algorithm.
fn ref_mul(a: &[u64], b: &[u64]) -> Vec<u64> {
    let mut out = vec![0u64; a.len() + b.len() + 1];
    for i in 0..a.len() {
        let mut carry: u128 = 0;
        for j in 0..b.len() {
            let cur = out[i + j] as u128 + a[i] as u128 * b[j] as u128 + carry;
            out[i + j] = cur as u64;
            carry = cur >> 64;
        }
        let mut k = i + b.len();
        while carry > 0 {
            let cur = out[k] as u128 + carry;
            out[k] = cur as u64;
            carry = cur >> 64;
            k += 1;
        }
    }
    while out.last() == Some(&0) {
        out.pop();
    }
    out
}

/// Reference addition over word slices with u128 carries.
fn ref_add(a: &[u64], b: &[u64]) -> Vec<u64> {
    let n = a.len().max(b.len());
    let mut out = Vec::new();
    let mut carry: u128 = 0;
    for i in 0..n {
        let wa = if i < a.len() { a[i] } else { 0 };
        let wb = if i < b.len() { b[i] } else { 0 };
        let cur = wa as u128 + wb as u128 + carry;
        out.push(cur as u64);
        carry = cur >> 64;
    }
    if carry > 0 {
        out.push(carry as u64);
    }
    while out.last() == Some(&0) {
        out.pop();
    }
    out
}

/// Reference remainder of a multi-word value by a single-word modulus,
/// by Horner evaluation from the most-significant word.
fn ref_mod(words: &[u64], m: u64) -> u64 {
    let base_mod = ((u64::MAX as u128 + 1) % m as u128) as u64;
    let mut acc: u128 = 0;
    for &w in words.iter().rev() {
        acc = (acc * base_mod as u128 + (w % m) as u128) % m as u128;
    }
    acc as u64
}

/// Reference modular exponentiation with a multi-word exponent, by
/// square-and-multiply over the exponent's bits, all in u128 arithmetic.
fn ref_mod_pow(base: &[u64], exponent: &[u64], m: u64) -> u64 {
    let b = ref_mod(base, m) as u128;
    let mu = m as u128;
    let mut r: u128 = 1 % mu;
    for &word in exponent.iter().rev() {
        for bit in (0..64).rev() {
            r = r * r % mu;
            if word >> bit & 1 == 1 {
                r = r * b % mu;
            }
        }
    }
    r as u64
}

#[test]
fn normalization_strips_trailing_zeros() {
    let a = BigInteger::from_vec(vec![1, 2, 0, 0]);
    assert_eq!(a.words(), &vec![1, 2]);
    let z = BigInteger::from_vec(vec![0, 0, 0]);
    assert!(z.words().is_empty());
    assert!(BigInteger::new().words().is_empty());
    let kept = BigInteger::from_vec(vec![0, 7]);
    assert_eq!(kept.words(), &vec![0, 7]);
}

#[test]
fn add_commutative() {
    let a = BigInteger::from_vec(vec![5, u64::MAX, 7]);
    let b = BigInteger::from_vec(vec![9, 3]);
    let ab = a.add(&b);
    let ba = b.add(&a);
    assert_eq!(ab.words(), ba.words());
    assert_eq!(ab.words(), &ref_add(&[5, u64::MAX, 7], &[9, 3]));
}

#[test]
fn mul_commutative() {
    let a = BigInteger::from_vec(vec![2, 2]);
    let b = BigInteger::from_vec(vec![3, 2, 5]);
    let ab = a.mul(&b);
    let ba = b.mul(&a);
    assert_eq!(ab.words(), ba.words());
}

#[test]
fn add_zero_identity() {
    let a = BigInteger::from_vec(vec![4, 0, 9]);
    let z = BigInteger::new();
    let s = a.add(&z);
    assert_eq!(s.words(), a.words());
}

#[test]
fn sub_self_is_zero() {
    let a = BigInteger::from_vec(vec![13, 77, 1]);
    let d = a.sub(&a).unwrap();
    assert!(d.words().is_empty());
}

#[test]
fn sub_underflow_faults() {
    let a = BigInteger::from_vec(vec![3]);
    let b = BigInteger::from_vec(vec![4]);
    assert_eq!(a.sub(&b), Err(BigIntError::Underflow));
    let c = BigInteger::from_vec(vec![u64::MAX]);
    let d = BigInteger::from_vec(vec![0, 1]);
    assert_eq!(c.sub(&d), Err(BigIntError::Underflow));
}

#[test]
fn sub_multiword_borrow() {
    // (2^64 + 2^128) - 5 * 2^64 == (2^64 - 4) * 2^64
    let a = BigInteger::from_vec(vec![0, 1, 1]);
    let b = BigInteger::from_vec(vec![0, 5]);
    let d = a.sub(&b).unwrap();
    assert_eq!(d.words(), &vec![0, u64::MAX - 3]);
}

#[test]
fn mul_one_and_zero() {
    let a = BigInteger::from_vec(vec![8, 0, 3]);
    let one = BigInteger::from_vec(vec![1]);
    let zero = BigInteger::new();
    assert_eq!(a.mul(&one).words(), a.words());
    assert!(a.mul(&zero).words().is_empty());
}

#[test]
fn rem_is_in_range() {
    // 2^64 mod 16*10^18
    let a = BigInteger::from_vec(vec![0, 1]);
    let m = BigInteger::from_vec(vec![16_000_000_000_000_000_000]);
    let r = a.rem(&m).unwrap();
    assert_eq!(r.words(), &vec![2_446_744_073_709_551_616]);
    assert_eq!(r.compare(&m), Comparison::Less);
}

#[test]
fn rem_below_modulus_is_identity() {
    let a = BigInteger::from_vec(vec![41]);
    let m = BigInteger::from_vec(vec![0, 1]);
    let r = a.rem(&m).unwrap();
    assert_eq!(r.words(), a.words());
}

#[test]
fn rem_of_exact_multiple_is_zero() {
    let m = BigInteger::from_vec(vec![12_345]);
    let r = m.rem(&m).unwrap();
    assert!(r.words().is_empty());
    let double = m.add(&m);
    let r2 = double.rem(&m).unwrap();
    assert!(r2.words().is_empty());
}

#[test]
fn rem_by_zero_faults() {
    let a = BigInteger::from_vec(vec![5]);
    let z = BigInteger::new();
    assert_eq!(a.rem(&z), Err(BigIntError::DivisionByZero));
}

#[test]
fn pow_zero_and_one() {
    let a = BigInteger::from_vec(vec![2, 7, 9]);
    let zero = BigInteger::new();
    let one = BigInteger::from_vec(vec![1]);
    assert_eq!(a.pow(&zero).words(), &vec![1]);
    assert_eq!(a.pow(&one).words(), a.words());
    // A zero base with a positive exponent yields zero.
    assert!(BigInteger::new().pow(&one).words().is_empty());
}

#[test]
fn pow_matches_repeated_multiplication() {
    let a = BigInteger::from_vec(vec![2, 7, 9]);
    let e = BigInteger::from_vec(vec![5]);
    let p = a.pow(&e);
    let mut expected = vec![1u64];
    for _ in 0..5 {
        expected = ref_mul(&expected, &[2, 7, 9]);
    }
    assert_eq!(p.words(), &expected);
}

#[test]
fn pow_of_two_shifts_words() {
    // 2^64 occupies exactly one higher word.
    let two = BigInteger::from_vec(vec![2]);
    let e = BigInteger::from_vec(vec![64]);
    assert_eq!(two.pow(&e).words(), &vec![0, 1]);
}

#[test]
fn mod_pow_matches_pow_then_rem() {
    let a = BigInteger::from_vec(vec![7]);
    let e = BigInteger::from_vec(vec![13]);
    let m = BigInteger::from_vec(vec![1000]);
    let mp = a.mod_pow(&e, &m).unwrap();
    let pr = a.pow(&e).rem(&m).unwrap();
    assert_eq!(mp.words(), pr.words());
    // 7^13 == 96889010407, so the remainder by 1000 is 407.
    assert_eq!(mp.words(), &vec![407]);
}

#[test]
fn mod_pow_zero_exponent_is_unreduced_one() {
    let a = BigInteger::from_vec(vec![9]);
    let zero = BigInteger::new();
    let m = BigInteger::from_vec(vec![5]);
    assert_eq!(a.mod_pow(&zero, &m).unwrap().words(), &vec![1]);
    // Even a modulus of one leaves the initial one unreduced.
    let one = BigInteger::from_vec(vec![1]);
    assert_eq!(a.mod_pow(&zero, &one).unwrap().words(), &vec![1]);
}

#[test]
fn mod_pow_by_zero_modulus_faults() {
    let a = BigInteger::from_vec(vec![9]);
    let e = BigInteger::from_vec(vec![2]);
    let z = BigInteger::new();
    assert_eq!(a.mod_pow(&e, &z), Err(BigIntError::DivisionByZero));
}

#[test]
fn carry_out_at_word_boundary() {
    let a = BigInteger::from_vec(vec![u64::MAX]);
    let s = a.add(&a);
    assert_eq!(s.words(), &vec![u64::MAX - 1, 1]);
}

#[test]
fn multiword_multiply_matches_reference() {
    // (2 + 2x)(3 + 2x + 5x^2) evaluated in base 2^64, checked against an
    // independent column-accumulation multiplier.
    let a = BigInteger::from_vec(vec![2, 2]);
    let b = BigInteger::from_vec(vec![3, 2, 5]);
    let p = a.mul(&b);
    assert_eq!(p.words(), &ref_mul(&[2, 2], &[3, 2, 5]));
    let c = BigInteger::from_vec(vec![u64::MAX, 2]);
    let d = BigInteger::from_vec(vec![2]);
    assert_eq!(c.mul(&d).words(), &ref_mul(&[u64::MAX, 2], &[2]));
}

#[test]
fn mod_pow_scenario_multiword_exponent() {
    // (3 + 2^64) ^ (5 + 6*2^64 + 15*2^128) mod 1_591_181_525_541,
    // checked against an independent u128 modular exponentiation.
    let base = BigInteger::from_vec(vec![3, 1]);
    let e = BigInteger::from_vec(vec![5, 6, 15]);
    let m = BigInteger::from_vec(vec![1_591_181_525_541]);
    let r = base.mod_pow(&e, &m).unwrap();
    let expected = ref_mod_pow(&[3, 1], &[5, 6, 15], 1_591_181_525_541);
    assert_eq!(r.words(), &vec![expected]);
}

#[test]
fn mod_mul_scenario_multiword_operands() {
    let a = BigInteger::from_vec(vec![5, 6, 15]);
    let b = BigInteger::from_vec(vec![3, 1]);
    let m = BigInteger::from_vec(vec![1_591_181_525_541]);
    let r = a.mod_mul(&b, &m).unwrap();
    let mu = 1_591_181_525_541u64;
    let expected = (ref_mod(&[5, 6, 15], mu) as u128 * ref_mod(&[3, 1], mu) as u128
        % mu as u128) as u64;
    assert_eq!(r.words(), &vec![expected]);
}

#[test]
fn mod_mul_by_zero_modulus_faults() {
    let a = BigInteger::from_vec(vec![5]);
    let b = BigInteger::from_vec(vec![3]);
    let z = BigInteger::new();
    assert_eq!(a.mod_mul(&b, &z), Err(BigIntError::DivisionByZero));
}

#[test]
fn compare_orders_by_value() {
    let small = BigInteger::from_vec(vec![u64::MAX]);
    let large = BigInteger::from_vec(vec![0, 1]);
    assert_eq!(small.compare(&large), Comparison::Less);
    assert_eq!(large.compare(&small), Comparison::Greater);
    assert_eq!(small.compare(&small), Comparison::Equal);
    // Equal lengths: the most-significant differing word decides.
    let x = BigInteger::from_vec(vec![9, 5]);
    let y = BigInteger::from_vec(vec![1, 6]);
    assert_eq!(x.compare(&y), Comparison::Less);
    let w = BigInteger::from_vec(vec![9, 5]);
    let v = BigInteger::from_vec(vec![1, 5]);
    assert_eq!(w.compare(&v), Comparison::Greater);
    assert!(small.lt(&large));
    assert!(small.le(&small));
    assert!(!large.le(&small));
}
