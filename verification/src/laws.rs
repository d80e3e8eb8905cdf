//! Algebraic laws of the `BigInteger` operations, stated over the values
//! and canonical word sequences that the operations' contracts use.

use crate::big_integer::BigInteger;
use crate::words::lemma_canonical_unique;
use crate::words::lemma_zero_empty;
use crate::words::power_nat;
use vstd::arithmetic::div_mod::lemma_mod_division_less_than_divisor;
use vstd::arithmetic::div_mod::lemma_small_mod;
use vstd::prelude::*;

verus! {

/// Canonical representations are unique: two well-formed integers with
/// the same value have the same word sequence.
pub proof fn lemma_value_determines_representation(a: BigInteger, b: BigInteger)
    requires
        a.wf(),
        b.wf(),
        a.value() == b.value(),
    ensures
        a@ == b@,
{
    lemma_canonical_unique(a@, b@);
}

/// A well-formed integer with value zero is the empty word sequence.
pub proof fn lemma_zero_is_empty(a: BigInteger)
    requires
        a.wf(),
        a.value() == 0,
    ensures
        a@ =~= Seq::<u64>::empty(),
{
    lemma_zero_empty(a@);
}

/// Addition is commutative: the sums taken in either order are the same
/// integer.
pub proof fn lemma_add_commutative(x: BigInteger, y: BigInteger, xy: BigInteger, yx: BigInteger)
    requires
        xy.wf(),
        xy.value() == x.value() + y.value(),
        yx.wf(),
        yx.value() == y.value() + x.value(),
    ensures
        xy@ == yx@,
{
    lemma_canonical_unique(xy@, yx@);
}

/// Multiplication is commutative: the products taken in either order are
/// the same integer.
pub proof fn lemma_mul_commutative(x: BigInteger, y: BigInteger, xy: BigInteger, yx: BigInteger)
    requires
        xy.wf(),
        xy.value() == x.value() * y.value(),
        yx.wf(),
        yx.value() == y.value() * x.value(),
    ensures
        xy@ == yx@,
{
    vstd::arithmetic::mul::lemma_mul_is_commutative(x.value() as int, y.value() as int);
    lemma_canonical_unique(xy@, yx@);
}

/// Zero is the additive identity: adding zero returns the same integer.
pub proof fn lemma_add_zero_identity(a: BigInteger, z: BigInteger, s: BigInteger)
    requires
        a.wf(),
        z.value() == 0,
        s.wf(),
        s.value() == a.value() + z.value(),
    ensures
        s@ == a@,
{
    lemma_canonical_unique(s@, a@);
}

/// Subtracting an integer from itself yields zero, the empty sequence.
pub proof fn lemma_sub_self_is_zero(a: BigInteger, d: BigInteger)
    requires
        d.wf(),
        d.value() == a.value() - a.value(),
    ensures
        d@ =~= Seq::<u64>::empty(),
{
    lemma_zero_empty(d@);
}

/// One is the multiplicative identity: multiplying by one returns the
/// same integer.
pub proof fn lemma_mul_one_identity(a: BigInteger, one: BigInteger, p: BigInteger)
    requires
        a.wf(),
        one.value() == 1,
        p.wf(),
        p.value() == a.value() * one.value(),
    ensures
        p@ == a@,
{
    lemma_canonical_unique(p@, a@);
}

/// Multiplying by zero yields zero, the empty sequence.
pub proof fn lemma_mul_zero(a: BigInteger, z: BigInteger, p: BigInteger)
    requires
        z.value() == 0,
        p.wf(),
        p.value() == a.value() * z.value(),
    ensures
        p@ =~= Seq::<u64>::empty(),
{
    assert(a.value() * 0 == 0) by (nonlinear_arith);
    lemma_zero_empty(p@);
}

/// The remainder by a positive modulus lies in `[0, modulus)`, and a
/// value already below the modulus is its own remainder.
pub proof fn lemma_rem_range(a: BigInteger, m: BigInteger)
    requires
        m.value() > 0,
    ensures
        0 <= a.value() % m.value() < m.value(),
        a.value() < m.value() ==> a.value() % m.value() == a.value(),
{
    lemma_mod_division_less_than_divisor(a.value() as int, m.value() as int);
    if a.value() < m.value() {
        lemma_small_mod(a.value(), m.value());
    }
}

/// A zero exponent yields one.
pub proof fn lemma_pow_zero_is_one(a: BigInteger)
    ensures
        power_nat(a.value(), 0) == 1,
{
}

/// An exponent of one returns the same integer.
pub proof fn lemma_pow_one_is_self(a: BigInteger, p: BigInteger)
    requires
        a.wf(),
        p.wf(),
        p.value() == power_nat(a.value(), 1),
    ensures
        p@ == a@,
{
    reveal_with_fuel(power_nat, 2);
    assert(power_nat(a.value(), 1) == a.value() * 1);
    lemma_canonical_unique(p@, a@);
}

/// Modular exponentiation agrees with exponentiation followed by a
/// remainder, for every positive modulus except the corner where the
/// exponent is zero and the modulus one (there the unreduced one is
/// returned, while the remainder of one by one is zero).
pub proof fn lemma_mod_pow_matches_pow(
    a: BigInteger,
    e: BigInteger,
    m: BigInteger,
    mp: BigInteger,
    pr: BigInteger,
)
    requires
        m.value() > 0,
        !(e.value() == 0 && m.value() == 1),
        mp.wf(),
        e.value() == 0 ==> mp.value() == 1,
        e.value() > 0 ==> mp.value() == power_nat(a.value(), e.value()) % m.value(),
        pr.wf(),
        pr.value() == power_nat(a.value(), e.value()) % m.value(),
    ensures
        mp@ == pr@,
{
    if e.value() == 0 {
        lemma_small_mod(1, m.value());
    }
    lemma_canonical_unique(mp@, pr@);
}

} // verus!
