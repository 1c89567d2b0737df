//! Prime numbers, as far as the spawn sampler needs them.

use vstd::arithmetic::div_mod::{
    lemma_div_is_ordered_by_denominator, lemma_fundamental_div_mod, lemma_mod_multiples_basic,
};
use vstd::arithmetic::mul::lemma_mul_is_commutative;
use vstd::prelude::*;

verus! {

/// `d` divides `n`.
pub open spec fn divides(d: int, n: int) -> bool {
    n % d == 0
}

/// `n` is a prime number: it is greater than one, and no number between
/// one and itself divides it.
pub open spec fn is_prime_spec(n: int) -> bool {
    n > 1 && forall|d: int| 1 < d < n ==> !#[trigger] divides(d, n)
}

/// `p` is the least prime that is not below `n`.
pub open spec fn is_next_prime(n: int, p: int) -> bool {
    &&& n <= p
    &&& is_prime_spec(p)
    &&& forall|q: int| n <= q < p ==> !#[trigger] is_prime_spec(q)
}

/// A number that a multiple of `k` divides is divided by `k`.
pub proof fn lemma_divides_trans(k: int, d: int, n: int)
    requires
        k > 0,
        d > 0,
        n >= 0,
        divides(k, d),
        divides(d, n),
    ensures
        divides(k, n),
{
    lemma_fundamental_div_mod(n, d);
    lemma_fundamental_div_mod(d, k);
    let a = d / k;
    let b = n / d;
    assert(n == (a * b) * k) by (nonlinear_arith)
        requires
            n == d * b,
            d == k * a,
    ;
    lemma_mod_multiples_basic(a * b, k);
}

/// A divisor of `n` other than one and `n` comes with a second one, and
/// the smaller of the two is not above the square root of `n`.
pub proof fn lemma_small_divisor(n: int, d: int, bound: int)
    requires
        n > 1,
        1 < d < n,
        divides(d, n),
        bound > 0,
        d >= bound,
        n / bound < bound,
    ensures
        1 < n / d < bound,
        divides(n / d, n),
{
    let q = n / d;
    lemma_fundamental_div_mod(n, d);
    lemma_div_is_ordered_by_denominator(n, bound, d);
    assert(n == d * q);
    assert(q > 1) by (nonlinear_arith)
        requires
            n == d * q,
            1 < d < n,
    ;
    lemma_mul_is_commutative(d, q);
    lemma_mod_multiples_basic(d, q);
}

/// Whether `n` is a prime number. After two and three, only the numbers
/// next to the multiples of six are tried as divisors, up to the square
/// root of `n`.
pub fn is_prime(n: usize) -> (prime: bool)
    ensures
        prime == is_prime_spec(n as int),
{
    if n <= 1 {
        return false;
    }
    if n <= 3 {
        assert(is_prime_spec(n as int)) by {
            assert(3int % 2 != 0);
        }
        return true;
    }
    if n % 2 == 0 || n % 3 == 0 {
        assert(divides(2, n as int) || divides(3, n as int));
        return false;
    }
    proof {
        if divides(4, n as int) {
            assert(divides(2, 4));
            lemma_divides_trans(2, 4, n as int);
        }
    }
    let mut i: usize = 5;
    while i <= n / i
        invariant
            n > 3,
            5 <= i <= n,
            i % 6 == 5,
            !divides(2, n as int),
            !divides(3, n as int),
            forall|d: int| 1 < d < i ==> !#[trigger] divides(d, n as int),
        decreases n - i,
    {
        assert(i * i <= n && i + 6 <= n) by (nonlinear_arith)
            requires
                5 <= i <= n / i,
                n > 3,
        ;
        if n % i == 0 || n % (i + 2) == 0 {
            assert(divides(i as int, n as int) || divides(i + 2, n as int));
            return false;
        }
        proof {
            assert forall|d: int| 1 < d < i + 6 implies !#[trigger] divides(d, n as int) by {
                if d >= i && divides(d, n as int) {
                    if d == i + 1 || d == i + 3 || d == i + 5 {
                        assert(divides(2, d));
                        lemma_divides_trans(2, d, n as int);
                    } else if d == i + 4 {
                        assert(divides(3, d));
                        lemma_divides_trans(3, d, n as int);
                    }
                }
            }
        }
        i = i + 6;
    }
    proof {
        assert forall|d: int| 1 < d < n implies !#[trigger] divides(d, n as int) by {
            if d >= i && divides(d, n as int) {
                lemma_small_divisor(n as int, d, i as int);
                assert(divides(n as int / d, n as int));
            }
        }
    }
    true
}

/// The least prime that is not below `n`, if the machine can hold it.
pub fn next_prime(n: usize) -> (found: Option<usize>)
    ensures
        match found {
            Some(p) => is_next_prime(n as int, p as int),
            None => forall|q: int| n <= q <= usize::MAX ==> !#[trigger] is_prime_spec(q),
        },
{
    let mut p: usize = n;
    loop
        invariant
            n <= p,
            forall|q: int| n <= q < p ==> !#[trigger] is_prime_spec(q),
        decreases usize::MAX - p,
    {
        if is_prime(p) {
            return Some(p);
        }
        if p == usize::MAX {
            return None;
        }
        p = p + 1;
    }
}

} // verus!
