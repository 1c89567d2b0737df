//! The arithmetic behind the bag sampler: stepping round a prime modulus
//! comes upon every remainder exactly once.

use crate::primes::{divides, is_prime_spec};
use vstd::arithmetic::div_mod::{
    lemma_fundamental_div_mod, lemma_mod_bound, lemma_mod_equivalence, lemma_mod_multiples_basic,
    lemma_mod_multiples_vanish, lemma_mul_mod_noop_general, lemma_small_mod,
};
use vstd::prelude::*;
use vstd::set_lib::{lemma_int_range, lemma_subset_equality, set_int_range};

verus! {

/// Where the cursor stands after `k` steps of length `skip` round the
/// modulus `prime`.
pub open spec fn cursor(prime: int, skip: int, k: int) -> int {
    (k * skip) % prime
}

/// The values below `count` that the cursor comes upon in its first `k`
/// steps, in their order.
pub open spec fn emitted(count: int, prime: int, skip: int, k: int) -> Seq<usize>
    decreases k,
{
    if k <= 0 {
        Seq::empty()
    } else {
        let before = emitted(count, prime, skip, k - 1);
        if cursor(prime, skip, k) < count {
            before.push(cursor(prime, skip, k) as usize)
        } else {
            before
        }
    }
}

/// A step length that the modulus does not divide, and a count that the
/// modulus covers.
pub open spec fn sampler_ok(count: int, prime: int, skip: int) -> bool {
    &&& is_prime_spec(prime)
    &&& prime <= usize::MAX
    &&& 0 <= count <= prime
    &&& 0 < skip < prime
}

/// A prime divides no product of two positive numbers below it.
pub proof fn lemma_prime_product(prime: int, s: int, m: int)
    requires
        is_prime_spec(prime),
        0 < s < prime,
        0 < m < prime,
    ensures
        (s * m) % prime != 0,
    decreases m,
{
    if (s * m) % prime == 0 {
        let q = prime / m;
        let r = prime % m;
        lemma_fundamental_div_mod(prime, m);
        lemma_mod_bound(prime, m);
        if r == 0 {
            assert(divides(m, prime));
            assert(m == 1);
            assert(s * m == s) by (nonlinear_arith)
                requires
                    m == 1,
            ;
            lemma_small_mod(s as nat, prime as nat);
        } else {
            // s * r == s * prime - q * (s * m), and the prime divides both
            assert(s * r == prime * s - q * (s * m)) by (nonlinear_arith)
                requires
                    prime == m * q + r,
            ;
            lemma_mul_mod_noop_general(q, s * m, prime);
            assert((q * (s * m)) % prime == 0) by {
                assert((q * ((s * m) % prime)) % prime == (q * (s * m)) % prime);
                assert(q * 0 == 0);
                lemma_small_mod(0, prime as nat);
            }
            lemma_mod_multiples_vanish(s, -(q * (s * m)), prime);
            assert((prime * s + (-(q * (s * m)))) % prime == (-(q * (s * m))) % prime);
            lemma_mod_equivalence(0, q * (s * m), prime);
            assert((0 - q * (s * m)) % prime == 0);
            assert((s * r) % prime == 0);
            lemma_prime_product(prime, s, r);
        }
    }
}

/// Two different numbers of steps, neither beyond the modulus, leave the
/// cursor at different places; only after all of them is it back at zero.
pub proof fn lemma_cursor_injective(prime: int, skip: int, a: int, b: int)
    requires
        is_prime_spec(prime),
        0 < skip < prime,
        0 <= a < b <= prime,
        !(a == 0 && b == prime),
    ensures
        cursor(prime, skip, a) != cursor(prime, skip, b),
        0 <= cursor(prime, skip, a) < prime,
        0 <= cursor(prime, skip, b) < prime,
{
    lemma_mod_bound(a * skip, prime);
    lemma_mod_bound(b * skip, prime);
    if cursor(prime, skip, a) == cursor(prime, skip, b) {
        lemma_mod_equivalence(b * skip, a * skip, prime);
        assert(b * skip - a * skip == skip * (b - a)) by (nonlinear_arith);
        if b - a < prime {
            lemma_prime_product(prime, skip, b - a);
        } else {
            assert(a == 0 && b == prime);
        }
    }
}

/// After as many steps as the modulus is large the cursor is back at zero.
pub proof fn lemma_cursor_round(prime: int, skip: int)
    requires
        prime > 0,
    ensures
        cursor(prime, skip, prime) == 0,
        cursor(prime, skip, 0) == 0,
{
    lemma_mod_multiples_basic(skip, prime);
    assert(prime * skip == skip * prime) by (nonlinear_arith);
    assert(0 * skip == 0);
    lemma_small_mod(0, prime as nat);
}

/// One step more moves the cursor on by the step length, round the
/// modulus.
pub proof fn lemma_cursor_next(prime: int, skip: int, k: int)
    requires
        prime > 0,
        0 <= skip < prime,
        0 <= k,
    ensures
        cursor(prime, skip, k + 1) == if cursor(prime, skip, k) + skip >= prime {
            cursor(prime, skip, k) + skip - prime
        } else {
            cursor(prime, skip, k) + skip
        },
        0 <= cursor(prime, skip, k) < prime,
{
    let c = cursor(prime, skip, k);
    lemma_mod_bound(k * skip, prime);
    assert((k + 1) * skip == k * skip + skip) by (nonlinear_arith);
    lemma_fundamental_div_mod(k * skip, prime);
    let q = (k * skip) / prime;
    // (k + 1) * skip == prime * q + (c + skip)
    if c + skip >= prime {
        assert((k + 1) * skip == prime * (q + 1) + (c + skip - prime)) by (nonlinear_arith)
            requires
                (k + 1) * skip == k * skip + skip,
                k * skip == prime * q + c,
        ;
        lemma_mod_multiples_vanish(q + 1, c + skip - prime, prime);
        lemma_small_mod((c + skip - prime) as nat, prime as nat);
    } else {
        lemma_mod_multiples_vanish(q, c + skip, prime);
        lemma_small_mod((c + skip) as nat, prime as nat);
    }
}

/// The places of the cursor after one to `k` steps.
pub open spec fn visited(prime: int, skip: int, k: int) -> Set<int> {
    Set::new(|v: int| exists|j: int| 1 <= j <= k && #[trigger] cursor(prime, skip, j) == v)
}

/// In its first `k` steps the cursor comes upon `k` different places.
pub proof fn lemma_visited_len(prime: int, skip: int, k: int)
    requires
        is_prime_spec(prime),
        0 < skip < prime,
        0 <= k <= prime,
    ensures
        visited(prime, skip, k).finite(),
        visited(prime, skip, k).len() == k,
        visited(prime, skip, k).subset_of(set_int_range(0, prime)),
    decreases k,
{
    if k == 0 {
        assert(visited(prime, skip, 0) =~= Set::<int>::empty());
    } else {
        lemma_visited_len(prime, skip, k - 1);
        let v = cursor(prime, skip, k);
        lemma_mod_bound(k * skip, prime);
        assert(!visited(prime, skip, k - 1).contains(v)) by {
            if visited(prime, skip, k - 1).contains(v) {
                let j = choose|j: int| 1 <= j <= k - 1 && #[trigger] cursor(prime, skip, j) == v;
                lemma_cursor_injective(prime, skip, j, k);
            }
        }
        assert forall|x: int|
            visited(prime, skip, k).contains(x) <==> visited(prime, skip, k - 1).insert(
                v,
            ).contains(x) by {
            if visited(prime, skip, k).contains(x) {
                let j = choose|j: int| 1 <= j <= k && #[trigger] cursor(prime, skip, j) == x;
                if j < k {
                    assert(1 <= j <= k - 1 && cursor(prime, skip, j) == x);
                }
            }
            if visited(prime, skip, k - 1).contains(x) {
                let j = choose|j: int| 1 <= j <= k - 1 && #[trigger] cursor(prime, skip, j) == x;
                assert(1 <= j <= k && cursor(prime, skip, j) == x);
            }
            if x == v {
                assert(1 <= k <= k && cursor(prime, skip, k) == x);
            }
        }
        assert(visited(prime, skip, k) =~= visited(prime, skip, k - 1).insert(v));
    }
}

/// Once round the modulus, the cursor has been at every place below it.
pub proof fn lemma_cursor_surjective(prime: int, skip: int, v: int)
    requires
        is_prime_spec(prime),
        0 < skip < prime,
        0 <= v < prime,
    ensures
        exists|j: int| 1 <= j <= prime && #[trigger] cursor(prime, skip, j) == v,
{
    lemma_visited_len(prime, skip, prime);
    lemma_int_range(0, prime);
    lemma_subset_equality(visited(prime, skip, prime), set_int_range(0, prime));
    assert(set_int_range(0, prime).contains(v));
    assert(visited(prime, skip, prime).contains(v));
}

/// What the first `k` steps emit: values below the count, none twice, and
/// exactly those that the cursor has been at.
pub proof fn lemma_emitted(count: int, prime: int, skip: int, k: int)
    requires
        sampler_ok(count, prime, skip),
        0 <= k <= prime,
    ensures
        emitted(count, prime, skip, k).no_duplicates(),
        emitted(count, prime, skip, k).len() <= k,
        forall|i: int|
            0 <= i < emitted(count, prime, skip, k).len() ==> (#[trigger] emitted(
                count,
                prime,
                skip,
                k,
            )[i]) < count,
        forall|v: usize|
            #![trigger emitted(count, prime, skip, k).contains(v)]
            emitted(count, prime, skip, k).contains(v) <==> v < count && exists|j: int|
                1 <= j <= k && #[trigger] cursor(prime, skip, j) == v,
    decreases k,
{
    if k > 0 {
        lemma_emitted(count, prime, skip, k - 1);
        let before = emitted(count, prime, skip, k - 1);
        let now = emitted(count, prime, skip, k);
        let c = cursor(prime, skip, k);
        lemma_mod_bound(k * skip, prime);
        if c < count {
            let value = c as usize;
            assert(!before.contains(value)) by {
                if before.contains(value) {
                    let j = choose|j: int|
                        1 <= j <= k - 1 && #[trigger] cursor(prime, skip, j) == value;
                    lemma_cursor_injective(prime, skip, j, k);
                }
            }
            assert forall|a: int, b: int| 0 <= a < now.len() && 0 <= b < now.len() && a
                != b implies now[a] != now[b] by {
                if a == before.len() {
                    assert(before.contains(before[b]));
                } else if b == before.len() {
                    assert(before.contains(before[a]));
                }
            }
        }
        assert forall|v: usize|
            #![trigger now.contains(v)]
            now.contains(v) <==> v < count && exists|j: int|
                1 <= j <= k && #[trigger] cursor(prime, skip, j) == v by {
            if c < count {
                if now.contains(v) {
                    let i = choose|i: int| 0 <= i < now.len() && now[i] == v;
                    if i < before.len() {
                        assert(before.contains(v));
                    }
                }
                if v == c {
                    assert(now[before.len() as int] == v);
                    assert(1 <= k <= k && cursor(prime, skip, k) == v);
                }
                if before.contains(v) {
                    let i = choose|i: int| 0 <= i < before.len() && before[i] == v;
                    assert(now[i] == v);
                }
            }
            if before.contains(v) {
                let j = choose|j: int| 1 <= j <= k - 1 && #[trigger] cursor(prime, skip, j) == v;
                assert(1 <= j <= k && cursor(prime, skip, j) == v);
            }
            if v < count && exists|j: int| 1 <= j <= k && #[trigger] cursor(prime, skip, j) == v {
                let j = choose|j: int| 1 <= j <= k && #[trigger] cursor(prime, skip, j) == v;
                if j < k {
                    assert(1 <= j <= k - 1 && cursor(prime, skip, j) == v);
                }
            }
        }
    } else {
        assert forall|v: usize|
            #![trigger emitted(count, prime, skip, k).contains(v)]
            !emitted(count, prime, skip, k).contains(v) by {}
    }
}

/// Once round the modulus, every value below the count has been emitted,
/// and so as many values as the count says.
pub proof fn lemma_emitted_all(count: int, prime: int, skip: int)
    requires
        sampler_ok(count, prime, skip),
    ensures
        emitted(count, prime, skip, prime).len() == count,
        forall|v: usize| v < count ==> #[trigger] emitted(count, prime, skip, prime).contains(v),
{
    let all = emitted(count, prime, skip, prime);
    lemma_emitted(count, prime, skip, prime);
    assert forall|v: usize| v < count implies #[trigger] all.contains(v) by {
        lemma_cursor_surjective(prime, skip, v as int);
    }
    let values = all.map_values(|v: usize| v as int);
    assert(values.len() == all.len());
    assert forall|a: int, b: int| 0 <= a < values.len() && 0 <= b < values.len() && a
        != b implies values[a] != values[b] by {
        assert(all[a] != all[b]);
    }
    values.unique_seq_to_set();
    lemma_int_range(0, count);
    assert forall|x: int| values.to_set().contains(x) <==> set_int_range(0, count).contains(x) by {
        if values.to_set().contains(x) {
            let i = choose|i: int| 0 <= i < values.len() && values[i] == x;
            assert(all[i] < count);
        }
        if 0 <= x < count {
            let v = x as usize;
            assert(all.contains(v));
            let i = choose|i: int| 0 <= i < all.len() && all[i] == v;
            assert(values[i] == x);
            assert(values.contains(x));
        }
    }
    assert(values.to_set() =~= set_int_range(0, count));
}

} // verus!
